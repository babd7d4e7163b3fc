//! What the command line program shows of a synchronisation, and the key it keeps.

use crate::path::FilePath;
use crate::sync::SendEvent;
use vstd::prelude::*;

verus! {

/// The number of bytes of a secret key.
pub const KEY_LEN: usize = 32;

/// What the progress bar does about an event.
#[derive(Debug, Clone, Copy)]
pub enum BarStep {
    /// Show progress towards this many bytes.
    Measure(u64),
    /// Count this many bytes more.
    Advance(u64),
    /// Show that all is done.
    Finish,
    /// Print the event.
    Print,
}

/// What the progress bar does about an event of the sender.
pub fn bar_step(event: &SendEvent) -> (r: BarStep)
    ensures
        match *event {
            SendEvent::DiffComputed { total_bytes, .. } => r == BarStep::Measure(total_bytes),
            SendEvent::Progress { bytes } => r matches BarStep::Advance(n) && n == bytes,
            SendEvent::Finished => r == BarStep::Finish,
            _ => r == BarStep::Print,
        },
{
    match event {
        SendEvent::DiffComputed { total_bytes, .. } => BarStep::Measure(*total_bytes),
        SendEvent::Progress { bytes } => BarStep::Advance(*bytes as u64),
        SendEvent::Finished => BarStep::Finish,
        _ => BarStep::Print,
    }
}

/// Where the key of the receiver of the tree below `root` is kept: the place of
/// `.patchsync_key` from there.
pub fn key_file(root: &FilePath) -> (r: FilePath)
    ensures
        r@ == crate::path::pushed(root@, vstd::utf8::encode_utf8(".patchsync_key"@)),
{
    root.join(&FilePath::from_bytes(".patchsync_key".as_bytes()))
}

/// The key that a file holds; none if the file is not as long as a key.
pub fn key_of_file(bytes: &[u8]) -> (r: Option<[u8; 32]>)
    ensures
        match r {
            Some(key) => key@ == bytes@,
            None => bytes@.len() != KEY_LEN,
        },
        r is Some <==> bytes@.len() == 32,
{
    if bytes.len() != KEY_LEN {
        return None;
    }
    let mut key: [u8; 32] = [0u8; 32];
    let mut i: usize = 0;
    while i < 32
        invariant
            i <= 32,
            bytes@.len() == 32,
            key@.take(i as int) == bytes@.take(i as int),
        decreases 32 - i,
    {
        let ghost before = key@;
        key[i] = bytes[i];
        assert(key@.take(i + 1) =~= before.take(i as int).push(bytes@[i as int]));
        assert(bytes@.take(i + 1) =~= bytes@.take(i as int).push(bytes@[i as int]));
        i = i + 1;
    }
    assert(key@.take(32) =~= key@);
    assert(bytes@.take(32) =~= bytes@);
    Some(key)
}

} // verus!
