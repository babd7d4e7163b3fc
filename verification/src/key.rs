//! The keys under which the entries of a tree are compared.

use crate::dirwalker::PathEntry;
use crate::error::Error;
use crate::path::{FilePath, Parts, PathView};
use crate::text::join_rows;
use vstd::prelude::*;

verus! {

/// The place of an entry below the root of its tree, as text: the components of a Unix
/// path, joined by slashes.
#[derive(Debug, PartialEq, Eq, Hash)]
pub struct PathKey(String);

impl View for PathKey {
    type V = Seq<char>;

    closed spec fn view(&self) -> Seq<char> {
        self.0@
    }
}

impl Clone for PathKey {
    fn clone(&self) -> (r: PathKey)
        ensures
            r@ == self@,
    {
        PathKey(self.0.clone())
    }
}

/// The key of a path.
pub open spec fn key_of(path: Parts) -> Seq<char> {
    crate::text::slash_joined(path)
}

/// The text of the path that a key spells.
pub open spec fn spelled(key: Seq<char>) -> PathView {
    vstd::utf8::encode_utf8(key)
}

/// The path that a key spells.
pub open spec fn path_of(key: Seq<char>) -> Parts {
    crate::path::parsed(spelled(key))
}

impl<'p> From<&'p FilePath> for PathKey {
    fn from(value: &'p FilePath) -> (r: PathKey)
        ensures
            r@ == key_of(crate::path::parsed(value@)),
    {
        PathKey(join_rows(&value.components()))
    }
}

impl<'p> vstd::std_specs::convert::FromSpecImpl<&'p FilePath> for PathKey {
    open spec fn obeys_from_spec() -> bool {
        false
    }

    open spec fn from_spec(value: &'p FilePath) -> PathKey {
        arbitrary()
    }
}

impl From<FilePath> for PathKey {
    fn from(value: FilePath) -> (r: PathKey)
        ensures
            r@ == key_of(crate::path::parsed(value@)),
    {
        PathKey(join_rows(&value.components()))
    }
}

impl vstd::std_specs::convert::FromSpecImpl<FilePath> for PathKey {
    open spec fn obeys_from_spec() -> bool {
        false
    }

    open spec fn from_spec(value: FilePath) -> PathKey {
        arbitrary()
    }
}

impl PathKey {
    /// The key with the given text.
    pub fn from_text(text: String) -> (r: PathKey)
        ensures
            r@ == text@,
    {
        PathKey(text)
    }

    /// The text of the key.
    pub fn as_str(&self) -> (r: &str)
        ensures
            r@ == self@,
    {
        self.0.as_str()
    }

    /// The text of the key.
    pub fn into_text(self) -> (r: String)
        ensures
            r@ == self@,
    {
        self.0
    }

    /// The path that the key spells.
    pub fn to_path(&self) -> (r: FilePath)
        ensures
            r@ == spelled(self@),
    {
        FilePath::from_bytes(self.0.as_str().as_bytes())
    }

    /// The key of a path that lies below `root`.
    pub fn from_paths(root: &FilePath, full: &FilePath) -> (r: PathKey)
        requires
            crate::path::parsed(root@).is_prefix_of(crate::path::parsed(full@)),
        ensures
            r@ == key_of(
                crate::path::parsed(full@).skip(crate::path::parsed(root@).len() as int),
            ),
    {
        match full.strip_prefix(root) {
            Some(rest) => PathKey::from(&rest),
            None => {
                assert(false);
                PathKey(String::new())
            },
        }
    }

    /// The key of an entry that lies below `root`.
    pub fn from_pathentry(root: &FilePath, entry: &PathEntry) -> (r: Result<PathKey, Error>)
        ensures
            match r {
                Ok(key) => {
                    &&& crate::path::stripped(
                        crate::path::parsed(entry@.location()),
                        crate::path::parsed(root@),
                    ) matches Some(rest)
                    &&& key@ == key_of(rest)
                },
                Err(e) => {
                    &&& crate::path::stripped(
                        crate::path::parsed(entry@.location()),
                        crate::path::parsed(root@),
                    ) is None
                    &&& e@ == crate::error::ErrorView::StripPrefix
                },
            },
    {
        match entry.into_path_root_trimmed(root) {
            Ok(rest) => Ok(PathKey::from(rest)),
            Err(e) => Err(e),
        }
    }
}

/// The encoding of two texts in a row is the encoding of one behind that of the other.
pub proof fn lemma_encode_concat(a: Seq<char>, b: Seq<char>)
    ensures
        vstd::utf8::encode_utf8(a + b) == vstd::utf8::encode_utf8(a) + vstd::utf8::encode_utf8(b),
    decreases a.len(),
{
    if a.len() == 0 {
        assert(a + b =~= b);
        assert(vstd::utf8::encode_utf8(a) =~= Seq::<u8>::empty());
    } else {
        lemma_encode_concat(a.drop_first(), b);
        assert((a + b).drop_first() =~= a.drop_first() + b);
    }
    assert(vstd::utf8::encode_utf8(a + b) =~= vstd::utf8::encode_utf8(a)
        + vstd::utf8::encode_utf8(b));
}

proof fn lemma_encode_slash()
    ensures
        vstd::utf8::encode_utf8(seq!['/']) == seq![crate::path::SEPARATOR],
{
    let s = seq!['/'];
    assert(s.drop_first() =~= Seq::<char>::empty());
    assert(vstd::utf8::encode_utf8(Seq::<char>::empty()) =~= Seq::<u8>::empty());
    assert(vstd::utf8::leading_byte_width_1(0x2fu32) == 0x2fu8) by (bit_vector);
    assert(vstd::utf8::encode_scalar('/' as u32) =~= seq![0x2fu8]);
    assert(vstd::utf8::encode_utf8(s) =~= seq![0x2fu8]);
}

/// Where components are text, the key of a path is spelled by joining them.
pub proof fn lemma_key_joins(path: Parts)
    requires
        forall|i: int| 0 <= i < path.len() ==> vstd::utf8::valid_utf8(#[trigger] path[i]),
    ensures
        spelled(key_of(path)) == crate::path::joined(path),
    decreases path.len(),
{
    broadcast use vstd::utf8::decode_utf8_encode_utf8;

    if path.len() == 0 {
        assert(vstd::utf8::encode_utf8(key_of(path)) =~= Seq::<u8>::empty());
    } else if path.len() == 1 {
        assert(vstd::utf8::valid_utf8(path[0]));
    } else {
        let front = path.drop_last();
        assert forall|i: int| 0 <= i < front.len() implies vstd::utf8::valid_utf8(
            #[trigger] front[i],
        ) by {
            assert(front[i] == path[i]);
        }
        lemma_key_joins(front);
        lemma_encode_slash();
        let k = key_of(front);
        assert(k.push('/') =~= k + seq!['/']);
        lemma_encode_concat(k, seq!['/']);
        let t = crate::text::text_of(path.last());
        lemma_encode_concat(k.push('/'), t);
        assert(vstd::utf8::valid_utf8(path[path.len() - 1]));
        assert(vstd::utf8::encode_utf8(key_of(path)) =~= crate::path::joined(path));
    }
}

/// A path whose components are text is spelled by its key.
pub proof fn lemma_key_spells_path(path: Parts)
    requires
        crate::path::is_clean(path),
        forall|i: int| 0 <= i < path.len() ==> vstd::utf8::valid_utf8(#[trigger] path[i]),
    ensures
        path_of(key_of(path)) == path,
{
    lemma_key_joins(path);
    crate::path::lemma_parsed_joined(path);
}

/// Different paths whose components are text have different keys.
pub proof fn lemma_key_is_injective(a: Parts, b: Parts)
    requires
        crate::path::is_clean(a),
        crate::path::is_clean(b),
        forall|i: int| 0 <= i < a.len() ==> vstd::utf8::valid_utf8(#[trigger] a[i]),
        forall|i: int| 0 <= i < b.len() ==> vstd::utf8::valid_utf8(#[trigger] b[i]),
        key_of(a) == key_of(b),
    ensures
        a == b,
{
    lemma_key_spells_path(a);
    lemma_key_spells_path(b);
}

/// The key of a path is the texts of its components, joined by slashes, and is spelled
/// by its own encoding.
pub proof fn lemma_key_of(path: Parts, last: Seq<u8>, key: Seq<char>)
    ensures
        key_of(Seq::empty()).len() == 0,
        key_of(seq![last]) == crate::text::text_of(last),
        path.len() > 0 ==> key_of(path.push(last)) == key_of(path) + seq!['/']
            + crate::text::text_of(last),
        spelled(key) == vstd::utf8::encode_utf8(key),
        path_of(key) == crate::path::parsed(vstd::utf8::encode_utf8(key)),
{
    crate::text::lemma_slash_joined(path, last);
}

} // verus!
