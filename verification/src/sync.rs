//! The messages of the two sides, the events they report, and how messages
//! travel over a stream of bytes.

use crate::error::Error;
use crate::listing::{Snapshot, SnapshotView};
use crate::path::{FilePath, PathView};
use crate::snapshot::{ChangeView, SnapshotEntry};
use vstd::prelude::*;

verus! {

/// What the sender tells the receiver.
pub enum SenderToReceiver {
    /// It asks what the receiver has.
    RequestSnapshot,
    /// It gives the changes to make.
    SendPatch(Vec<SnapshotEntry>),
    /// There is nothing to do.
    Ack,
}

/// What the receiver tells the sender.
pub enum ReceiverToSender {
    /// What it has.
    Snapshot(Snapshot),
    /// The changes are made.
    Ack,
    /// It failed.
    Error(String),
}

/// What a message of the sender says.
pub enum RequestView {
    RequestSnapshot,
    SendPatch(Seq<ChangeView>),
    Ack,
}

/// What a message of the receiver says.
pub enum ReplyView {
    Snapshot(SnapshotView),
    Ack,
    Error(Seq<char>),
}

impl View for SenderToReceiver {
    type V = RequestView;

    open spec fn view(&self) -> RequestView {
        match self {
            SenderToReceiver::RequestSnapshot => RequestView::RequestSnapshot,
            SenderToReceiver::SendPatch(changes) => RequestView::SendPatch(
                crate::snapshot::change_views(changes@),
            ),
            SenderToReceiver::Ack => RequestView::Ack,
        }
    }
}

impl View for ReceiverToSender {
    type V = ReplyView;

    open spec fn view(&self) -> ReplyView {
        match self {
            ReceiverToSender::Snapshot(snapshot) => ReplyView::Snapshot(snapshot@),
            ReceiverToSender::Ack => ReplyView::Ack,
            ReceiverToSender::Error(text) => ReplyView::Error(text@),
        }
    }
}

/// What the sender reports to its user.
#[derive(Debug)]
pub enum SendEvent {
    Started,
    SnapshotReceived { entry_count: usize },
    DiffComputed { total_entries: usize, total_bytes: u64 },
    Progress { bytes: usize },
    Finished,
    Error(String),
}

/// What the receiver reports to its user.
#[derive(Debug)]
pub enum RecvEvent {
    Started,
    SnapshotSent { entry_count: usize },
    EntryReceiving { path: FilePath },
    Progress { bytes: usize },
    EntryApplied { path: FilePath },
    Finished,
    Error(String),
}

/// What an event of the sender says.
pub enum SendEventView {
    Started,
    SnapshotReceived { entry_count: usize },
    DiffComputed { total_entries: usize, total_bytes: u64 },
    Progress { bytes: usize },
    Finished,
    Error(Seq<char>),
}

/// What an event of the receiver says.
pub enum RecvEventView {
    Started,
    SnapshotSent { entry_count: usize },
    EntryReceiving { path: PathView },
    Progress { bytes: usize },
    EntryApplied { path: PathView },
    Finished,
    Error(Seq<char>),
}

impl View for SendEvent {
    type V = SendEventView;

    open spec fn view(&self) -> SendEventView {
        match self {
            SendEvent::Started => SendEventView::Started,
            SendEvent::SnapshotReceived { entry_count } => SendEventView::SnapshotReceived {
                entry_count: *entry_count,
            },
            SendEvent::DiffComputed { total_entries, total_bytes } => SendEventView::DiffComputed {
                total_entries: *total_entries,
                total_bytes: *total_bytes,
            },
            SendEvent::Progress { bytes } => SendEventView::Progress { bytes: *bytes },
            SendEvent::Finished => SendEventView::Finished,
            SendEvent::Error(text) => SendEventView::Error(text@),
        }
    }
}

impl View for RecvEvent {
    type V = RecvEventView;

    open spec fn view(&self) -> RecvEventView {
        match self {
            RecvEvent::Started => RecvEventView::Started,
            RecvEvent::SnapshotSent { entry_count } => RecvEventView::SnapshotSent {
                entry_count: *entry_count,
            },
            RecvEvent::EntryReceiving { path } => RecvEventView::EntryReceiving { path: path@ },
            RecvEvent::Progress { bytes } => RecvEventView::Progress { bytes: *bytes },
            RecvEvent::EntryApplied { path } => RecvEventView::EntryApplied { path: path@ },
            RecvEvent::Finished => RecvEventView::Finished,
            RecvEvent::Error(text) => RecvEventView::Error(text@),
        }
    }
}

impl Clone for SendEvent {
    fn clone(&self) -> (r: SendEvent)
        ensures
            r@ == self@,
    {
        match self {
            SendEvent::Started => SendEvent::Started,
            SendEvent::SnapshotReceived { entry_count } => SendEvent::SnapshotReceived {
                entry_count: *entry_count,
            },
            SendEvent::DiffComputed { total_entries, total_bytes } => SendEvent::DiffComputed {
                total_entries: *total_entries,
                total_bytes: *total_bytes,
            },
            SendEvent::Progress { bytes } => SendEvent::Progress { bytes: *bytes },
            SendEvent::Finished => SendEvent::Finished,
            SendEvent::Error(text) => SendEvent::Error(text.clone()),
        }
    }
}

impl Clone for RecvEvent {
    fn clone(&self) -> (r: RecvEvent)
        ensures
            r@ == self@,
    {
        match self {
            RecvEvent::Started => RecvEvent::Started,
            RecvEvent::SnapshotSent { entry_count } => RecvEvent::SnapshotSent {
                entry_count: *entry_count,
            },
            RecvEvent::EntryReceiving { path } => RecvEvent::EntryReceiving { path: path.clone() },
            RecvEvent::Progress { bytes } => RecvEvent::Progress { bytes: *bytes },
            RecvEvent::EntryApplied { path } => RecvEvent::EntryApplied { path: path.clone() },
            RecvEvent::Finished => RecvEvent::Finished,
            RecvEvent::Error(text) => RecvEvent::Error(text.clone()),
        }
    }
}

/// Events that can report that bytes went over a stream.
pub trait FromProgress: Sized {
    /// The event for a number of bytes.
    spec fn progress(n: usize) -> Self;

    /// The event for a number of bytes.
    fn from_bytes(n: usize) -> (r: Self)
        ensures
            r == Self::progress(n),
    ;
}

impl FromProgress for SendEvent {
    open spec fn progress(n: usize) -> SendEvent {
        SendEvent::Progress { bytes: n }
    }

    fn from_bytes(n: usize) -> (r: SendEvent) {
        SendEvent::Progress { bytes: n }
    }
}

impl FromProgress for RecvEvent {
    open spec fn progress(n: usize) -> RecvEvent {
        RecvEvent::Progress { bytes: n }
    }

    fn from_bytes(n: usize) -> (r: RecvEvent) {
        RecvEvent::Progress { bytes: n }
    }
}

/// How many bytes stand in front of a message to announce its length.
pub const HEADER_LEN: usize = 4;

/// One more than the largest length that can be announced.
pub const LENGTH_LIMIT: u64 = 0x1_0000_0000;

/// What stands in front of a message of `len` bytes: the length modulo
/// [`LENGTH_LIMIT`], least significant byte first.
pub open spec fn header_of(len: nat) -> Seq<u8> {
    let n = len % (LENGTH_LIMIT as nat);
    seq![
        (n % 256) as u8,
        (n / 256 % 256) as u8,
        (n / 65536 % 256) as u8,
        (n / 16777216) as u8,
    ]
}

/// The length that a header announces.
pub open spec fn announced(header: Seq<u8>) -> nat {
    (header[0] + 256 * header[1] + 65536 * header[2] + 16777216 * header[3]) as nat
}

/// What stands in front of the message.
pub fn frame_header(payload: &[u8]) -> (r: [u8; 4])
    ensures
        r@ == header_of(payload@.len()),
        r@[0] + 256 * r@[1] + 65536 * r@[2] + 16777216 * r@[3] == payload@.len() % 0x1_0000_0000,
{
    let n: u64 = payload.len() as u64 % LENGTH_LIMIT;
    let r = [
        (n % 256) as u8,
        (n / 256 % 256) as u8,
        (n / 65536 % 256) as u8,
        (n / 16777216) as u8,
    ];
    assert(r@ =~= header_of(payload@.len()));
    proof {
        lemma_header(payload@.len());
    }
    r
}

/// How many bytes of message follow the header.
pub fn payload_len(header: [u8; 4]) -> (r: usize)
    ensures
        r == announced(header@),
        r == header@[0] + 256 * header@[1] + 65536 * header@[2] + 16777216 * header@[3],
{
    let n: u32 = header[0] as u32 + 256 * header[1] as u32 + 65536 * header[2] as u32
        + 16777216 * header[3] as u32;
    n as usize
}

/// Which way bytes go.
#[derive(Debug, Clone, Copy, PartialEq, Eq, Structural)]
pub enum Direction {
    Write,
    Read,
}

/// A number of bytes on their way over a stream.
#[derive(Debug)]
pub struct Transfer {
    direction: Direction,
    total: usize,
    moved: usize,
}

/// How far a transfer of `total` bytes has come when it stood at `moved` and the
/// stream handled `n` more.
pub open spec fn moved_on(total: int, moved: int, n: int) -> int {
    if n >= total - moved {
        total
    } else {
        moved + n
    }
}

impl Transfer {
    /// Which way the bytes go.
    pub closed spec fn way(&self) -> Direction {
        self.direction
    }

    /// How many bytes there are.
    pub closed spec fn size(&self) -> int {
        self.total as int
    }

    /// How many have gone over the stream.
    pub closed spec fn at(&self) -> int {
        self.moved as int
    }

    #[verifier::type_invariant]
    closed spec fn is_in_range(self) -> bool {
        self.moved <= self.total
    }

    /// A transfer of which nothing has been done.
    pub fn new(direction: Direction, total: usize) -> (r: Transfer)
        ensures
            r.way() == direction,
            r.size() == total,
            r.at() == 0,
    {
        Transfer { direction, total, moved: 0 }
    }

    /// From where on the bytes still have to go; `None` once all have gone.
    pub fn position(&self) -> (r: Option<usize>)
        ensures
            match r {
                Some(p) => p == self.at() && self.at() < self.size(),
                None => self.at() == self.size(),
            },
    {
        proof {
            use_type_invariant(self);
        }
        if self.moved < self.total {
            Some(self.moved)
        } else {
            None
        }
    }

    /// Takes note that the stream handled `n` bytes. If it handled none, it is closed.
    pub fn advance<E: FromProgress>(&mut self, n: usize) -> (r: Result<E, Error>)
        ensures
            final(self).way() == old(self).way(),
            final(self).size() == old(self).size(),
            match r {
                Ok(event) => {
                    &&& n > 0
                    &&& event == E::progress(n)
                    &&& final(self).at() == moved_on(
                        old(self).size(),
                        old(self).at(),
                        n as int,
                    )
                    &&& old(self).at() + n <= old(self).size() ==> final(self).at() == old(
                        self,
                    ).at() + n
                    &&& old(self).at() + n > old(self).size() ==> final(self).at() == old(
                        self,
                    ).size()
                },
                Err(e) => {
                    &&& n == 0
                    &&& final(self).at() == old(self).at()
                    &&& e@ == match old(self).way() {
                        Direction::Write => crate::error::ErrorView::StreamClosedWrite,
                        Direction::Read => crate::error::ErrorView::StreamClosedRead,
                    }
                },
            },
    {
        proof {
            use_type_invariant(&*self);
        }
        if n == 0 {
            return match self.direction {
                Direction::Write => Err(Error::StreamClosedWrite),
                Direction::Read => Err(Error::StreamClosedRead),
            };
        }
        self.moved = if n >= self.total - self.moved {
            self.total
        } else {
            self.moved + n
        };
        Ok(E::from_bytes(n))
    }
}

/// Where a transfer of `total` bytes stands after the steps.
pub open spec fn after_steps(total: int, steps: Seq<int>) -> int
    decreases steps.len(),
{
    if steps.len() == 0 {
        0
    } else {
        moved_on(total, after_steps(total, steps.drop_last()), steps.last())
    }
}

/// The sum of the steps.
pub open spec fn sum_of(steps: Seq<int>) -> int
    decreases steps.len(),
{
    if steps.len() == 0 {
        0
    } else {
        sum_of(steps.drop_last()) + steps.last()
    }
}

/// A transfer is as far as the bytes that were reported, up to its size: it is
/// complete exactly when they add up to it.
pub proof fn lemma_progress_adds_up(total: int, steps: Seq<int>)
    requires
        0 <= total,
        forall|i: int| 0 <= i < steps.len() ==> 0 < #[trigger] steps[i],
    ensures
        after_steps(total, steps) == (if sum_of(steps) < total {
            sum_of(steps)
        } else {
            total
        }),
        0 <= sum_of(steps),
    decreases steps.len(),
{
    if steps.len() > 0 {
        let front = steps.drop_last();
        assert forall|i: int| 0 <= i < front.len() implies 0 < #[trigger] front[i] by {
            assert(front[i] == steps[i]);
        }
        lemma_progress_adds_up(total, front);
        assert(0 < steps[steps.len() - 1]);
    }
}

/// A message that is read back off a stream is the message that was written to it,
/// whatever follows it, unless it is too long to be announced.
pub proof fn lemma_frame_reads_back(payload: Seq<u8>, rest: Seq<u8>)
    requires
        payload.len() < LENGTH_LIMIT,
    ensures
        ({
            let stream = header_of(payload.len()) + payload + rest;
            let n = announced(stream.take(HEADER_LEN as int)) as int;
            &&& n == payload.len()
            &&& stream.subrange(HEADER_LEN as int, HEADER_LEN + n) == payload
            &&& stream.skip(HEADER_LEN + n) == rest
        }),
{
    let header = header_of(payload.len());
    let stream = header + payload + rest;
    assert(stream.take(HEADER_LEN as int) =~= header);
    let len = payload.len() as int;
    assert(announced(header) == len) by {
        assert(len % 0x1_0000_0000 == len);
        assert(len == len % 256 + 256 * (len / 256 % 256) + 65536 * (len / 65536 % 256)
            + 16777216 * (len / 16777216));
    }
    assert(stream.subrange(HEADER_LEN as int, HEADER_LEN + len) =~= payload);
    assert(stream.skip(HEADER_LEN + len) =~= rest);
}

/// A header is the length of the message as a number of four bytes, the least significant
/// first, modulo what four bytes can hold.
pub proof fn lemma_header(len: nat)
    ensures
        header_of(len).len() == 4,
        header_of(len)[0] + 256 * header_of(len)[1] + 65536 * header_of(len)[2] + 16777216
            * header_of(len)[3] == len % 0x1_0000_0000,
{
    let n = (len % 0x1_0000_0000) as int;
    assert(n == n % 256 + 256 * (n / 256 % 256) + 65536 * (n / 65536 % 256) + 16777216 * (n
        / 16777216));
}

/// The length that four bytes announce.
pub proof fn lemma_announced(a: u8, b: u8, c: u8, d: u8)
    ensures
        announced(seq![a, b, c, d]) == a + 256 * b + 65536 * c + 16777216 * d,
{
}

/// Progress is reported as the number of bytes that went over the stream, on either side.
pub proof fn lemma_progress_events(n: usize)
    ensures
        <SendEvent as FromProgress>::progress(n) == (SendEvent::Progress { bytes: n }),
        <RecvEvent as FromProgress>::progress(n) == (RecvEvent::Progress { bytes: n }),
{
}

/// A transfer moves on by the bytes that were handled, but never past its end.
pub proof fn lemma_moved_on(total: int, moved: int, n: int)
    requires
        0 <= moved <= total,
        0 <= n,
    ensures
        moved <= moved_on(total, moved, n) <= total,
        moved + n <= total ==> moved_on(total, moved, n) == moved + n,
        moved + n > total ==> moved_on(total, moved, n) == total,
{
}

/// The views of messages show their kind and all that they carry.
pub proof fn lemma_message_views(request: SenderToReceiver, reply: ReceiverToSender)
    ensures
        request matches SenderToReceiver::RequestSnapshot ==> request@ is RequestSnapshot,
        request matches SenderToReceiver::SendPatch(changes) ==> request@
            == RequestView::SendPatch(crate::snapshot::change_views(changes@)),
        request matches SenderToReceiver::Ack ==> request@ is Ack,
        reply matches ReceiverToSender::Snapshot(tree) ==> reply@ == ReplyView::Snapshot(tree@),
        reply matches ReceiverToSender::Ack ==> reply@ is Ack,
        reply matches ReceiverToSender::Error(text) ==> reply@ == ReplyView::Error(text@),
{
}

/// The views of events show their kind and all that they tell.
pub proof fn lemma_event_views(sent: SendEvent, received: RecvEvent)
    ensures
        sent matches SendEvent::Started ==> sent@ is Started,
        sent matches SendEvent::SnapshotReceived { entry_count } ==> sent@ == (
        SendEventView::SnapshotReceived { entry_count }),
        sent matches SendEvent::DiffComputed { total_entries, total_bytes } ==> sent@ == (
        SendEventView::DiffComputed { total_entries, total_bytes }),
        sent matches SendEvent::Progress { bytes } ==> sent@ == (SendEventView::Progress { bytes }),
        sent matches SendEvent::Finished ==> sent@ is Finished,
        sent matches SendEvent::Error(text) ==> sent@ == SendEventView::Error(text@),
        received matches RecvEvent::Started ==> received@ is Started,
        received matches RecvEvent::SnapshotSent { entry_count } ==> received@ == (
        RecvEventView::SnapshotSent { entry_count }),
        received matches RecvEvent::EntryReceiving { path } ==> received@ == (
        RecvEventView::EntryReceiving { path: path@ }),
        received matches RecvEvent::Progress { bytes } ==> received@ == (RecvEventView::Progress {
            bytes,
        }),
        received matches RecvEvent::EntryApplied { path } ==> received@ == (
        RecvEventView::EntryApplied { path: path@ }),
        received matches RecvEvent::Finished ==> received@ is Finished,
        received matches RecvEvent::Error(text) ==> received@ == RecvEventView::Error(text@),
{
}

} // verus!
