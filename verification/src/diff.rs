//! Finding the changes that turn one tree into another.

use crate::chunker::FileChunk;
use crate::dirwalker::{PathEntry, PathEntryView};
use crate::key::PathKey;
use crate::listing::{Snapshot, SnapshotView};
use crate::path::{bytes_equal, copy_bytes, FilePath};
use crate::snapshot::{ChangeView, InstructView, PatchInstructs, SnapshotEntry};
use std::collections::HashMap;
use vstd::prelude::*;

verus! {

/// The last chunk with the given hash.
pub open spec fn last_with_hash(chunks: Seq<FileChunk>, hash: [u8; 32]) -> Option<FileChunk>
    decreases chunks.len(),
{
    if chunks.len() == 0 {
        None
    } else if chunks.last().hash == hash {
        Some(chunks.last())
    } else {
        last_with_hash(chunks.drop_last(), hash)
    }
}

/// The smaller of two numbers.
pub open spec fn least(a: int, b: int) -> int {
    if a <= b {
        a
    } else {
        b
    }
}

/// The bytes of `data` in a range, as far as `data` reaches.
pub open spec fn clipped(data: Seq<u8>, offset: u64, length: u64) -> Seq<u8> {
    data.subrange(
        least(offset as int, data.len() as int),
        least(offset + length, data.len() as int),
    )
}

/// How the bytes of a chunk are had: out of the old file where it has a chunk with
/// the same hash, else out of the new contents.
pub open spec fn instruct_for(
    old_chunks: Seq<FileChunk>,
    chunk: FileChunk,
    data: Seq<u8>,
) -> InstructView {
    match last_with_hash(old_chunks, chunk.hash) {
        Some(old) => InstructView::Copy { offset: old.offset, length: old.length },
        None => InstructView::Literal { data: clipped(data, chunk.offset, chunk.length) },
    }
}

/// How the new file is had, chunk by chunk.
pub open spec fn instructs_for(
    old_chunks: Seq<FileChunk>,
    new_chunks: Seq<FileChunk>,
    data: Seq<u8>,
) -> Seq<InstructView> {
    Seq::new(new_chunks.len(), |i: int| instruct_for(old_chunks, new_chunks[i], data))
}

/// Whether two files have the same hashes in the same order.
pub open spec fn same_hashes(a: Seq<FileChunk>, b: Seq<FileChunk>) -> bool {
    &&& a.len() == b.len()
    &&& forall|i: int| #![trigger a[i], b[i]] 0 <= i < a.len() ==> a[i].hash == b[i].hash
}

/// The changes for a key of the new tree, under which the old tree has `old`.
/// `data` is what the file holds if the entry is one.
pub open spec fn changes_for(
    old: Option<PathEntryView>,
    key: Seq<char>,
    entry: PathEntryView,
    data: Seq<u8>,
) -> Seq<ChangeView> {
    let path = crate::key::spelled(key);
    let create = ChangeView::Create { path, bytes: data };
    let delete = ChangeView::Delete { path };
    match (old, entry) {
        (None, PathEntryView::File { .. }) => seq![create],
        (
            Some(PathEntryView::File { chunks: old_chunks, .. }),
            PathEntryView::File { chunks, .. },
        ) => {
            if same_hashes(old_chunks, chunks) {
                Seq::empty()
            } else {
                seq![
                    ChangeView::Update {
                        path,
                        instructs: instructs_for(old_chunks, chunks, data),
                    },
                ]
            }
        },
        (Some(PathEntryView::Dir { .. }), PathEntryView::File { .. }) => seq![delete, create],
        (Some(PathEntryView::File { .. }), PathEntryView::Dir { .. }) => seq![delete],
        (None, PathEntryView::Dir { .. }) => Seq::empty(),
        (Some(PathEntryView::Dir { .. }), PathEntryView::Dir { .. }) => Seq::empty(),
    }
}

/// The changes for the first `n` keys of the new tree; `contents[i]` is what file `i` holds.
pub open spec fn arrivals(
    old: SnapshotView,
    new: SnapshotView,
    contents: Seq<Seq<u8>>,
    n: nat,
) -> Seq<ChangeView>
    decreases n,
{
    if n == 0 {
        Seq::empty()
    } else {
        arrivals(old, new, contents, (n - 1) as nat) + changes_for(
            crate::listing::entry_for(old, new[n - 1].0),
            new[n - 1].0,
            new[n - 1].1,
            contents[n - 1],
        )
    }
}

/// The changes for the first `n` keys of the old tree: what the new tree lacks is deleted.
pub open spec fn departures(old: SnapshotView, new: SnapshotView, n: nat) -> Seq<ChangeView>
    decreases n,
{
    if n == 0 {
        Seq::empty()
    } else {
        let before = departures(old, new, (n - 1) as nat);
        if crate::listing::has_key(new, old[n - 1].0) {
            before
        } else {
            before.push(ChangeView::Delete { path: crate::key::spelled(old[n - 1].0) })
        }
    }
}

/// The changes that turn the old tree into the new one.
pub open spec fn changes(old: SnapshotView, new: SnapshotView, contents: Seq<Seq<u8>>) -> Seq<
    ChangeView,
> {
    arrivals(old, new, contents, new.len()) + departures(old, new, old.len())
}

/// Where the chunks of a file with a given hash are looked up: the first bytes of
/// the hash, as a number.
spec fn bucket_of(hash: [u8; 32]) -> u64 {
    vstd::bytes::spec_u64_from_le_bytes(hash@.subrange(0, 8))
}

fn bucket_number(hash: &[u8; 32]) -> (r: u64)
    ensures
        r == bucket_of(*hash),
{
    let head = vstd::slice::slice_subrange(vstd::array::array_as_slice(hash), 0, 8);
    vstd::bytes::u64_from_le_bytes(head)
}

/// Whether two hashes are the same.
fn hash_equal(a: &[u8; 32], b: &[u8; 32]) -> (r: bool)
    ensures
        r == (*a == *b),
{
    let r = bytes_equal(vstd::array::array_as_slice(a), vstd::array::array_as_slice(b));
    assert(a@ == b@ ==> a =~= b);
    r
}

/// The chunks of a file, found by hash.
struct ChunkIndex<'a> {
    chunks: &'a Vec<FileChunk>,
    buckets: HashMap<u64, Vec<usize>>,
}

/// Whether the first `n` chunks stand in their buckets, each bucket in order.
spec fn is_bucketed(chunks: Seq<FileChunk>, buckets: Map<u64, Vec<usize>>, n: nat) -> bool {
    &&& forall|i: int|
        #![trigger chunks[i]]
        0 <= i < n ==> {
            &&& buckets.contains_key(bucket_of(chunks[i].hash))
            &&& buckets[bucket_of(chunks[i].hash)]@.contains(i as usize)
        }
    &&& forall|k: u64, j: int|
        #![trigger buckets[k]@[j]]
        buckets.contains_key(k) && 0 <= j < buckets[k]@.len() ==> buckets[k]@[j] < n
    &&& forall|k: u64, j: int, l: int|
        #![trigger buckets[k]@[j], buckets[k]@[l]]
        buckets.contains_key(k) && 0 <= j < l < buckets[k]@.len() ==> buckets[k]@[j]
            < buckets[k]@[l]
}

/// The last chunk with a hash is the one behind which no other has it.
proof fn lemma_last_with_hash(chunks: Seq<FileChunk>, hash: [u8; 32], at: int)
    requires
        0 <= at < chunks.len(),
        chunks[at].hash == hash,
        forall|i: int| at < i < chunks.len() ==> (#[trigger] chunks[i]).hash != hash,
    ensures
        last_with_hash(chunks, hash) == Some(chunks[at]),
    decreases chunks.len(),
{
    if at < chunks.len() - 1 {
        let front = chunks.drop_last();
        assert forall|i: int| at < i < front.len() implies (#[trigger] front[i]).hash != hash by {
            assert(front[i] == chunks[i]);
        }
        lemma_last_with_hash(front, hash, at);
    }
}

proof fn lemma_none_with_hash(chunks: Seq<FileChunk>, hash: [u8; 32])
    requires
        forall|i: int| 0 <= i < chunks.len() ==> (#[trigger] chunks[i]).hash != hash,
    ensures
        last_with_hash(chunks, hash) is None,
    decreases chunks.len(),
{
    if chunks.len() > 0 {
        let front = chunks.drop_last();
        assert forall|i: int| 0 <= i < front.len() implies (#[trigger] front[i]).hash != hash by {
            assert(front[i] == chunks[i]);
        }
        lemma_none_with_hash(front, hash);
    }
}

impl<'a> ChunkIndex<'a> {
    spec fn is_complete(&self) -> bool {
        is_bucketed(self.chunks@, self.buckets@, self.chunks@.len())
    }

    fn new(chunks: &'a Vec<FileChunk>) -> (r: ChunkIndex<'a>)
        ensures
            r.is_complete(),
            r.chunks@ == chunks@,
    {
        broadcast use vstd::std_specs::hash::group_hash_axioms;

        let mut buckets: HashMap<u64, Vec<usize>> = HashMap::new();
        let mut i: usize = 0;
        while i < chunks.len()
            invariant
                i <= chunks.len(),
                is_bucketed(chunks@, buckets@, i as nat),
            decreases chunks.len() - i,
        {
            let ghost before = buckets@;
            let (hash, _) = chunks[i].to_hashmap_kv();
            let k = bucket_number(&hash);
            let mut bucket = match buckets.remove(&k) {
                Some(b) => b,
                None => Vec::new(),
            };
            let ghost old_bucket = bucket@;
            bucket.push(i);
            let ghost new_bucket = bucket@;
            buckets.insert(k, bucket);
            proof {
                let after = buckets@;
                assert(after[k]@ == old_bucket.push(i));
                assert forall|other: u64| other != k && after.contains_key(other) implies {
                    &&& before.contains_key(other)
                    &&& #[trigger] after[other] == before[other]
                } by {}
                assert forall|j: int| #![trigger chunks@[j]] 0 <= j < i + 1 implies {
                    &&& after.contains_key(bucket_of(chunks@[j].hash))
                    &&& after[bucket_of(chunks@[j].hash)]@.contains(j as usize)
                } by {
                    let b = bucket_of(chunks@[j].hash);
                    if j < i {
                        let at = choose|at: int|
                            0 <= at < before[b]@.len() && before[b]@[at] == j as usize;
                        if b == k {
                            assert(new_bucket[at] == j as usize);
                        } else {
                            assert(after[b] == before[b]);
                        }
                    } else {
                        assert(new_bucket[old_bucket.len() as int] == i);
                    }
                }
                assert forall|q: u64, j: int|
                    #![trigger after[q]@[j]]
                    after.contains_key(q) && 0 <= j < after[q]@.len() implies after[q]@[j] < i
                    + 1 by {
                    if q != k {
                        assert(after[q] == before[q]);
                        assert(before[q]@[j] < i);
                    } else if j < old_bucket.len() {
                        assert(before[k]@[j] < i);
                    }
                }
                assert forall|q: u64, j: int, l: int|
                    #![trigger after[q]@[j], after[q]@[l]]
                    after.contains_key(q) && 0 <= j < l < after[q]@.len() implies after[q]@[j]
                    < after[q]@[l] by {
                    if q != k {
                        assert(after[q] == before[q]);
                        assert(before[q]@[j] < before[q]@[l]);
                    } else {
                        assert(before[k]@[j] < i);
                        if l < old_bucket.len() {
                            assert(before[k]@[j] < before[k]@[l]);
                        }
                    }
                }
            }
            i += 1;
        }
        ChunkIndex { chunks, buckets }
    }

    /// The last chunk with the hash.
    fn find(&self, hash: &[u8; 32]) -> (r: Option<FileChunk>)
        requires
            self.is_complete(),
        ensures
            r == last_with_hash(self.chunks@, *hash),
    {
        broadcast use vstd::std_specs::hash::group_hash_axioms;

        let k = bucket_number(hash);
        assert(self.chunks.len() == self.chunks@.len());
        match self.buckets.get(&k) {
            None => {
                proof {
                    lemma_none_with_hash(self.chunks@, *hash);
                }
                None
            },
            Some(bucket) => {
                let mut j: usize = bucket.len();
                while j > 0
                    invariant
                        self.is_complete(),
                        self.chunks@.len() <= usize::MAX,
                        j <= bucket@.len(),
                        k == bucket_of(*hash),
                        self.buckets@.contains_key(k),
                        *bucket == self.buckets@[k],
                        forall|l: int|
                            j <= l < bucket@.len() ==> self.chunks@[(#[trigger] bucket@[l]) as int].hash
                                != *hash,
                    decreases j,
                {
                    j -= 1;
                    let at = bucket[j];
                    assert(self.buckets@[k]@[j as int] < self.chunks@.len());
                    let chunk = self.chunks[at];
                    if hash_equal(&chunk.hash, hash) {
                        proof {
                            assert forall|i: int| at < i < self.chunks@.len() implies (
                            #[trigger] self.chunks@[i]).hash != *hash by {
                                if self.chunks@[i].hash == *hash {
                                    assert(bucket@.contains(i as usize));
                                    let l = choose|l: int|
                                        0 <= l < bucket@.len() && bucket@[l] == i as usize;
                                    if l < j {
                                        assert(self.buckets@[k]@[l] < self.buckets@[k]@[j as int]);
                                    }
                                }
                            }
                            lemma_last_with_hash(self.chunks@, *hash, at as int);
                        }
                        return Some(chunk);
                    }
                }
                proof {
                    assert forall|i: int| 0 <= i < self.chunks@.len() implies (
                    #[trigger] self.chunks@[i]).hash != *hash by {
                        if self.chunks@[i].hash == *hash {
                            assert(bucket@.contains(i as usize));
                            let l = choose|l: int|
                                0 <= l < bucket@.len() && bucket@[l] == i as usize;
                            assert(self.chunks@[bucket@[l] as int].hash != *hash);
                        }
                    }
                    lemma_none_with_hash(self.chunks@, *hash);
                }
                None
            },
        }
    }
}

/// The bytes of `data` in a range, as far as `data` reaches.
fn clip(data: &[u8], offset: u64, length: u64) -> (r: Vec<u8>)
    ensures
        r@ == clipped(data@, offset, length),
{
    let len = data.len();
    let start: usize = if offset < len as u64 {
        offset as usize
    } else {
        len
    };
    let end: usize = if length < (len - start) as u64 {
        start + length as usize
    } else {
        len
    };
    let r = copy_bytes(vstd::slice::slice_subrange(data, start, end));
    assert(r@ =~= clipped(data@, offset, length));
    r
}

/// How the new file, which holds `data`, is had out of the old one.
pub fn instructs(old_chunks: &Vec<FileChunk>, new_chunks: &Vec<FileChunk>, data: &[u8]) -> (r: Vec<
    PatchInstructs,
>)
    ensures
        crate::snapshot::instruct_views(r@) == instructs_for(old_chunks@, new_chunks@, data@),
        r@.len() == new_chunks@.len(),
        forall|i: int, j: int|
            #![trigger r@[i], old_chunks@[j]]
            0 <= i < r@.len() && 0 <= j < old_chunks@.len() && old_chunks@[j].hash
                == new_chunks@[i].hash ==> r@[i] is Copy,
{
    let index = ChunkIndex::new(old_chunks);
    let mut r: Vec<PatchInstructs> = Vec::new();
    let mut i: usize = 0;
    while i < new_chunks.len()
        invariant
            i <= new_chunks.len(),
            index.is_complete(),
            index.chunks@ == old_chunks@,
            r@.len() == i,
            forall|j: int|
                0 <= j < i ==> (#[trigger] r@[j])@ == instruct_for(
                    old_chunks@,
                    new_chunks@[j],
                    data@,
                ),
        decreases new_chunks.len() - i,
    {
        let chunk = new_chunks[i];
        let instruct = match index.find(&chunk.hash) {
            Some(old) => PatchInstructs::Copy { offset: old.offset, length: old.length },
            None => PatchInstructs::Literal { data: clip(data, chunk.offset, chunk.length) },
        };
        r.push(instruct);
        i += 1;
    }
    assert(crate::snapshot::instruct_views(r@) =~= instructs_for(
        old_chunks@,
        new_chunks@,
        data@,
    ));
    proof {
        lemma_delta_reuses(old_chunks@, new_chunks@, data@);
        assert forall|i: int, j: int|
            #![trigger r@[i], old_chunks@[j]]
            0 <= i < r@.len() && 0 <= j < old_chunks@.len() && old_chunks@[j].hash
                == new_chunks@[i].hash implies r@[i] is Copy by {
            assert(r@[i]@ == crate::snapshot::instruct_views(r@)[i]);
        }
    }
    r
}

/// Whether two files have the same hashes in the same order.
pub fn is_unchanged(old_chunks: &Vec<FileChunk>, new_chunks: &Vec<FileChunk>) -> (r: bool)
    ensures
        r == same_hashes(old_chunks@, new_chunks@),
        r == (old_chunks@.len() == new_chunks@.len() && forall|i: int|
            #![trigger old_chunks@[i], new_chunks@[i]]
            0 <= i < old_chunks@.len() ==> old_chunks@[i].hash == new_chunks@[i].hash),
{
    if old_chunks.len() != new_chunks.len() {
        return false;
    }
    let mut i: usize = 0;
    while i < old_chunks.len()
        invariant
            i <= old_chunks.len(),
            old_chunks@.len() == new_chunks@.len(),
            forall|j: int|
                #![trigger old_chunks@[j], new_chunks@[j]]
                0 <= j < i ==> old_chunks@[j].hash == new_chunks@[j].hash,
        decreases old_chunks.len() - i,
    {
        if !hash_equal(&old_chunks[i].hash, &new_chunks[i].hash) {
            return false;
        }
        i += 1;
    }
    true
}

/// The changes for a key of the new tree, under which the old tree has `old`.
/// `data` is what the file holds if the entry is one.
pub fn diff_entry(
    old: Option<&PathEntry>,
    key: &PathKey,
    entry: &PathEntry,
    data: Vec<u8>,
) -> (r: Vec<SnapshotEntry>)
    ensures
        crate::snapshot::change_views(r@) == changes_for(
            match old {
                Some(e) => Some(e@),
                None => None,
            },
            key@,
            entry@,
            data@,
        ),
{
    let mut r: Vec<SnapshotEntry> = Vec::new();
    match (old, entry) {
        (None, PathEntry::File { .. }) => {
            r.push(SnapshotEntry::Create { path: key.to_path(), bytes: data });
        },
        (Some(PathEntry::File { chunks: old_chunks, .. }), PathEntry::File { chunks, .. }) => {
            if !is_unchanged(old_chunks, chunks) {
                r.push(
                    SnapshotEntry::Update {
                        path: key.to_path(),
                        instructs: instructs(old_chunks, chunks, data.as_slice()),
                    },
                );
            }
        },
        (Some(PathEntry::Dir { .. }), PathEntry::File { .. }) => {
            r.push(SnapshotEntry::Delete { path: key.to_path() });
            r.push(SnapshotEntry::Create { path: key.to_path(), bytes: data });
        },
        (Some(PathEntry::File { .. }), PathEntry::Dir { .. }) => {
            r.push(SnapshotEntry::Delete { path: key.to_path() });
        },
        (None, PathEntry::Dir { .. }) => {},
        (Some(PathEntry::Dir { .. }), PathEntry::Dir { .. }) => {},
    }
    assert(crate::snapshot::change_views(r@) =~= changes_for(
        match old {
            Some(e) => Some(e@),
            None => None,
        },
        key@,
        entry@,
        data@,
    ));
    r
}

/// A comparison of two trees under way. It asks for the contents of the files of
/// the new tree one by one.
pub struct DiffSession {
    old: Snapshot,
    new: Snapshot,
    next: usize,
    found: Vec<SnapshotEntry>,
    contents: Ghost<Seq<Seq<u8>>>,
}

impl DiffSession {
    /// The old tree.
    pub closed spec fn old_tree(&self) -> SnapshotView {
        self.old@
    }

    /// The new tree.
    pub closed spec fn new_tree(&self) -> SnapshotView {
        self.new@
    }

    /// How many entries of the new tree have been dealt with.
    pub closed spec fn done(&self) -> nat {
        self.next as nat
    }

    /// What the files among those entries hold; nothing stands for a directory.
    pub closed spec fn known(&self) -> Seq<Seq<u8>> {
        self.contents@
    }

    /// The changes for those entries.
    pub closed spec fn pending(&self) -> Seq<ChangeView> {
        crate::snapshot::change_views(self.found@)
    }

    /// The changes found are those for the entries dealt with, and the next entry,
    /// if there is one, is a file.
    pub open spec fn is_valid(&self) -> bool {
        &&& self.done() <= self.new_tree().len()
        &&& self.known().len() == self.done()
        &&& self.pending() == arrivals(
            self.old_tree(),
            self.new_tree(),
            self.known(),
            self.done(),
        )
        &&& self.done() < self.new_tree().len() ==> self.new_tree()[self.done() as int].1 is File
    }

    /// Starts to compare two trees.
    pub fn new(old: Snapshot, new: Snapshot) -> (r: DiffSession)
        ensures
            r.is_valid(),
            r.old_tree() == old@,
            r.new_tree() == new@,
            r.done() == next_file(new@, 0),
            r.known() == Seq::new(next_file(new@, 0), |i: int| Seq::<u8>::empty()),
    {
        let mut r = DiffSession {
            old,
            new,
            next: 0,
            found: Vec::new(),
            contents: Ghost(Seq::empty()),
        };
        proof {
            assert(r.pending() =~= Seq::<ChangeView>::empty());
        }
        r.pass_dirs();
        assert(r.known() =~= Seq::new(next_file(new@, 0), |i: int| Seq::<u8>::empty()));
        r
    }

    /// Deals with the entry that is next.
    fn advance(&mut self, data: Vec<u8>)
        requires
            old(self).done() < old(self).new_tree().len(),
            old(self).known().len() == old(self).done(),
            old(self).pending() == arrivals(
                old(self).old_tree(),
                old(self).new_tree(),
                old(self).known(),
                old(self).done(),
            ),
        ensures
            final(self).old_tree() == old(self).old_tree(),
            final(self).new_tree() == old(self).new_tree(),
            final(self).done() == old(self).done() + 1,
            final(self).known() == old(self).known().push(data@),
            final(self).pending() == arrivals(
                final(self).old_tree(),
                final(self).new_tree(),
                final(self).known(),
                final(self).done(),
            ),
    {
        let ghost before = *self;
        let ghost bytes = data@;
        let count = self.new.len();
        assert(self.next < count);
        let (key, entry) = self.new.item(self.next);
        let mut changes = diff_entry(self.old.get(key), key, entry, data);
        let ghost added = changes@;
        self.found.append(&mut changes);
        self.next = self.next + 1;
        self.contents = Ghost(self.contents@.push(bytes));
        proof {
            lemma_arrivals_known(
                before.old@,
                before.new@,
                before.contents@,
                self.contents@,
                before.next as nat,
            );
            assert(crate::snapshot::change_views(self.found@)
                =~= crate::snapshot::change_views(before.found@)
                + crate::snapshot::change_views(added));
        }
    }

    /// Deals with directories until a file is next.
    fn pass_dirs(&mut self)
        requires
            old(self).done() <= old(self).new_tree().len(),
            old(self).known().len() == old(self).done(),
            old(self).pending() == arrivals(
                old(self).old_tree(),
                old(self).new_tree(),
                old(self).known(),
                old(self).done(),
            ),
        ensures
            final(self).is_valid(),
            final(self).old_tree() == old(self).old_tree(),
            final(self).new_tree() == old(self).new_tree(),
            final(self).done() == next_file(old(self).new_tree(), old(self).done()),
            final(self).known() == old(self).known() + Seq::new(
                (final(self).done() - old(self).done()) as nat,
                |i: int| Seq::<u8>::empty(),
            ),
    {
        let ghost start = *self;
        assert(self.known() =~= start.known() + Seq::new(0nat, |i: int| Seq::<u8>::empty()));
        while self.next < self.new.len() && self.next_is_dir()
            invariant
                self.old_tree() == start.old_tree(),
                self.new_tree() == start.new_tree(),
                start.done() <= self.done() <= self.new_tree().len(),
                self.known().len() == self.done(),
                self.pending() == arrivals(
                    self.old_tree(),
                    self.new_tree(),
                    self.known(),
                    self.done(),
                ),
                next_file(self.new_tree(), self.done()) == next_file(
                    start.new_tree(),
                    start.done(),
                ),
                self.known() == start.known() + Seq::new(
                    (self.done() - start.done()) as nat,
                    |i: int| Seq::<u8>::empty(),
                ),
            decreases self.new_tree().len() - self.done(),
        {
            self.advance(Vec::new());
            assert(self.known() =~= start.known() + Seq::new(
                (self.done() - start.done()) as nat,
                |i: int| Seq::<u8>::empty(),
            ));
        }
    }

    fn next_is_dir(&self) -> (r: bool)
        requires
            self.done() < self.new_tree().len(),
        ensures
            r == (self.new_tree()[self.done() as int].1 is Dir),
    {
        match self.new.item(self.next).1 {
            PathEntry::Dir { .. } => true,
            PathEntry::File { .. } => false,
        }
    }

    /// The file whose contents are needed next; `None` once all are known.
    pub fn wanted(&self) -> (r: Option<&FilePath>)
        requires
            self.is_valid(),
        ensures
            match r {
                Some(path) => {
                    &&& self.done() < self.new_tree().len()
                    &&& self.new_tree()[self.done() as int].1.location() == path@
                },
                None => self.done() == self.new_tree().len(),
            },
    {
        if self.next < self.new.len() {
            match self.new.item(self.next).1 {
                PathEntry::Dir { path } => Some(path),
                PathEntry::File { path, .. } => Some(path),
            }
        } else {
            None
        }
    }

    /// Takes the contents of the file that is wanted.
    pub fn supply(&mut self, data: Vec<u8>)
        requires
            old(self).is_valid(),
            old(self).done() < old(self).new_tree().len(),
        ensures
            final(self).is_valid(),
            final(self).old_tree() == old(self).old_tree(),
            final(self).new_tree() == old(self).new_tree(),
            final(self).done() == next_file(old(self).new_tree(), old(self).done() + 1),
            final(self).known() == old(self).known().push(data@) + Seq::new(
                (final(self).done() - old(self).done() - 1) as nat,
                |i: int| Seq::<u8>::empty(),
            ),
    {
        self.advance(data);
        self.pass_dirs();
    }

    /// The changes, once the contents of all files are known.
    pub fn finish(self) -> (r: Vec<SnapshotEntry>)
        requires
            self.is_valid(),
            self.done() == self.new_tree().len(),
        ensures
            crate::snapshot::change_views(r@) == changes(
                self.old_tree(),
                self.new_tree(),
                self.known(),
            ),
    {
        let ghost start = crate::snapshot::change_views(self.found@);
        let DiffSession { old, new, next: _, found, contents: _ } = self;
        let mut found = found;
        let mut i: usize = 0;
        assert(crate::snapshot::change_views(found@) =~= start + departures(old@, new@, 0));
        while i < old.len()
            invariant
                i <= old@.len(),
                crate::snapshot::change_views(found@) == start + departures(old@, new@, i as nat),
            decreases old@.len() - i,
        {
            let key = old.item(i).0;
            let ghost before = found@;
            match new.get(key) {
                Some(_) => {},
                None => {
                    let change = SnapshotEntry::Delete { path: key.to_path() };
                    let ghost view = change@;
                    found.push(change);
                    assert(crate::snapshot::change_views(found@)
                        =~= crate::snapshot::change_views(before).push(view));
                },
            }
            i += 1;
            assert(crate::snapshot::change_views(found@) =~= start + departures(
                old@,
                new@,
                i as nat,
            ));
        }
        found
    }
}

/// The first place from `i` on at which a file stands.
pub open spec fn next_file(s: SnapshotView, i: nat) -> nat
    decreases s.len() - i,
{
    if i < s.len() && s[i as int].1 is Dir {
        next_file(s, i + 1)
    } else {
        i
    }
}

/// The changes for the first keys depend on the contents under those keys alone.
proof fn lemma_arrivals_known(
    old: SnapshotView,
    new: SnapshotView,
    a: Seq<Seq<u8>>,
    b: Seq<Seq<u8>>,
    n: nat,
)
    requires
        n <= a.len(),
        n <= b.len(),
        forall|i: int| 0 <= i < n ==> a[i] == b[i],
    ensures
        arrivals(old, new, a, n) == arrivals(old, new, b, n),
    decreases n,
{
    if n > 0 {
        lemma_arrivals_known(old, new, a, b, (n - 1) as nat);
    }
}

/// The changes for the first keys depend on the contents of files alone.
proof fn lemma_arrivals_files(
    old: SnapshotView,
    new: SnapshotView,
    a: Seq<Seq<u8>>,
    b: Seq<Seq<u8>>,
    n: nat,
)
    requires
        n <= new.len(),
        forall|i: int| 0 <= i < n && (#[trigger] new[i]).1 is File ==> a[i] == b[i],
    ensures
        arrivals(old, new, a, n) == arrivals(old, new, b, n),
    decreases n,
{
    if n > 0 {
        lemma_arrivals_files(old, new, a, b, (n - 1) as nat);
        assert(new[n - 1].1 is File || new[n - 1].1 is Dir);
    }
}

/// Up to the next file there are directories only.
pub proof fn lemma_next_file(s: SnapshotView, i: nat)
    requires
        i <= s.len(),
    ensures
        i <= next_file(s, i) <= s.len(),
        next_file(s, i) < s.len() ==> s[next_file(s, i) as int].1 is File,
        forall|j: int| i <= j < next_file(s, i) ==> (#[trigger] s[j]).1 is Dir,
    decreases s.len() - i,
{
    if i < s.len() && s[i as int].1 is Dir {
        lemma_next_file(s, i + 1);
    }
}

/// The changes that turn the old tree into the new one. `contents` gives, for each
/// entry of the new tree, what the file holds; for a directory it counts for nothing.
pub fn diff(old: Snapshot, new: Snapshot, contents: Vec<Vec<u8>>) -> (r: Vec<SnapshotEntry>)
    requires
        contents@.len() == new@.len(),
    ensures
        crate::snapshot::change_views(r@) == changes(
            old@,
            new@,
            crate::path::rows(contents@),
        ),
{
    let ghost all = crate::path::rows(contents@);
    let ghost source = contents@;
    let ghost tree = new@;
    let ghost old_tree = old@;
    let count = new.len();
    let mut left = crate::listing::reversed(contents);
    let mut session = DiffSession::new(old, new);
    let mut i: usize = 0;
    proof {
        lemma_next_file(tree, 0);
        assert(source.skip(0) =~= source);
    }
    while i < count
        invariant
            i <= count,
            count == tree.len(),
            source.len() == tree.len(),
            all == crate::path::rows(source),
            left@ == source.skip(i as int).reverse(),
            session.is_valid(),
            session.old_tree() == old_tree,
            session.new_tree() == tree,
            session.done() == next_file(tree, i as nat),
            forall|j: int|
                0 <= j < session.done() && (#[trigger] tree[j]).1 is File ==> session.known()[j]
                    == all[j],
        decreases count - i,
    {
        let ghost left_before = left@;
        match left.pop() {
            Some(data) => {
                proof {
                    assert(left_before.last() == source[i as int]);
                    assert(left@ =~= source.skip(i + 1).reverse());
                    lemma_next_file(tree, i as nat);
                    lemma_next_file(tree, (i + 1) as nat);
                }
                if session.next == i {
                    let ghost known = session.known();
                    session.supply(data);
                    assert forall|j: int|
                        0 <= j < session.done() && (
                        #[trigger] tree[j]).1 is File implies session.known()[j] == all[j] by {
                        if j < i {
                            assert(session.known()[j] == known[j]);
                        }
                    }
                }
            },
            None => {},
        }
        i += 1;
    }
    proof {
        lemma_next_file(tree, count as nat);
        lemma_arrivals_files(old_tree, tree, session.known(), all, tree.len());
    }
    session.finish()
}

/// Whether chunks of two files that have the same hash hold the same bytes.
pub open spec fn no_collisions(
    old_chunks: Seq<FileChunk>,
    old_data: Seq<u8>,
    new_chunks: Seq<FileChunk>,
    new_data: Seq<u8>,
) -> bool {
    forall|i: int, j: int|
        #![trigger old_chunks[i], new_chunks[j]]
        0 <= i < old_chunks.len() && 0 <= j < new_chunks.len() && old_chunks[i].hash
            == new_chunks[j].hash ==> crate::chunker::chunk_bytes(old_data, old_chunks[i])
            == crate::chunker::chunk_bytes(new_data, new_chunks[j])
}

/// Whether every chunk that is copied holds the bytes of the chunk it is copied for.
pub open spec fn copies_are_faithful(
    old_chunks: Seq<FileChunk>,
    old_data: Seq<u8>,
    new_chunks: Seq<FileChunk>,
    new_data: Seq<u8>,
) -> bool {
    forall|j: int|
        #![trigger new_chunks[j]]
        0 <= j < new_chunks.len() ==> match last_with_hash(old_chunks, new_chunks[j].hash) {
            Some(old) => crate::chunker::chunk_bytes(old_data, old)
                == crate::chunker::chunk_bytes(new_data, new_chunks[j]),
            None => true,
        }
}

/// Whether chunks that stand at the same place hold the same bytes.
pub open spec fn matches_are_faithful(
    old_chunks: Seq<FileChunk>,
    old_data: Seq<u8>,
    new_chunks: Seq<FileChunk>,
    new_data: Seq<u8>,
) -> bool {
    forall|i: int|
        #![trigger old_chunks[i], new_chunks[i]]
        0 <= i < new_chunks.len() ==> crate::chunker::chunk_bytes(old_data, old_chunks[i])
            == crate::chunker::chunk_bytes(new_data, new_chunks[i])
}

/// Without collisions hashes can be relied on.
pub proof fn lemma_no_collisions_is_faithful(
    old_chunks: Seq<FileChunk>,
    old_data: Seq<u8>,
    new_chunks: Seq<FileChunk>,
    new_data: Seq<u8>,
)
    requires
        no_collisions(old_chunks, old_data, new_chunks, new_data),
    ensures
        copies_are_faithful(old_chunks, old_data, new_chunks, new_data),
        same_hashes(old_chunks, new_chunks) ==> matches_are_faithful(
            old_chunks,
            old_data,
            new_chunks,
            new_data,
        ),
{
    assert forall|j: int| #![trigger new_chunks[j]] 0 <= j < new_chunks.len() implies match last_with_hash(
        old_chunks,
        new_chunks[j].hash,
    ) {
        Some(old) => crate::chunker::chunk_bytes(old_data, old) == crate::chunker::chunk_bytes(
            new_data,
            new_chunks[j],
        ),
        None => true,
    } by {
        lemma_found_with_hash(old_chunks, new_chunks[j].hash);
        if let Some(found) = last_with_hash(old_chunks, new_chunks[j].hash) {
            let i = choose|i: int| 0 <= i < old_chunks.len() && old_chunks[i] == found;
            assert(old_chunks[i].hash == new_chunks[j].hash);
        }
    }
}

/// The last chunk with a hash is one of the chunks, and has that hash.
proof fn lemma_found_with_hash(chunks: Seq<FileChunk>, hash: [u8; 32])
    ensures
        last_with_hash(chunks, hash) matches Some(c) ==> c.hash == hash && exists|i: int|
            0 <= i < chunks.len() && chunks[i] == c,
    decreases chunks.len(),
{
    if chunks.len() > 0 {
        lemma_found_with_hash(chunks.drop_last(), hash);
        if chunks.last().hash == hash {
            assert(chunks[chunks.len() - 1] == chunks.last());
        } else if let Some(c) = last_with_hash(chunks, hash) {
            let front = chunks.drop_last();
            let i = choose|i: int| 0 <= i < front.len() && front[i] == c;
            assert(chunks[i] == c);
        }
    }
}

/// Patching the old file with the instructions found for the new one gives the new
/// one, unless a chunk is taken for another that has the same hash.
pub proof fn lemma_patch_rebuilds(
    old_chunks: Seq<FileChunk>,
    old_data: Seq<u8>,
    new_chunks: Seq<FileChunk>,
    new_data: Seq<u8>,
)
    requires
        crate::chunker::is_chunking(old_chunks, old_data),
        crate::chunker::is_chunking(new_chunks, new_data),
        copies_are_faithful(old_chunks, old_data, new_chunks, new_data),
    ensures
        crate::snapshot::patched(old_data, instructs_for(old_chunks, new_chunks, new_data)) == Ok::<
            Seq<u8>,
            crate::error::ErrorView,
        >(new_data),
{
    let all = instructs_for(old_chunks, new_chunks, new_data);
    lemma_patch_prefix(old_chunks, old_data, new_chunks, new_data, new_chunks.len());
    assert(all.take(all.len() as int) =~= all);
    assert(new_data.take(new_data.len() as int) =~= new_data);
}

proof fn lemma_patch_prefix(
    old_chunks: Seq<FileChunk>,
    old_data: Seq<u8>,
    new_chunks: Seq<FileChunk>,
    new_data: Seq<u8>,
    n: nat,
)
    requires
        crate::chunker::is_chunking(old_chunks, old_data),
        crate::chunker::is_chunking(new_chunks, new_data),
        copies_are_faithful(old_chunks, old_data, new_chunks, new_data),
        n <= new_chunks.len(),
    ensures
        crate::snapshot::patched(
            old_data,
            instructs_for(old_chunks, new_chunks, new_data).take(n as int),
        ) == Ok::<Seq<u8>, crate::error::ErrorView>(
            new_data.take(crate::chunker::end_of(new_chunks, n as int)),
        ),
    decreases n,
{
    let all = instructs_for(old_chunks, new_chunks, new_data);
    if n == 0 {
        assert(all.take(0) =~= Seq::<InstructView>::empty());
        assert(new_data.take(0) =~= Seq::<u8>::empty());
    } else {
        lemma_patch_prefix(old_chunks, old_data, new_chunks, new_data, (n - 1) as nat);
        crate::chunker::lemma_chunk_in_range(new_chunks, new_data, n - 1);
        let chunk = new_chunks[n - 1];
        assert(all.take(n as int).drop_last() =~= all.take(n - 1));
        assert(all.take(n as int).last() == instruct_for(old_chunks, chunk, new_data));
        let start = crate::chunker::end_of(new_chunks, n - 1);
        let end = crate::chunker::end_of(new_chunks, n as int);
        assert(chunk.offset == start && end == start + chunk.length);
        assert(new_data.take(end) =~= new_data.take(start) + crate::chunker::chunk_bytes(
            new_data,
            chunk,
        ));
        lemma_found_with_hash(old_chunks, chunk.hash);
        match last_with_hash(old_chunks, chunk.hash) {
            Some(found) => {
                let i = choose|i: int| 0 <= i < old_chunks.len() && old_chunks[i] == found;
                crate::chunker::lemma_chunk_in_range(old_chunks, old_data, i);
            },
            None => {
                assert(clipped(new_data, chunk.offset, chunk.length)
                    =~= crate::chunker::chunk_bytes(new_data, chunk));
            },
        }
    }
}

/// Files with the same hashes in the same order hold the same bytes, unless two
/// that stand at the same place differ in spite of the hash.
pub proof fn lemma_same_hashes_same_bytes(
    old_chunks: Seq<FileChunk>,
    old_data: Seq<u8>,
    new_chunks: Seq<FileChunk>,
    new_data: Seq<u8>,
)
    requires
        crate::chunker::is_chunking(old_chunks, old_data),
        crate::chunker::is_chunking(new_chunks, new_data),
        matches_are_faithful(old_chunks, old_data, new_chunks, new_data),
        same_hashes(old_chunks, new_chunks),
    ensures
        old_data == new_data,
{
    lemma_same_prefix(old_chunks, old_data, new_chunks, new_data, new_chunks.len());
    assert(old_data.take(old_data.len() as int) =~= old_data);
    assert(new_data.take(new_data.len() as int) =~= new_data);
}

proof fn lemma_same_prefix(
    old_chunks: Seq<FileChunk>,
    old_data: Seq<u8>,
    new_chunks: Seq<FileChunk>,
    new_data: Seq<u8>,
    n: nat,
)
    requires
        crate::chunker::is_chunking(old_chunks, old_data),
        crate::chunker::is_chunking(new_chunks, new_data),
        matches_are_faithful(old_chunks, old_data, new_chunks, new_data),
        same_hashes(old_chunks, new_chunks),
        n <= new_chunks.len(),
    ensures
        crate::chunker::end_of(old_chunks, n as int) == crate::chunker::end_of(
            new_chunks,
            n as int,
        ),
        old_data.take(crate::chunker::end_of(old_chunks, n as int)) == new_data.take(
            crate::chunker::end_of(new_chunks, n as int),
        ),
    decreases n,
{
    if n == 0 {
        assert(old_data.take(0) =~= new_data.take(0));
    } else {
        lemma_same_prefix(old_chunks, old_data, new_chunks, new_data, (n - 1) as nat);
        crate::chunker::lemma_chunk_in_range(new_chunks, new_data, n - 1);
        crate::chunker::lemma_chunk_in_range(old_chunks, old_data, n - 1);
        let a = old_chunks[n - 1];
        let b = new_chunks[n - 1];
        assert(a.hash == b.hash);
        let x = crate::chunker::chunk_bytes(old_data, a);
        let y = crate::chunker::chunk_bytes(new_data, b);
        assert(x == y);
        assert(x.len() == a.length && y.len() == b.length);
        let start = crate::chunker::end_of(old_chunks, n - 1);
        let end = crate::chunker::end_of(old_chunks, n as int);
        assert(old_data.take(end) =~= old_data.take(start) + x);
        assert(new_data.take(end) =~= new_data.take(start) + y);
    }
}

/// Whether an entry of the new tree is in the old tree as it is: a file with the same
/// hashes, or a directory in a place where the old tree has no file.
pub open spec fn is_there(old: Option<PathEntryView>, entry: PathEntryView) -> bool {
    match (old, entry) {
        (
            Some(PathEntryView::File { chunks: old_chunks, .. }),
            PathEntryView::File { chunks, .. },
        ) => same_hashes(old_chunks, chunks),
        (_, PathEntryView::File { .. }) => false,
        (Some(PathEntryView::File { .. }), PathEntryView::Dir { .. }) => false,
        (_, PathEntryView::Dir { .. }) => true,
    }
}

/// There are no changes from an old tree to a new one if and only if the old tree has
/// what is in the new one, as it is there, and nothing else.
pub proof fn lemma_no_changes(old: SnapshotView, new: SnapshotView, contents: Seq<Seq<u8>>)
    ensures
        changes(old, new, contents).len() == 0 <==> {
            &&& forall|i: int|
                #![trigger new[i]]
                0 <= i < new.len() ==> is_there(
                    crate::listing::entry_for(old, new[i].0),
                    new[i].1,
                )
            &&& forall|i: int|
                #![trigger old[i]]
                0 <= i < old.len() ==> crate::listing::has_key(new, old[i].0)
        },
{
    lemma_no_arrivals(old, new, contents, new.len());
    lemma_no_departures(old, new, old.len());
}

proof fn lemma_no_arrivals(
    old: SnapshotView,
    new: SnapshotView,
    contents: Seq<Seq<u8>>,
    n: nat,
)
    requires
        n <= new.len(),
    ensures
        arrivals(old, new, contents, n).len() == 0 <==> forall|i: int|
            #![trigger new[i]]
            0 <= i < n ==> is_there(crate::listing::entry_for(old, new[i].0), new[i].1),
    decreases n,
{
    if n > 0 {
        let m = n - 1;
        lemma_no_arrivals(old, new, contents, m as nat);
        let old_entry = crate::listing::entry_for(old, new[m].0);
        assert(changes_for(old_entry, new[m].0, new[m].1, contents[m]).len() == 0 <==> is_there(
            old_entry,
            new[m].1,
        ));
    }
}

proof fn lemma_no_departures(old: SnapshotView, new: SnapshotView, n: nat)
    requires
        n <= old.len(),
    ensures
        departures(old, new, n).len() == 0 <==> forall|i: int|
            #![trigger old[i]]
            0 <= i < n ==> crate::listing::has_key(new, old[i].0),
    decreases n,
{
    if n > 0 {
        lemma_no_departures(old, new, (n - 1) as nat);
    }
}

/// A tree compared with itself shows no changes.
pub proof fn lemma_same_tree(tree: SnapshotView, contents: Seq<Seq<u8>>)
    requires
        crate::listing::distinct_keys(tree),
    ensures
        changes(tree, tree, contents) == Seq::<ChangeView>::empty(),
{
    assert forall|i: int| #![trigger tree[i]] 0 <= i < tree.len() implies {
        &&& is_there(crate::listing::entry_for(tree, tree[i].0), tree[i].1)
        &&& crate::listing::has_key(tree, tree[i].0)
    } by {
        crate::listing::lemma_entry_at(tree, i);
        assert(crate::listing::is_at(tree, tree[i].0, i));
    }
    lemma_no_changes(tree, tree, contents);
    assert(changes(tree, tree, contents) =~= Seq::<ChangeView>::empty());
}

/// The last chunk with a hash has it, and no later one has; there is none only if no
/// chunk has the hash.
proof fn lemma_which_has_hash(chunks: Seq<FileChunk>, hash: [u8; 32])
    ensures
        match last_with_hash(chunks, hash) {
            Some(c) => exists|j: int|
                #![trigger chunks[j]]
                0 <= j < chunks.len() && chunks[j] == c && c.hash == hash && forall|k: int|
                    #![trigger chunks[k]]
                    j < k < chunks.len() ==> chunks[k].hash != hash,
            None => forall|j: int|
                #![trigger chunks[j]]
                0 <= j < chunks.len() ==> chunks[j].hash != hash,
        },
    decreases chunks.len(),
{
    if chunks.len() > 0 {
        let front = chunks.drop_last();
        let n = chunks.len() - 1;
        lemma_which_has_hash(front, hash);
        if chunks[n].hash == hash {
            assert(chunks[n] == chunks.last());
        } else if let Some(c) = last_with_hash(front, hash) {
            let j = choose|j: int|
                #![trigger front[j]]
                0 <= j < front.len() && front[j] == c && c.hash == hash && forall|k: int|
                    #![trigger front[k]]
                    j < k < front.len() ==> front[k].hash != hash;
            assert(chunks[j] == c);
            assert forall|k: int| #![trigger chunks[k]] j < k < chunks.len() implies chunks[k].hash
                != hash by {
                if k < n {
                    assert(front[k] == chunks[k]);
                }
            }
        } else {
            assert forall|k: int| #![trigger chunks[k]] 0 <= k < chunks.len() implies chunks[k].hash
                != hash by {
                if k < n {
                    assert(front[k] == chunks[k]);
                }
            }
        }
    }
}

/// A delta has one instruction for each chunk of the new file. A chunk whose hash the old
/// file has, wherever it lies there, is copied from the last old chunk with that hash; no
/// other chunk is, and its bytes are carried.
pub proof fn lemma_delta_reuses(
    old_chunks: Seq<FileChunk>,
    new_chunks: Seq<FileChunk>,
    data: Seq<u8>,
)
    ensures
        instructs_for(old_chunks, new_chunks, data).len() == new_chunks.len(),
        forall|i: int, j: int|
            #![trigger new_chunks[i], old_chunks[j]]
            0 <= i < new_chunks.len() && 0 <= j < old_chunks.len() && old_chunks[j].hash
                == new_chunks[i].hash && (forall|k: int|
                #![trigger old_chunks[k]]
                j < k < old_chunks.len() ==> old_chunks[k].hash != new_chunks[i].hash)
                ==> instructs_for(old_chunks, new_chunks, data)[i] == (InstructView::Copy {
                offset: old_chunks[j].offset,
                length: old_chunks[j].length,
            }),
        forall|i: int, j: int|
            #![trigger new_chunks[i], old_chunks[j]]
            0 <= i < new_chunks.len() && 0 <= j < old_chunks.len() && old_chunks[j].hash
                == new_chunks[i].hash ==> instructs_for(old_chunks, new_chunks, data)[i] is Copy,
        forall|i: int|
            #![trigger new_chunks[i]]
            0 <= i < new_chunks.len() && (forall|j: int|
                #![trigger old_chunks[j]]
                0 <= j < old_chunks.len() ==> old_chunks[j].hash != new_chunks[i].hash) ==> {
                let n = data.len() as int;
                let start = new_chunks[i].offset as int;
                let end = new_chunks[i].offset + new_chunks[i].length;
                instructs_for(old_chunks, new_chunks, data)[i] == (InstructView::Literal {
                    data: data.subrange(
                        if start <= n {
                            start
                        } else {
                            n
                        },
                        if end <= n {
                            end
                        } else {
                            n
                        },
                    ),
                })
            },
{
    assert forall|i: int, j: int|
        #![trigger new_chunks[i], old_chunks[j]]
        0 <= i < new_chunks.len() && 0 <= j < old_chunks.len() && old_chunks[j].hash
            == new_chunks[i].hash implies {
        &&& instructs_for(old_chunks, new_chunks, data)[i] is Copy
        &&& (forall|k: int|
            #![trigger old_chunks[k]]
            j < k < old_chunks.len() ==> old_chunks[k].hash != new_chunks[i].hash)
            ==> instructs_for(old_chunks, new_chunks, data)[i] == (InstructView::Copy {
            offset: old_chunks[j].offset,
            length: old_chunks[j].length,
        })
    } by {
        let hash = new_chunks[i].hash;
        lemma_which_has_hash(old_chunks, hash);
        assert(last_with_hash(old_chunks, hash) is Some);
        if forall|k: int|
            #![trigger old_chunks[k]]
            j < k < old_chunks.len() ==> old_chunks[k].hash != hash {
            let c = last_with_hash(old_chunks, hash)->0;
            let m = choose|m: int|
                #![trigger old_chunks[m]]
                0 <= m < old_chunks.len() && old_chunks[m] == c && c.hash == hash && forall|
                    k: int,
                |
                    #![trigger old_chunks[k]]
                    m < k < old_chunks.len() ==> old_chunks[k].hash != hash;
            assert(old_chunks[m].hash == hash);
            assert(m == j);
        }
    }
    assert forall|i: int|
        #![trigger new_chunks[i]]
        0 <= i < new_chunks.len() && (forall|j: int|
            #![trigger old_chunks[j]]
            0 <= j < old_chunks.len() ==> old_chunks[j].hash
                != new_chunks[i].hash) implies last_with_hash(
        old_chunks,
        new_chunks[i].hash,
    ) is None by {
        lemma_which_has_hash(old_chunks, new_chunks[i].hash);
    }
}

/// The length of the first `n` new chunks whose hash the old file lacks, all together.
pub open spec fn lacking(
    old_chunks: Seq<FileChunk>,
    new_chunks: Seq<FileChunk>,
    n: nat,
) -> nat
    decreases n,
{
    if n == 0 {
        0
    } else {
        lacking(old_chunks, new_chunks, (n - 1) as nat) + if exists|j: int|
            #![trigger old_chunks[j]]
            0 <= j < old_chunks.len() && old_chunks[j].hash == new_chunks[n - 1].hash {
            0nat
        } else {
            new_chunks[n - 1].length as nat
        }
    }
}

/// A delta carries the bytes of just those chunks whose hash the old file lacks.
pub proof fn lemma_delta_carries(
    old_chunks: Seq<FileChunk>,
    new_chunks: Seq<FileChunk>,
    data: Seq<u8>,
    n: nat,
)
    requires
        crate::chunker::is_chunking(new_chunks, data),
        n <= new_chunks.len(),
    ensures
        crate::snapshot::carried_by(instructs_for(old_chunks, new_chunks, data), n) == lacking(
            old_chunks,
            new_chunks,
            n,
        ),
    decreases n,
{
    if n > 0 {
        let i = n - 1;
        lemma_delta_carries(old_chunks, new_chunks, data, i as nat);
        lemma_delta_reuses(old_chunks, new_chunks, data);
        crate::chunker::lemma_chunk_in_range(new_chunks, data, i);
        assert(new_chunks[i].length > 0);
    }
}

/// The changes for a key of the new tree: a new file is created with what it holds, a
/// file that differs is updated by a delta, one that does not is left alone, whatever
/// changes its kind is deleted first, and a directory asks for nothing more.
pub proof fn lemma_changes_for_key(
    key: Seq<char>,
    path: crate::path::PathView,
    chunks: Seq<FileChunk>,
    other: crate::path::PathView,
    old_chunks: Seq<FileChunk>,
    data: Seq<u8>,
)
    ensures
        ({
            let at = vstd::utf8::encode_utf8(key);
            let file = PathEntryView::File { path, chunks };
            let dir = PathEntryView::Dir { path };
            let old_file = Some(PathEntryView::File { path: other, chunks: old_chunks });
            let old_dir = Some(PathEntryView::Dir { path: other });
            let create = ChangeView::Create { path: at, bytes: data };
            let delete = ChangeView::Delete { path: at };
            let alike = old_chunks.len() == chunks.len() && forall|i: int|
                #![trigger old_chunks[i], chunks[i]]
                0 <= i < chunks.len() ==> old_chunks[i].hash == chunks[i].hash;
            &&& changes_for(None, key, file, data) == seq![create]
            &&& changes_for(old_dir, key, file, data) == seq![delete, create]
            &&& alike ==> changes_for(old_file, key, file, data).len() == 0
            &&& !alike ==> changes_for(old_file, key, file, data) == seq![
                ChangeView::Update {
                    path: at,
                    instructs: instructs_for(old_chunks, chunks, data),
                },
            ]
            &&& changes_for(old_file, key, dir, data) == seq![delete]
            &&& changes_for(old_dir, key, dir, data).len() == 0
            &&& changes_for(None, key, dir, data).len() == 0
        }),
{
}

/// The changes come in the order of the new tree, followed by one deletion for each key
/// of the old tree that the new one lacks, in the order of the old tree.
pub proof fn lemma_changes_in_order(
    old: SnapshotView,
    new: SnapshotView,
    contents: Seq<Seq<u8>>,
    n: nat,
    m: nat,
)
    ensures
        changes(old, new, contents) == arrivals(old, new, contents, new.len()) + departures(
            old,
            new,
            old.len(),
        ),
        arrivals(old, new, contents, 0).len() == 0,
        arrivals(old, new, contents, n + 1) == arrivals(old, new, contents, n) + changes_for(
            crate::listing::entry_for(old, new[n as int].0),
            new[n as int].0,
            new[n as int].1,
            contents[n as int],
        ),
        departures(old, new, 0).len() == 0,
        (exists|j: int| #![trigger new[j]] 0 <= j < new.len() && new[j].0 == old[m as int].0)
            ==> departures(old, new, m + 1) == departures(old, new, m),
        !(exists|j: int| #![trigger new[j]] 0 <= j < new.len() && new[j].0 == old[m as int].0)
            ==> departures(old, new, m + 1) == departures(old, new, m) + seq![
            ChangeView::Delete { path: vstd::utf8::encode_utf8(old[m as int].0) },
        ],
{
    let key = old[m as int].0;
    if exists|j: int| #![trigger new[j]] 0 <= j < new.len() && new[j].0 == key {
        let j = choose|j: int| #![trigger new[j]] 0 <= j < new.len() && new[j].0 == key;
        assert(crate::listing::is_at(new, key, j));
    } else {
        assert(departures(old, new, m + 1) =~= departures(old, new, m) + seq![
            ChangeView::Delete { path: vstd::utf8::encode_utf8(key) },
        ]);
    }
}

} // verus!
