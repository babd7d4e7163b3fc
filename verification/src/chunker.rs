//! Cutting file contents into content-defined chunks.

use fastcdc::v2020;
use vstd::prelude::*;

verus! {

/// The shortest chunk that is cut, unless it is the last one.
pub const MIN_SIZE: usize = 16384;

/// The length that chunks have on average.
pub const AVG_SIZE: usize = 32768;

/// The longest chunk that is cut.
pub const MAX_SIZE: usize = 131072;

/// A chunk of a file: where it lies and the hash of what it holds.
#[derive(Debug, Clone, Copy)]
pub struct FileChunk {
    pub hash: [u8; 32],
    pub offset: u64,
    pub length: u64,
}

/// The cut points that FastCDC finds in `data` for the given chunk sizes: the
/// offset and the length of each chunk.
pub uninterp spec fn cut_points(data: Seq<u8>, min: usize, avg: usize, max: usize) -> Seq<
    (usize, usize),
>;

/// The BLAKE3 hash of `data`.
pub uninterp spec fn blake3_hash(data: Seq<u8>) -> [u8; 32];

/// Whether the cuts partition `len` bytes into chunks of `1` to `max` bytes, all
/// but the last of which have at least `min`.
pub open spec fn is_partition(cuts: Seq<(usize, usize)>, len: nat, min: int, max: int) -> bool {
    &&& cuts.len() == 0 <==> len == 0
    &&& cuts.len() > 0 ==> cuts[0].0 == 0 && cuts.last().0 + cuts.last().1 == len
    &&& forall|i: int, j: int|
        #![trigger cuts[i], cuts[j]]
        0 <= i < cuts.len() && j == i + 1 && j < cuts.len() ==> cuts[j].0 == cuts[i].0 + cuts[i].1
    &&& forall|i: int|
        #![trigger cuts[i]]
        0 <= i < cuts.len() ==> 0 < cuts[i].1 <= max && (i < cuts.len() - 1 ==> min <= cuts[i].1)
}

/// Calls `fastcdc::v2020::FastCDC::new` and runs through the iterator that it
/// returns. Claimed of it: where the chunks lie depends on the bytes and on the
/// three sizes alone; the chunks follow each other from the first byte to the
/// last, none is empty or longer than `max`, and only the last can be shorter
/// than `min`.
#[verifier::external_body]
fn fastcdc_cuts(data: &[u8], min: usize, avg: usize, max: usize) -> (r: Vec<(usize, usize)>)
    requires
        64 <= min <= 1_048_576,
        256 <= avg <= 4_194_304,
        1024 <= max <= 16_777_216,
        min <= avg <= max,
        min % 2 == 0,
        avg % 2 == 0,
        max % 2 == 0,
    ensures
        r@ == cut_points(data@, min, avg, max),
        is_partition(r@, data@.len(), min as int, max as int),
{
    v2020::FastCDC::new(data, min, avg, max).map(|c| (c.offset, c.length)).collect()
}

/// Calls `blake3::hash`. Claimed of it: the hash depends on the bytes alone.
#[verifier::external_body]
fn blake3_digest(data: &[u8]) -> (r: [u8; 32])
    ensures
        r == blake3_hash(data@),
{
    *blake3::hash(data).as_bytes()
}

/// The chunk of `data` that `cut` marks.
pub open spec fn chunk_at(data: Seq<u8>, cut: (usize, usize)) -> FileChunk {
    FileChunk {
        hash: blake3_hash(data.subrange(cut.0 as int, cut.0 + cut.1)),
        offset: cut.0 as u64,
        length: cut.1 as u64,
    }
}

/// The chunks of `data` that the cuts mark.
pub open spec fn chunks_of(data: Seq<u8>, cuts: Seq<(usize, usize)>) -> Seq<FileChunk> {
    Seq::new(cuts.len(), |i: int| chunk_at(data, cuts[i]))
}

/// The chunks of a file with the contents `data`.
pub open spec fn chunks(data: Seq<u8>) -> Seq<FileChunk> {
    chunks_of(data, cut_points(data, MIN_SIZE, AVG_SIZE, MAX_SIZE))
}

/// Where the first `n` chunks end.
pub open spec fn end_of(chunks: Seq<FileChunk>, n: int) -> int {
    if n == 0 {
        0
    } else {
        chunks[n - 1].offset + chunks[n - 1].length
    }
}

/// The bytes that a chunk marks in `data`.
pub open spec fn chunk_bytes(data: Seq<u8>, chunk: FileChunk) -> Seq<u8> {
    data.subrange(chunk.offset as int, chunk.offset + chunk.length)
}

/// Whether the chunks follow each other from the first byte of `data` to the
/// last, have the lengths that are allowed, and carry the hashes of what they mark.
pub open spec fn is_chunking(chunks: Seq<FileChunk>, data: Seq<u8>) -> bool {
    &&& chunks.len() == 0 <==> data.len() == 0
    &&& chunks.len() > 0 ==> {
        &&& chunks[0].offset == 0
        &&& chunks.last().offset + chunks.last().length == data.len()
    }
    &&& forall|i: int, j: int|
        #![trigger chunks[i], chunks[j]]
        0 <= i < chunks.len() && j == i + 1 && j < chunks.len() ==> chunks[j].offset
            == chunks[i].offset + chunks[i].length
    &&& forall|i: int|
        #![trigger chunks[i]]
        0 <= i < chunks.len() ==> {
            &&& 0 < chunks[i].length <= MAX_SIZE
            &&& i < chunks.len() - 1 ==> MIN_SIZE <= chunks[i].length
            &&& chunks[i].hash == blake3_hash(chunk_bytes(data, chunks[i]))
        }
}

impl FileChunk {
    /// The chunk together with the hash under which it is looked up.
    pub fn to_hashmap_kv(&self) -> (r: ([u8; 32], Self))
        ensures
            r == (self.hash, *self),
    {
        (self.hash, *self)
    }
}

/// The chunks that the given cuts mark in `data`.
pub fn chunks_at(data: &[u8], cuts: &Vec<(usize, usize)>) -> (r: Vec<FileChunk>)
    requires
        forall|i: int|
            0 <= i < cuts@.len() ==> (#[trigger] cuts@[i]).0 + cuts@[i].1 <= data@.len(),
    ensures
        r@ == chunks_of(data@, cuts@),
        r@.len() == cuts@.len(),
        forall|i: int|
            #![trigger r@[i]]
            0 <= i < r@.len() ==> {
                &&& r@[i].offset == cuts@[i].0
                &&& r@[i].length == cuts@[i].1
                &&& r@[i].hash == blake3_hash(
                    data@.subrange(cuts@[i].0 as int, cuts@[i].0 + cuts@[i].1),
                )
            },
{
    let mut r: Vec<FileChunk> = Vec::new();
    let mut i: usize = 0;
    assert(data.len() <= usize::MAX);
    while i < cuts.len()
        invariant
            i <= cuts.len(),
            data@.len() <= usize::MAX,
            forall|j: int|
                0 <= j < cuts@.len() ==> (#[trigger] cuts@[j]).0 + cuts@[j].1 <= data@.len(),
            r@.len() == i,
            forall|j: int| 0 <= j < i ==> r@[j] == chunk_at(data@, cuts@[j]),
        decreases cuts.len() - i,
    {
        let (offset, length) = cuts[i];
        assert(cuts@[i as int].0 + cuts@[i as int].1 <= data@.len());
        let hash = blake3_digest(vstd::slice::slice_subrange(data, offset, offset + length));
        r.push(FileChunk { hash, offset: offset as u64, length: length as u64 });
        i += 1;
    }
    assert(r@ =~= chunks_of(data@, cuts@));
    r
}

/// No cut of a partition reaches behind the last byte.
proof fn lemma_cuts_in_range(cuts: Seq<(usize, usize)>, len: nat, min: int, max: int, i: int)
    requires
        is_partition(cuts, len, min, max),
        0 <= i < cuts.len(),
    ensures
        cuts[i].0 + cuts[i].1 <= len,
    decreases cuts.len() - i,
{
    if i < cuts.len() - 1 {
        lemma_cuts_in_range(cuts, len, min, max, i + 1);
        assert(cuts[i + 1].0 == cuts[i].0 + cuts[i].1);
    }
}

/// Cuts `data` into chunks.
pub fn chunk(data: &[u8]) -> (r: Vec<FileChunk>)
    ensures
        r@ == chunks(data@),
        is_chunking(r@, data@),
        r@.len() == cut_points(data@, 16384, 32768, 131072).len(),
        forall|i: int|
            #![trigger r@[i]]
            0 <= i < r@.len() ==> {
                let cut = cut_points(data@, 16384, 32768, 131072)[i];
                &&& r@[i].offset == cut.0
                &&& r@[i].length == cut.1
                &&& r@[i].hash == blake3_hash(data@.subrange(cut.0 as int, cut.0 + cut.1))
            },
{
    let cuts = fastcdc_cuts(data, MIN_SIZE, AVG_SIZE, MAX_SIZE);
    proof {
        assert forall|i: int| 0 <= i < cuts@.len() implies (#[trigger] cuts@[i]).0 + cuts@[i].1
            <= data@.len() by {
            lemma_cuts_in_range(cuts@, data@.len(), MIN_SIZE as int, MAX_SIZE as int, i);
        }
    }
    let r = chunks_at(data, &cuts);
    proof {
        assert forall|i: int| #![trigger r@[i]] 0 <= i < r@.len() implies {
            &&& 0 < r@[i].length <= MAX_SIZE
            &&& i < r@.len() - 1 ==> MIN_SIZE <= r@[i].length
            &&& r@[i].hash == blake3_hash(chunk_bytes(data@, r@[i]))
        } by {
            assert(r@[i] == chunk_at(data@, cuts@[i]));
        }
        assert forall|i: int, j: int|
            #![trigger r@[i], r@[j]]
            0 <= i < r@.len() && j == i + 1 && j < r@.len() implies r@[j].offset == r@[i].offset
            + r@[i].length by {
            assert(r@[i] == chunk_at(data@, cuts@[i]));
            assert(r@[j] == chunk_at(data@, cuts@[j]));
        }
    }
    r
}

/// A chunk lies within the data, and starts where the ones in front of it end.
pub proof fn lemma_chunk_in_range(chunks: Seq<FileChunk>, data: Seq<u8>, i: int)
    requires
        is_chunking(chunks, data),
        0 <= i < chunks.len(),
    ensures
        chunks[i].offset == end_of(chunks, i),
        chunks[i].offset + chunks[i].length <= data.len(),
    decreases chunks.len() - i,
{
    if i < chunks.len() - 1 {
        lemma_chunk_in_range(chunks, data, i + 1);
        assert(chunks[i + 1].offset == chunks[i].offset + chunks[i].length);
    }
    if i > 0 {
        assert(chunks[i].offset == chunks[i - 1].offset + chunks[i - 1].length);
    }
}

/// The chunks of a file of any length lie where FastCDC cuts it, one for each cut, and
/// each carries the BLAKE3 hash of its bytes.
pub proof fn lemma_chunks_follow_cuts(data: Seq<u8>)
    ensures
        chunks(data).len() == cut_points(data, 16384, 32768, 131072).len(),
        forall|i: int|
            #![trigger chunks(data)[i]]
            0 <= i < chunks(data).len() ==> {
                let cut = cut_points(data, 16384, 32768, 131072)[i];
                &&& chunks(data)[i].offset == cut.0
                &&& chunks(data)[i].length == cut.1
                &&& chunks(data)[i].hash == blake3_hash(
                    data.subrange(cut.0 as int, cut.0 + cut.1),
                )
            },
{
}

/// Chunks of any two files that hold the same bytes have the same hash, wherever they lie.
pub proof fn lemma_same_bytes_same_hash(
    a: Seq<FileChunk>,
    a_data: Seq<u8>,
    i: int,
    b: Seq<FileChunk>,
    b_data: Seq<u8>,
    j: int,
)
    requires
        is_chunking(a, a_data),
        is_chunking(b, b_data),
        0 <= i < a.len(),
        0 <= j < b.len(),
        a_data.subrange(a[i].offset as int, a[i].offset + a[i].length) == b_data.subrange(
            b[j].offset as int,
            b[j].offset + b[j].length,
        ),
    ensures
        a[i].hash == b[j].hash,
{
}

} // verus!
