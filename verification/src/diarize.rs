//! Who speaks when: the segments and embeddings that diarization yields.
//!
//! Embeddings are vectors of 32-bit floating-point numbers. Nothing here calculates with them,
//! so each number is held as its bit pattern.

use vstd::math::min;
use vstd::prelude::*;

use crate::order::Ranked;
use crate::selection::{ascending, lemma_position_added};
use crate::time::{sample_at, sample_of};

verus! {

/// A stretch of audio in which one voice speaks. Times are in nanoseconds from the start.
#[derive(Debug, Clone, Copy)]
pub struct DiarSegment {
    pub start_ns: i64,
    pub end_ns: i64,
    pub cluster_id: i32,
}

/// The voice print of a cluster, as the bit patterns of 32-bit floating-point numbers.
#[derive(Debug)]
pub struct ClusterEmbedding {
    pub cluster_id: i32,
    pub embedding: Vec<u32>,
}

/// What diarization yields.
#[derive(Debug)]
pub struct DiarizationResult {
    pub segments: Vec<DiarSegment>,
    pub embeddings: Vec<ClusterEmbedding>,
}

/// Segments sort by their start.
impl Ranked for DiarSegment {
    open spec fn before(&self, other: &Self) -> bool {
        self.start_ns < other.start_ns
    }

    fn precedes(&self, other: &Self) -> (r: bool) {
        self.start_ns < other.start_ns
    }

    proof fn order_laws(a: &Self, b: &Self, c: &Self) {
    }
}

/// Where the models run: on the GPU of this index, or on the CPU where it is negative.
pub open spec fn provider(device_index: i32) -> Seq<char> {
    if device_index >= 0 {
        "cuda"@
    } else {
        "cpu"@
    }
}

/// The name of the execution provider for a device index.
pub fn provider_name(device_index: i32) -> (r: String)
    ensures
        r@ == provider(device_index),
{
    if device_index >= 0 {
        "cuda".to_owned()
    } else {
        "cpu".to_owned()
    }
}

/// The least number of samples, a quarter of a second, from which an embedding is taken.
pub const MIN_EMBEDDING_SAMPLES: usize = 4000;

/// The samples from which the embedding of a segment is taken, where there are `len` samples in
/// all: none where fewer than a quarter of a second is left of it.
pub fn embedding_range(start: usize, end: usize, len: usize) -> (r: Option<(usize, usize)>)
    ensures
        r == ({
            let stop = if end < len {
                end
            } else {
                len
            };
            if stop - start < MIN_EMBEDDING_SAMPLES {
                None
            } else {
                Some((start, stop))
            }
        }),
{
    let stop: usize = if end < len {
        end
    } else {
        len
    };
    if stop <= start || stop - start < MIN_EMBEDDING_SAMPLES {
        None
    } else {
        Some((start, stop))
    }
}

/// Samples from which an embedding of a cluster is taken.
#[derive(Debug, Clone, Copy, PartialEq, Eq, Structural)]
pub struct EmbeddingRange {
    pub cluster_id: i32,
    pub start: usize,
    pub end: usize,
}

/// The samples of a segment from which an embedding is taken.
pub open spec fn range_of(s: DiarSegment, len: usize) -> Option<EmbeddingRange> {
    let start = sample_of(s.start_ns);
    let stop = if sample_of(s.end_ns) < len {
        sample_of(s.end_ns)
    } else {
        len
    };
    if stop - start < MIN_EMBEDDING_SAMPLES {
        None
    } else {
        Some(EmbeddingRange { cluster_id: s.cluster_id, start, end: stop })
    }
}

/// The samples from which embeddings are taken, in the order of the segments.
pub open spec fn ranges_of(segments: Seq<DiarSegment>, len: usize) -> Seq<EmbeddingRange>
    decreases segments.len(),
{
    if segments.len() == 0 {
        Seq::<EmbeddingRange>::empty()
    } else {
        let front = ranges_of(segments.drop_last(), len);
        match range_of(segments.last(), len) {
            Some(r) => front.push(r),
            None => front,
        }
    }
}

/// The samples, of `len` in all, from which the embeddings of clusters are taken.
pub fn embedding_ranges(segments: &Vec<DiarSegment>, len: usize) -> (r: Vec<EmbeddingRange>)
    ensures
        r@ == ranges_of(segments@, len),
{
    let mut r: Vec<EmbeddingRange> = Vec::new();
    let mut i: usize = 0;
    while i < segments.len()
        invariant
            i <= segments@.len(),
            r@ == ranges_of(segments@.take(i as int), len),
        decreases segments@.len() - i,
    {
        assert(segments@.take(i + 1).drop_last() =~= segments@.take(i as int));
        let s = segments[i];
        match embedding_range(sample_at(s.start_ns), sample_at(s.end_ns), len) {
            Some((start, end)) => {
                r.push(EmbeddingRange { cluster_id: s.cluster_id, start, end });
            },
            None => {},
        }
        i = i + 1;
    }
    assert(segments@.take(segments@.len() as int) =~= segments@);
    r
}

/// Every range from which an embedding is taken lies among the samples, and is a quarter of a
/// second long at least.
pub proof fn law_embedding_ranges_are_in_bounds(segments: Seq<DiarSegment>, len: usize)
    ensures
        forall|i: int|
            0 <= i < ranges_of(segments, len).len() ==> {
                let r = #[trigger] ranges_of(segments, len)[i];
                r.start + MIN_EMBEDDING_SAMPLES <= r.end <= len
            },
    decreases segments.len(),
{
    if segments.len() > 0 {
        law_embedding_ranges_are_in_bounds(segments.drop_last(), len);
        let front = ranges_of(segments.drop_last(), len);
        let all = ranges_of(segments, len);
        assert forall|i: int| 0 <= i < all.len() implies {
            let r = #[trigger] all[i];
            r.start + MIN_EMBEDDING_SAMPLES <= r.end <= len
        } by {
            if i < front.len() {
                assert(all[i] == front[i]);
            }
        }
    }
}

/// The four bytes of `x`, the least significant first.
pub open spec fn le_bytes(x: u32) -> Seq<u8> {
    seq![
        (x % 256) as u8,
        (x / 256 % 256) as u8,
        (x / 65536 % 256) as u8,
        (x / 16777216) as u8,
    ]
}

/// The number of which these are the four bytes, the least significant first.
pub open spec fn le_value(b0: u8, b1: u8, b2: u8, b3: u8) -> u32 {
    (b0 + b1 * 256 + b2 * 65536 + b3 * 16777216) as u32
}

/// The bytes of the numbers of `v`, in order.
pub open spec fn encoded(v: Seq<u32>) -> Seq<u8>
    decreases v.len(),
{
    if v.len() == 0 {
        Seq::<u8>::empty()
    } else {
        encoded(v.drop_last()) + le_bytes(v.last())
    }
}

/// The numbers that the bytes stand for, four bytes each; a rest of fewer than four bytes
/// stands for none.
pub open spec fn decoded(bytes: Seq<u8>) -> Seq<u32> {
    Seq::new(
        bytes.len() / 4,
        |i: int| le_value(bytes[4 * i], bytes[4 * i + 1], bytes[4 * i + 2], bytes[4 * i + 3]),
    )
}

/// The bytes under which an embedding is stored.
pub fn encode_embedding(v: &[u32]) -> (r: Vec<u8>)
    ensures
        r@ == encoded(v@),
{
    let mut out: Vec<u8> = Vec::new();
    let mut i: usize = 0;
    while i < v.len()
        invariant
            i <= v@.len(),
            out@ == encoded(v@.take(i as int)),
        decreases v@.len() - i,
    {
        let x: u32 = v[i];
        let ghost before = out@;
        out.push((x % 256) as u8);
        out.push((x / 256 % 256) as u8);
        out.push((x / 65536 % 256) as u8);
        out.push((x / 16777216) as u8);
        assert(v@.take(i + 1).drop_last() =~= v@.take(i as int));
        assert(out@ =~= before + le_bytes(x));
        i = i + 1;
    }
    assert(v@.take(v@.len() as int) =~= v@);
    out
}

/// The embedding that is stored under these bytes.
pub fn decode_embedding(bytes: &[u8]) -> (r: Vec<u32>)
    ensures
        r@ == decoded(bytes@),
{
    let mut out: Vec<u32> = Vec::new();
    let len: usize = bytes.len();
    let n: usize = len / 4;
    let mut i: usize = 0;
    while i < n
        invariant
            i <= n,
            len == bytes@.len(),
            n == len / 4,
            out@.len() == i,
            forall|k: int| 0 <= k < i ==> #[trigger] out@[k] == decoded(bytes@)[k],
        decreases n - i,
    {
        let at: usize = i * 4;
        let x: u32 = bytes[at] as u32 + bytes[at + 1] as u32 * 256 + bytes[at + 2] as u32 * 65536
            + bytes[at + 3] as u32 * 16777216;
        out.push(x);
        i = i + 1;
    }
    assert(out@ =~= decoded(bytes@));
    out
}

/// The bytes of one number give it back.
proof fn lemma_le_round_trip(x: u32)
    ensures
        le_value(le_bytes(x)[0], le_bytes(x)[1], le_bytes(x)[2], le_bytes(x)[3]) == x,
{
}

/// The number that four bytes stand for has these bytes.
proof fn lemma_le_round_trip_back(b0: u8, b1: u8, b2: u8, b3: u8)
    ensures
        le_bytes(le_value(b0, b1, b2, b3)) == seq![b0, b1, b2, b3],
{
    let x = le_value(b0, b1, b2, b3);
    assert(x == b0 + b1 * 256 + b2 * 65536 + b3 * 16777216);
    assert(x / 256 == b1 + b2 * 256 + b3 * 65536);
    assert(x / 65536 == b2 + b3 * 256);
    assert(le_bytes(x) =~= seq![b0, b1, b2, b3]);
}

/// `encoded` takes four bytes for each number, and the bytes of the number at `i` stand at
/// `4 * i`.
proof fn lemma_encoded_at(v: Seq<u32>, i: int, k: int)
    requires
        0 <= i < v.len(),
        0 <= k < 4,
    ensures
        encoded(v).len() == 4 * v.len(),
        encoded(v)[4 * i + k] == le_bytes(v[i])[k],
    decreases v.len(),
{
    let front = v.drop_last();
    if i == v.len() - 1 {
        lemma_encoded_len(front);
    } else {
        lemma_encoded_at(front, i, k);
    }
}

proof fn lemma_encoded_len(v: Seq<u32>)
    ensures
        encoded(v).len() == 4 * v.len(),
    decreases v.len(),
{
    if v.len() > 0 {
        lemma_encoded_len(v.drop_last());
    }
}

/// What is stored is read back: decoding the bytes of an embedding gives the embedding.
pub proof fn law_decoding_undoes_encoding(v: Seq<u32>)
    ensures
        decoded(encoded(v)) == v,
{
    lemma_encoded_len(v);
    assert forall|i: int| 0 <= i < v.len() implies decoded(encoded(v))[i] == v[i] by {
        lemma_encoded_at(v, i, 0);
        lemma_encoded_at(v, i, 1);
        lemma_encoded_at(v, i, 2);
        lemma_encoded_at(v, i, 3);
        lemma_le_round_trip(v[i]);
    }
    assert(decoded(encoded(v)) =~= v);
}

/// Encoding what was decoded gives the bytes back, but for a rest of fewer than four.
pub proof fn law_encoding_undoes_decoding(bytes: Seq<u8>)
    ensures
        encoded(decoded(bytes)) == bytes.take(bytes.len() as int / 4 * 4),
{
    let v = decoded(bytes);
    lemma_encoded_len(v);
    assert forall|j: int| 0 <= j < 4 * v.len() implies encoded(v)[j] == bytes[j] by {
        let i = j / 4;
        let k = j % 4;
        lemma_encoded_at(v, i, k);
        lemma_le_round_trip_back(
            bytes[4 * i],
            bytes[4 * i + 1],
            bytes[4 * i + 2],
            bytes[4 * i + 3],
        );
        let quad = seq![bytes[4 * i], bytes[4 * i + 1], bytes[4 * i + 2], bytes[4 * i + 3]];
        assert(quad[k] == bytes[4 * i + k]);
    }
    assert(encoded(v) =~= bytes.take(bytes.len() as int / 4 * 4));
}

proof fn lemma_ranges(segments: Seq<DiarSegment>, len: usize, n: int) -> (p: Seq<int>)
    requires
        0 <= n <= segments.len(),
    ensures
        ascending(p),
        forall|i: int| #[trigger]
            p.contains(i) <==> 0 <= i < n && heard_samples(segments[i], len) >= 4000,
        ranges_of(segments.take(n), len).len() == p.len(),
        forall|k: int|
            0 <= k < p.len() ==> {
                let r = #[trigger] ranges_of(segments.take(n), len)[k];
                let s = segments[p[k]];
                &&& r.cluster_id == s.cluster_id
                &&& r.start == sample_of(s.start_ns)
                &&& r.end - r.start == heard_samples(s, len)
            },
    decreases n,
{
    if n == 0 {
        Seq::<int>::empty()
    } else {
        let q = lemma_ranges(segments, len, n - 1);
        assert(segments.take(n).drop_last() =~= segments.take(n - 1));
        if heard_samples(segments[n - 1], len) >= 4000 {
            lemma_position_added(q, n - 1);
            q.push(n - 1)
        } else {
            q
        }
    }
}

/// How many of `len` samples fall into a segment; negative where it starts behind them all.
pub open spec fn heard_samples(s: DiarSegment, len: usize) -> int {
    min(sample_of(s.end_ns) as int, len as int) - sample_of(s.start_ns)
}

/// An embedding is taken from each segment of which at least 4000 samples, a quarter of a second,
/// are there, and from no other: from all of its samples that are there, for its own cluster, in
/// the order of the segments. The result gives the positions of these segments.
pub proof fn law_embeddings_are_taken_from_every_long_segment(
    segments: Seq<DiarSegment>,
    len: usize,
) -> (p: Seq<int>)
    ensures
        ascending(p),
        forall|i: int| #[trigger]
            p.contains(i) <==> 0 <= i < segments.len() && heard_samples(segments[i], len) >= 4000,
        ranges_of(segments, len).len() == p.len(),
        forall|k: int|
            0 <= k < p.len() ==> {
                let r = #[trigger] ranges_of(segments, len)[k];
                let s = segments[p[k]];
                &&& r.cluster_id == s.cluster_id
                &&& r.start == sample_of(s.start_ns)
                &&& r.end - r.start == heard_samples(s, len)
            },
{
    assert(segments.take(segments.len() as int) =~= segments);
    lemma_ranges(segments, len, segments.len() as int)
}

/// Numbers are stored in four bytes each, in order and the least significant byte first.
pub proof fn law_numbers_are_stored_little_endian(v: Seq<u32>, i: int)
    requires
        0 <= i < v.len(),
    ensures
        encoded(v).len() == 4 * v.len(),
        v[i] == encoded(v)[4 * i] + 0x100 * encoded(v)[4 * i + 1] + 0x1_0000 * encoded(v)[4 * i + 2]
            + 0x100_0000 * encoded(v)[4 * i + 3],
{
    lemma_encoded_at(v, i, 0);
    lemma_encoded_at(v, i, 1);
    lemma_encoded_at(v, i, 2);
    lemma_encoded_at(v, i, 3);
    lemma_le_round_trip(v[i]);
}

} // verus!
