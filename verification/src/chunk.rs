//! Content-defined chunking: splitting a byte stream into stable segments,
//! each carrying its offset, length, and content hash.

use vstd::prelude::*;

use crate::crypto::blake3_of;
use crate::hexfmt::hex_bytes_of;
use crate::strutil::bytes_of_str;

verus! {

/// Smallest chunk the splitter cuts (except for a short final chunk).
pub const MIN_CHUNK: usize = 512 * 1024;

/// Target average chunk size.
pub const AVG_CHUNK: usize = 1024 * 1024;

/// Largest chunk the splitter cuts.
pub const MAX_CHUNK: usize = 8 * 1024 * 1024;

/// Sum of a sequence of lengths.
pub open spec fn seq_sum(s: Seq<usize>) -> int
    decreases s.len(),
{
    if s.len() == 0 {
        0
    } else {
        s[0] + seq_sum(s.skip(1))
    }
}

/// The chunk lengths that content-defined splitting yields for a byte
/// sequence, a function of the bytes alone.
pub uninterp spec fn cdc_lens(data: Seq<u8>) -> Seq<usize>;

/// Relies on `fastcdc::v2020::FastCDC` with the fixed parameters above:
/// deterministic cut points whose lengths partition the input exactly; every
/// length is between one byte and the maximum, and only the last chunk may
/// fall below the minimum.
#[verifier::external_body]
fn cdc_segment_lengths(data: &[u8]) -> (r: Vec<usize>)
    ensures
        r@ == cdc_lens(data@),
        seq_sum(r@) == data@.len(),
        (r@.len() == 0) <==> (data@.len() == 0),
        forall|i: int| 0 <= i < r@.len() ==> 1 <= (#[trigger] r@[i]) <= MAX_CHUNK,
        forall|i: int| 0 <= i < r@.len() - 1 ==> (#[trigger] r@[i]) >= MIN_CHUNK,
{
    fastcdc::v2020::FastCDC::new(data, MIN_CHUNK, AVG_CHUNK, MAX_CHUNK)
        .map(|c| c.length)
        .collect()
}

/// A pointer from a logical file to a chunk.
#[derive(Debug, Clone, PartialEq, Eq)]
pub struct ChunkRef {
    pub hash: [u8; 32],
    pub length: u64,
    pub offset: u64,
}

impl ChunkRef {
    /// The chunk hash in lowercase hex.
    pub fn hash_hex(&self) -> (r: String)
        ensures
            bytes_of_str(r@) == hex_bytes_of(self.hash@),
    {
        crate::hexfmt::hex_string(self.hash.as_slice())
    }
}

/// A contiguous byte run produced by content-defined chunking.
#[derive(Debug, Clone)]
pub struct Chunk {
    pub hash: [u8; 32],
    pub offset: u64,
    pub length: u64,
    pub data: Vec<u8>,
}

impl Chunk {
    /// The chunk hash in lowercase hex.
    pub fn hash_hex(&self) -> (r: String)
        ensures
            bytes_of_str(r@) == hex_bytes_of(self.hash@),
    {
        crate::hexfmt::hex_string(self.hash.as_slice())
    }

    /// The reference carrying this chunk's hash, length and offset.
    pub fn to_ref(&self) -> (r: ChunkRef)
        ensures
            r.hash@ == self.hash@,
            r.length == self.length,
            r.offset == self.offset,
    {
        ChunkRef { hash: self.hash, length: self.length, offset: self.offset }
    }
}

/// One produced chunk stands for the segment of `data` at `off` of length
/// `l`: matching offset, length, bytes, and content hash.
pub open spec fn chunk_at(c: Chunk, data: Seq<u8>, off: int, l: int) -> bool {
    &&& c.offset == off
    &&& c.length == l
    &&& c.data@ == data.subrange(off, off + l)
    &&& c.hash@ == blake3_of(data.subrange(off, off + l))
}

/// The produced chunk sequence is exactly the content-defined chunking of
/// `data`: one chunk per cut segment, in order, at the prefix-sum offsets.
pub open spec fn is_chunking_of(chunks: Seq<Chunk>, data: Seq<u8>) -> bool {
    let lens = cdc_lens(data);
    &&& chunks.len() == lens.len()
    &&& forall|i: int|
        0 <= i < chunks.len() ==> chunk_at(
            #[trigger] chunks[i],
            data,
            seq_sum(lens.take(i)),
            lens[i] as int,
        )
}

/// The concatenation of the data of `chunks[k..]`.
pub open spec fn concat_from(chunks: Seq<Chunk>, k: int) -> Seq<u8>
    decreases chunks.len() - k,
{
    if k < 0 || k >= chunks.len() {
        Seq::empty()
    } else {
        chunks[k].data@ + concat_from(chunks, k + 1)
    }
}

/// The concatenation of all chunk data.
pub open spec fn concat_chunks(chunks: Seq<Chunk>) -> Seq<u8> {
    concat_from(chunks, 0)
}

pub proof fn lemma_sum_snoc(s: Seq<usize>, x: usize)
    ensures
        seq_sum(s.push(x)) == seq_sum(s) + x,
    decreases s.len(),
{
    assert(s.push(x).len() == s.len() + 1);
    assert(seq_sum(s.push(x)) == s.push(x)[0] + seq_sum(s.push(x).skip(1)));
    if s.len() == 0 {
        assert(s.push(x)[0] == x);
        assert(s.push(x).skip(1).len() == 0);
        assert(seq_sum(s.push(x).skip(1)) == 0);
    } else {
        assert(s.push(x).skip(1) =~= s.skip(1).push(x));
        lemma_sum_snoc(s.skip(1), x);
        assert(s.push(x)[0] == s[0]);
        assert(seq_sum(s) == s[0] + seq_sum(s.skip(1)));
    }
}

pub proof fn lemma_sum_split(s: Seq<usize>, k: int)
    requires
        0 <= k <= s.len(),
    ensures
        seq_sum(s) == seq_sum(s.take(k)) + seq_sum(s.skip(k)),
    decreases k,
{
    if k == 0 {
        assert(s.take(0).len() == 0);
        assert(s.skip(0) =~= s);
    } else {
        lemma_sum_split(s, k - 1);
        assert(s.take(k) =~= s.take(k - 1).push(s[k - 1]));
        lemma_sum_snoc(s.take(k - 1), s[k - 1]);
        assert(s.skip(k - 1)[0] == s[k - 1]);
        assert(s.skip(k - 1).len() > 0);
        assert(s.skip(k - 1).skip(1) =~= s.skip(k));
        assert(seq_sum(s.skip(k - 1)) == s[k - 1] + seq_sum(s.skip(k)));
    }
}

pub proof fn lemma_sum_nonneg(s: Seq<usize>)
    ensures
        seq_sum(s) >= 0,
    decreases s.len(),
{
    if s.len() > 0 {
        lemma_sum_nonneg(s.skip(1));
    }
}

/// Putting the segments of a chunking back together restores the input
/// from the `k`-th cut point on.
proof fn lemma_concat_from(chunks: Seq<Chunk>, data: Seq<u8>, k: int)
    requires
        is_chunking_of(chunks, data),
        seq_sum(cdc_lens(data)) == data.len(),
        0 <= k <= chunks.len(),
    ensures
        0 <= seq_sum(cdc_lens(data).take(k)) <= data.len(),
        concat_from(chunks, k) == data.skip(seq_sum(cdc_lens(data).take(k))),
    decreases chunks.len() - k,
{
    let lens = cdc_lens(data);
    lemma_sum_nonneg(lens.take(k));
    lemma_sum_split(lens, k);
    lemma_sum_nonneg(lens.skip(k));
    let off = seq_sum(lens.take(k));
    if k == chunks.len() {
        assert(lens.take(k) =~= lens);
        assert(data.skip(off) =~= Seq::<u8>::empty());
    } else {
        lemma_concat_from(chunks, data, k + 1);
        assert(lens.take(k + 1) =~= lens.take(k).push(lens[k]));
        lemma_sum_snoc(lens.take(k), lens[k]);
        let off2 = seq_sum(lens.take(k + 1));
        assert(off2 == off + lens[k]);
        assert(chunk_at(chunks[k], data, off, lens[k] as int));
        assert(0 <= off <= off2 <= data.len());
        crate::jsonfmt::lemma_skip_split(data, off, off2);
        assert(chunks[k].data@ == data.subrange(off, off2));
        assert(concat_from(chunks, k) == data.subrange(off, off2) + data.skip(off2));
    }
}

/// Two chunkings of the same bytes agree on every offset, length, hash and
/// data triple: chunking is deterministic.
pub proof fn lemma_chunking_deterministic(a: Seq<Chunk>, b: Seq<Chunk>, data: Seq<u8>)
    requires
        is_chunking_of(a, data),
        is_chunking_of(b, data),
    ensures
        a.len() == b.len(),
        forall|i: int|
            0 <= i < a.len() ==> a[i].offset == b[i].offset && a[i].length == b[i].length
                && a[i].hash@ == b[i].hash@ && a[i].data@ == b[i].data@,
{
    assert forall|i: int|
        0 <= i < a.len() implies a[i].offset == b[i].offset && a[i].length == b[i].length
        && a[i].hash@ == b[i].hash@ && a[i].data@ == b[i].data@ by {
        let lens = cdc_lens(data);
        assert(chunk_at(a[i], data, seq_sum(lens.take(i)), lens[i] as int));
        assert(chunk_at(b[i], data, seq_sum(lens.take(i)), lens[i] as int));
    }
}

/// The content-defined chunker.
pub struct Chunker;

impl Chunker {
    /// Splits `data` into content-defined chunks covering it exactly once:
    /// concatenating the chunk data in order restores `data`, and inputs at
    /// or below the minimum chunk size come back as a single chunk.
    #[verifier::loop_isolation(false)]
    pub fn chunk(data: &[u8]) -> (r: Vec<Chunk>)
        ensures
            is_chunking_of(r@, data@),
            concat_chunks(r@) == data@,
            seq_sum(cdc_lens(data@)) == data@.len(),
            forall|i: int|
                0 <= i < cdc_lens(data@).len() ==> 1 <= (#[trigger] cdc_lens(data@)[i])
                    <= MAX_CHUNK,
            forall|i: int|
                0 <= i < cdc_lens(data@).len() - 1 ==> (#[trigger] cdc_lens(data@)[i])
                    >= MIN_CHUNK,
            r@.len() == 0 <==> data@.len() == 0,
            0 < data@.len() <= MIN_CHUNK ==> r@.len() == 1,
    {
        let lens = cdc_segment_lengths(data);
        let total = data.len();
        let mut out: Vec<Chunk> = Vec::new();
        let mut off: usize = 0;
        let mut i: usize = 0;
        proof {
            assert(cdc_lens(data@).take(0).len() == 0);
            lemma_sum_split(lens@, 0);
        }
        while i < lens.len()
            invariant
                i <= lens@.len(),
                out@.len() == i,
                off == seq_sum(cdc_lens(data@).take(i as int)),
                total == data@.len(),
                off + seq_sum(lens@.skip(i as int)) == data@.len(),
                forall|j: int|
                    0 <= j < i ==> chunk_at(
                        #[trigger] out@[j],
                        data@,
                        seq_sum(cdc_lens(data@).take(j)),
                        cdc_lens(data@)[j] as int,
                    ),
            decreases lens@.len() - i,
        {
            let l = lens[i];
            proof {
                assert(lens@.skip(i as int)[0] == lens@[i as int]);
                assert(lens@.skip(i as int).len() > 0);
                assert(lens@.skip(i as int).skip(1) =~= lens@.skip(i + 1));
                lemma_sum_nonneg(lens@.skip(i + 1));
                assert(seq_sum(lens@.skip(i as int)) == lens@[i as int] + seq_sum(
                    lens@.skip(i + 1),
                ));
                assert(off + l <= total);
            }
            let seg = vstd::slice::slice_subrange(data, off, off + l);
            let h = crate::crypto::hash_blake3(seg);
            let seg_vec = vstd::slice::slice_to_vec(seg);
            out.push(Chunk { hash: h, offset: off as u64, length: l as u64, data: seg_vec });
            proof {
                assert(cdc_lens(data@).take(i + 1) =~= cdc_lens(data@).take(i as int).push(
                    lens@[i as int],
                ));
                lemma_sum_snoc(cdc_lens(data@).take(i as int), lens@[i as int]);
                assert(chunk_at(
                    out@[i as int],
                    data@,
                    seq_sum(cdc_lens(data@).take(i as int)),
                    cdc_lens(data@)[i as int] as int,
                ));
            }
            off = off + l;
            i += 1;
        }
        proof {
            assert(is_chunking_of(out@, data@));
            lemma_concat_from(out@, data@, 0);
            assert(cdc_lens(data@).take(0).len() == 0);
            assert(data@.skip(0) =~= data@);
            if 0 < data@.len() <= MIN_CHUNK {
                // two or more segments would overrun the input: all but the
                // last are at least the minimum, and the last adds one more
                if lens@.len() >= 2 {
                    lemma_sum_split(lens@, 1);
                    assert(lens@.take(1) =~= Seq::empty().push(lens@[0]));
                    lemma_sum_snoc(Seq::empty(), lens@[0]);
                    assert(seq_sum(lens@.take(1)) == lens@[0]);
                    assert(lens@[0] >= MIN_CHUNK);
                    assert(lens@.skip(1)[0] == lens@[1]);
                    assert(lens@.skip(1).len() > 0);
                    assert(lens@.skip(1).skip(1) =~= lens@.skip(2));
                    lemma_sum_nonneg(lens@.skip(2));
                    assert(seq_sum(lens@.skip(1)) >= 1);
                }
            }
        }
        out
    }
}

} // verus!
