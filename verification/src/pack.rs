//! Pack files: blob payloads concatenated in insertion order, a JSON
//! manifest listing each blob's hash, offset and length, and a trailing
//! four-byte little-endian manifest length.

use vstd::prelude::*;

use crate::chunk::Chunk;
use crate::errors::Error;
use crate::jsonfmt::dec_u64;
use crate::jsonfmt::jstr;
use crate::jsonfmt::nums_json;
use crate::strutil::bytes_of_str;

verus! {

/// A pack is flushed once its payload reaches this size.
pub const TARGET_PACK_SIZE: usize = 16 * 1024 * 1024;

/// One manifest entry: a blob's hash and its place in the payload.
#[derive(Debug, Clone, PartialEq, Eq)]
pub struct PackedBlob {
    pub hash: [u8; 32],
    pub offset: u32,
    pub length: u32,
}

/// The manifest: the pack's id and its blob descriptors.
#[derive(Debug, Clone)]
pub struct PackHeader {
    pub id: String,
    pub blobs: Vec<PackedBlob>,
}

/// The JSON text of one blob descriptor.
pub open spec fn blob_json(b: PackedBlob) -> Seq<u8> {
    seq![123u8] + (bytes_of_str("\"hash\":["@) + (nums_json(b.hash@, 0) + (seq![93u8, 44u8] + (
    bytes_of_str("\"offset\":"@) + (dec_u64(b.offset as nat) + (seq![44u8] + (bytes_of_str(
        "\"length\":"@,
    ) + (dec_u64(b.length as nat) + seq![125u8]))))))))
}

/// The JSON text of the descriptors from position `k` on.
pub open spec fn blobs_json_from(s: Seq<PackedBlob>, k: int) -> Seq<u8>
    decreases s.len() - k,
{
    if k < 0 || k >= s.len() {
        Seq::empty()
    } else {
        blob_json(s[k]) + (if k + 1 < s.len() {
            seq![44u8] + blobs_json_from(s, k + 1)
        } else {
            Seq::empty()
        })
    }
}

pub proof fn lemma_blobs_json_snoc(s: Seq<PackedBlob>, k: int)
    requires
        0 <= k < s.len(),
    ensures
        blobs_json_from(s.take(k + 1), 0) == blobs_json_from(s.take(k), 0) + (if k > 0 {
            seq![44u8]
        } else {
            Seq::<u8>::empty()
        }) + blob_json(s[k]),
{
    lemma_blobs_json_snoc_at(s, k, 0);
}

proof fn lemma_blobs_json_snoc_at(s: Seq<PackedBlob>, k: int, j: int)
    requires
        0 <= j <= k < s.len(),
    ensures
        blobs_json_from(s.take(k + 1), j) == blobs_json_from(s.take(k), j) + (if k > j {
            seq![44u8]
        } else {
            Seq::<u8>::empty()
        }) + blob_json(s[k]),
    decreases k - j,
{
    let a = s.take(k + 1);
    let b = s.take(k);
    assert(a[j] == s[j] && a.len() == k + 1 && b.len() == k);
    if j == k {
        assert(blobs_json_from(b, j) =~= Seq::<u8>::empty());
        assert(blobs_json_from(a, j) == blob_json(a[j]) + Seq::<u8>::empty());
        assert(blobs_json_from(a, j) =~= blobs_json_from(b, j) + Seq::<u8>::empty() + blob_json(
            s[k],
        ));
    } else {
        lemma_blobs_json_snoc_at(s, k, j + 1);
        assert(b[j] == s[j]);
        if j + 1 < k {
            assert(blobs_json_from(a, j) =~= blobs_json_from(b, j) + seq![44u8] + blob_json(s[k]));
        } else {
            assert(blobs_json_from(b, j + 1) =~= Seq::<u8>::empty());
            assert(blobs_json_from(a, j) =~= blobs_json_from(b, j) + seq![44u8] + blob_json(s[k]));
        }
    }
}

/// Two descriptor lists carry the same hashes, offsets and lengths.
pub open spec fn blobs_match(a: Seq<PackedBlob>, b: Seq<PackedBlob>) -> bool {
    a.len() == b.len() && forall|j: int|
        0 <= j < a.len() ==> (#[trigger] a[j]).hash@ == b[j].hash@ && a[j].offset == b[j].offset
            && a[j].length == b[j].length
}

/// What follows descriptor `k` in the emitted list.
pub open spec fn blob_sep(s: Seq<PackedBlob>, k: int) -> Seq<u8> {
    if k + 1 < s.len() {
        seq![44u8] + blobs_json_from(s, k + 1)
    } else {
        Seq::empty()
    }
}

/// The first byte of the descriptor list from position `k` is the opening
/// brace of descriptor `k`.
proof fn lemma_blob_head(s: Seq<PackedBlob>, k: int)
    requires
        0 <= k < s.len(),
    ensures
        blobs_json_from(s, k).len() > 0,
        blobs_json_from(s, k)[0] == 123,
        blobs_json_from(s, k) == blob_json(s[k]) + blob_sep(s, k),
{
    let e = blob_json(s[k]);
    assert(e[0] == 123) by {
        assert(e == seq![123u8] + (bytes_of_str("\"hash\":["@) + (nums_json(s[k].hash@, 0) + (
        seq![93u8, 44u8] + (bytes_of_str("\"offset\":"@) + (dec_u64(s[k].offset as nat) + (
        seq![44u8] + (bytes_of_str("\"length\":"@) + (dec_u64(s[k].length as nat)
            + seq![125u8])))))))));
    }
    assert(blobs_json_from(s, k)[0] == e[0]) by {
        assert(e.len() > 0);
    }
}

/// The JSON text of a whole manifest.
pub open spec fn manifest_json(id: Seq<char>, blobs: Seq<PackedBlob>) -> Seq<u8> {
    bytes_of_str("{\"id\":"@) + (jstr(id) + (bytes_of_str(",\"blobs\":["@) + (blobs_json_from(
        blobs,
        0,
    ) + seq![93u8, 125u8])))
}

/// Four little-endian bytes of a 32-bit length.
pub open spec fn le4(n: u32) -> Seq<u8> {
    seq![
        (n % 256) as u8,
        ((n / 256) % 256) as u8,
        ((n / 65536) % 256) as u8,
        ((n / 16777216) % 256) as u8,
    ]
}

/// The full byte image of a pack.
pub open spec fn pack_bytes(payload: Seq<u8>, id: Seq<char>, blobs: Seq<PackedBlob>) -> Seq<u8> {
    payload + manifest_json(id, blobs) + le4(manifest_json(id, blobs).len() as u32)
}

/// Every descriptor stays within the payload.
pub open spec fn blobs_in_range(blobs: Seq<PackedBlob>, payload_len: int) -> bool {
    forall|i: int|
        0 <= i < blobs.len() ==> (#[trigger] blobs[i]).offset + blobs[i].length <= payload_len
}

/// An in-flight pack under construction.
#[derive(Debug)]
pub struct PackBuilder {
    id: String,
    data: Vec<u8>,
    blobs: Vec<PackedBlob>,
}

impl PackBuilder {
    /// The pack's random identifier.
    pub closed spec fn id_view(&self) -> Seq<char> {
        self.id@
    }

    /// The payload gathered so far.
    pub closed spec fn data_view(&self) -> Seq<u8> {
        self.data@
    }

    /// The descriptors gathered so far.
    pub closed spec fn blobs_view(&self) -> Seq<PackedBlob> {
        self.blobs@
    }

    /// Descriptors describe real payload ranges.
    pub open spec fn wf(&self) -> bool {
        &&& blobs_in_range(self.blobs_view(), self.data_view().len() as int)
        &&& self.data_view().len() <= u32::MAX
        &&& crate::ids::uuid_text(self.id_view())
    }

    /// A fresh, empty builder under a new random id.
    pub fn new() -> (r: Self)
        ensures
            r.wf(),
            r.data_view().len() == 0,
            r.blobs_view().len() == 0,
    {
        PackBuilder { id: crate::ids::new_uuid(), data: Vec::new(), blobs: Vec::new() }
    }

    /// Appends a chunk's bytes and records its descriptor: hash, the offset
    /// where the bytes now stand, and their length.
    pub fn add(&mut self, chunk: &Chunk)
        requires
            old(self).wf(),
            old(self).data_view().len() + chunk.data@.len() <= u32::MAX,
        ensures
            final(self).wf(),
            final(self).id_view() == old(self).id_view(),
            final(self).data_view() == old(self).data_view() + chunk.data@,
            final(self).blobs_view() == old(self).blobs_view().push(
                PackedBlob {
                    hash: chunk.hash,
                    offset: old(self).data_view().len() as u32,
                    length: chunk.data@.len() as u32,
                },
            ),
    {
        let offset = self.data.len() as u32;
        self.data.extend_from_slice(chunk.data.as_slice());
        self.blobs.push(
            PackedBlob { hash: chunk.hash, offset, length: chunk.data.len() as u32 },
        );
        proof {
            assert forall|i: int| 0 <= i < self.blobs@.len() implies (#[trigger] self.blobs@[i]).offset
                + self.blobs@[i].length <= self.data@.len() as int by {
                if i < old(self).blobs@.len() {
                    assert(self.blobs@[i] == old(self).blobs@[i]);
                }
            }
        }
    }

    /// Whether the payload has reached the flush threshold.
    pub fn should_flush(&self) -> (r: bool)
        ensures
            r == (self.data_view().len() >= TARGET_PACK_SIZE),
    {
        self.data.len() >= TARGET_PACK_SIZE
    }

    /// Whether no blob has been added yet.
    pub fn is_empty(&self) -> (r: bool)
        ensures
            r == (self.blobs_view().len() == 0),
    {
        self.blobs.is_empty()
    }

    /// Seals the pack: appends the manifest and its little-endian length.
    /// Fails only when the manifest would not fit the four-byte length.
    #[verifier::loop_isolation(false)]
    #[verifier::spinoff_prover]
    #[verifier::rlimit(100)]
    pub fn finalize(self) -> (r: Result<PackFile, Error>)
        requires
            self.wf(),
        ensures
            r matches Ok(p) ==> p.header.id@ == self.id_view() && p.header.blobs@
                == self.blobs_view() && p.data@ == pack_bytes(
                self.data_view(),
                self.id_view(),
                self.blobs_view(),
            ) && p.wf() && p.payload_len() == self.data_view().len(),
            r is Err ==> manifest_json(self.id_view(), self.blobs_view()).len() > u32::MAX,
            r matches Err(e) ==> e == Error::Store,
    {
        let ghost gid = self.id@;
        let ghost gblobs = self.blobs@;
        let ghost gdata = self.data@;
        let mut manifest: Vec<u8> = Vec::new();
        crate::jsonfmt::emit_lit(&mut manifest, "{\"id\":");
        crate::jsonfmt::emit_jstr(&mut manifest, self.id.as_str());
        crate::jsonfmt::emit_lit(&mut manifest, ",\"blobs\":[");
        let ghost hdr = manifest@;
        let mut k: usize = 0;
        proof {
            assert(blobs_json_from(gblobs.take(0), 0) =~= Seq::<u8>::empty());
            assert(manifest@ =~= hdr + blobs_json_from(gblobs.take(0), 0));
        }
        while k < self.blobs.len()
            invariant
                k <= gblobs.len(),
                self.blobs@ == gblobs,
                manifest@ == hdr + blobs_json_from(gblobs.take(k as int), 0),
            decreases gblobs.len() - k,
        {
            if k > 0 {
                manifest.push(44);
            }
            let b = &self.blobs[k];
            manifest.push(123);
            crate::jsonfmt::emit_lit(&mut manifest, "\"hash\":[");
            crate::jsonfmt::emit_byte_nums(&mut manifest, b.hash.as_slice());
            manifest.push(93);
            manifest.push(44);
            crate::jsonfmt::emit_lit(&mut manifest, "\"offset\":");
            crate::jsonfmt::emit_u64(&mut manifest, b.offset as u64);
            manifest.push(44);
            crate::jsonfmt::emit_lit(&mut manifest, "\"length\":");
            crate::jsonfmt::emit_u64(&mut manifest, b.length as u64);
            manifest.push(125);
            proof {
                lemma_blobs_json_snoc(gblobs, k as int);
                assert(blob_json(gblobs[k as int]) =~= seq![123u8] + (bytes_of_str("\"hash\":["@)
                    + (nums_json(gblobs[k as int].hash@, 0) + (seq![93u8, 44u8] + (bytes_of_str(
                    "\"offset\":"@,
                ) + (dec_u64(gblobs[k as int].offset as nat) + (seq![44u8] + (bytes_of_str(
                    "\"length\":"@,
                ) + (dec_u64(gblobs[k as int].length as nat) + seq![125u8])))))))));
                assert(manifest@ =~= hdr + blobs_json_from(gblobs.take(k + 1), 0));
            }
            k += 1;
        }
        manifest.push(93);
        manifest.push(125);
        proof {
            assert(gblobs.take(gblobs.len() as int) =~= gblobs);
            assert(manifest@ =~= manifest_json(gid, gblobs));
        }
        if manifest.len() > u32::MAX as usize {
            return Err(Error::Store);
        }
        let hlen = manifest.len() as u32;
        let mut data = self.data;
        data.extend_from_slice(manifest.as_slice());
        data.push((hlen % 256) as u8);
        data.push(((hlen / 256) % 256) as u8);
        data.push(((hlen / 65536) % 256) as u8);
        data.push(((hlen / 16777216) % 256) as u8);
        let p = PackFile { header: PackHeader { id: self.id, blobs: self.blobs }, data };
        proof {
            assert(p.data@ =~= pack_bytes(gdata, gid, gblobs));
            assert(manifest_json(p.header.id@, p.header.blobs@).len() == hlen);
            lemma_le4_unpack(hlen);
            assert(p.data@.skip(p.data@.len() - 4) =~= le4(hlen));
            assert(p.wf()) by {
                assert(p.data@.subrange(
                    gdata.len() as int,
                    gdata.len() + manifest_json(gid, gblobs).len() as int,
                ) =~= manifest_json(gid, gblobs));
                assert(p.data@.take(gdata.len() as int) =~= gdata);
            }
        }
        Ok(p)
    }
}

/// The little-endian bytes of `n` decode back to `n`.
pub proof fn lemma_le4_unpack(n: u32)
    ensures
        le4(n)[0] + 256 * (le4(n)[1] + 256 * (le4(n)[2] + 256 * le4(n)[3])) == n,
{
    let b0 = n % 256;
    let b1 = (n / 256) % 256;
    let b2 = (n / 65536) % 256;
    let b3 = (n / 16777216) % 256;
    assert(b0 + 256 * (b1 + 256 * (b2 + 256 * b3)) == n) by (nonlinear_arith)
        requires
            b0 == n % 256,
            b1 == (n / 256) % 256,
            b2 == (n / 65536) % 256,
            b3 == (n / 16777216) % 256,
            n <= u32::MAX,
    ;
}

/// A sealed pack: its manifest and its full byte image.
#[derive(Debug)]
pub struct PackFile {
    pub header: PackHeader,
    pub data: Vec<u8>,
}

impl PackFile {
    /// The manifest's length in this pack's byte image.
    pub open spec fn manifest_len(&self) -> int {
        manifest_json(self.header.id@, self.header.blobs@).len() as int
    }

    /// Where the payload region ends.
    pub open spec fn payload_len(&self) -> int {
        self.data@.len() - 4 - self.manifest_len()
    }

    /// The byte image decomposes into payload, manifest, and trailer, and
    /// every descriptor stays within the payload.
    pub open spec fn wf(&self) -> bool {
        &&& self.manifest_len() <= u32::MAX
        &&& self.data@.len() >= self.manifest_len() + 4
        &&& self.data@ == self.data@.take(self.payload_len()) + manifest_json(
            self.header.id@,
            self.header.blobs@,
        ) + le4(self.manifest_len() as u32)
        &&& blobs_in_range(self.header.blobs@, self.payload_len())
    }

    /// The pack's identifier.
    pub fn id(&self) -> (r: &str)
        ensures
            r@ == self.header.id@,
    {
        self.header.id.as_str()
    }

    /// Parses a pack from its raw bytes: the trailing length, then the
    /// manifest, whose descriptors must stay within the payload. Whatever
    /// comes back re-serializes to exactly the bytes read, and the byte
    /// image of any in-range pack is accepted.
    #[verifier::loop_isolation(false)]
    #[verifier::rlimit(100)]
    pub fn parse(data: Vec<u8>) -> (r: Result<Self, Error>)
        ensures
            r matches Ok(p) ==> p.data@ == data@ && p.wf(),
            forall|payload: Seq<u8>, id0: Seq<char>, bs0: Seq<PackedBlob>|
                #![trigger pack_bytes(payload, id0, bs0)]
                data@ == pack_bytes(payload, id0, bs0) && blobs_in_range(
                    bs0,
                    payload.len() as int,
                ) && manifest_json(id0, bs0).len() <= u32::MAX ==> (r matches Ok(p)
                    && p.header.id@ == id0 && blobs_match(p.header.blobs@, bs0)),
            r matches Err(e) ==> e == Error::Parse,
    {
        if data.len() < 4 {
            proof {
                assert forall|payload: Seq<u8>, id0: Seq<char>, bs0: Seq<PackedBlob>|
                    data@ == pack_bytes(payload, id0, bs0) implies false by {
                    assert(data@.len() == payload.len() + manifest_json(id0, bs0).len() + 4);
                }
            }
            return Err(Error::Parse);
        }
        let n = data.len();
        let b0 = data[n - 4] as u32;
        let b1 = data[n - 3] as u32;
        let b2 = data[n - 2] as u32;
        let b3 = data[n - 1] as u32;
        let hlen_u32: u32 = b0 + 256 * (b1 + 256 * (b2 + 256 * b3));
        let hlen = hlen_u32 as usize;
        proof {
            assert forall|payload: Seq<u8>, id0: Seq<char>, bs0: Seq<PackedBlob>|
                data@ == pack_bytes(payload, id0, bs0) && blobs_in_range(
                    bs0,
                    payload.len() as int,
                ) && manifest_json(id0, bs0).len() <= u32::MAX implies hlen == manifest_json(
                id0,
                bs0,
            ).len() && n - 4 >= hlen && n - 4 - hlen == payload.len() && data@.skip(
                (n - 4 - hlen) as int,
            ) == manifest_json(id0, bs0) + le4(manifest_json(id0, bs0).len() as u32) by {
                let m = manifest_json(id0, bs0);
                let tail4 = le4(m.len() as u32);
                assert(data@.len() == payload.len() + m.len() + 4);
                assert(data@.skip((n - 4) as int) =~= tail4);
                lemma_le4_unpack(m.len() as u32);
                assert(b0 == tail4[0] && b1 == tail4[1] && b2 == tail4[2] && b3 == tail4[3]) by {
                    assert(data@.skip((n - 4) as int)[0] == data@[(n - 4) as int]);
                    assert(data@.skip((n - 4) as int)[1] == data@[n - 3]);
                    assert(data@.skip((n - 4) as int)[2] == data@[n - 2]);
                    assert(data@.skip((n - 4) as int)[3] == data@[n - 1]);
                }
                assert(hlen_u32 == m.len() as u32);
                assert(hlen == m.len());
                assert(data@.skip(payload.len() as int) =~= m + tail4);
            }
        }
        if n - 4 < hlen {
            proof {
                assert forall|payload: Seq<u8>, id0: Seq<char>, bs0: Seq<PackedBlob>|
                    data@ == pack_bytes(payload, id0, bs0) && blobs_in_range(
                        bs0,
                        payload.len() as int,
                    ) && manifest_json(id0, bs0).len() <= u32::MAX implies false by {}
            }
            return Err(Error::Parse);
        }
        let start = n - 4 - hlen;
        let (header, end) = match parse_manifest(&data, start) {
            Some(t) => t,
            None => {
                proof {
                    assert forall|payload: Seq<u8>, id0: Seq<char>, bs0: Seq<PackedBlob>|
                        data@ == pack_bytes(payload, id0, bs0) && blobs_in_range(
                            bs0,
                            payload.len() as int,
                        ) && manifest_json(id0, bs0).len() <= u32::MAX implies false by {
                        assert(data@.skip(start as int) == manifest_json(id0, bs0) + le4(
                            manifest_json(id0, bs0).len() as u32,
                        ));
                    }
                }
                return Err(Error::Parse);
            },
        };
        proof {
            assert forall|payload: Seq<u8>, id0: Seq<char>, bs0: Seq<PackedBlob>|
                data@ == pack_bytes(payload, id0, bs0) && blobs_in_range(
                    bs0,
                    payload.len() as int,
                ) && manifest_json(id0, bs0).len() <= u32::MAX implies header.id@ == id0
                && blobs_match(header.blobs@, bs0) && end == n - 4 by {
                assert(data@.skip(start as int) == manifest_json(id0, bs0) + le4(
                    manifest_json(id0, bs0).len() as u32,
                ));
            }
        }
        if end != n - 4 {
            proof {
                assert forall|payload: Seq<u8>, id0: Seq<char>, bs0: Seq<PackedBlob>|
                    data@ == pack_bytes(payload, id0, bs0) && blobs_in_range(
                        bs0,
                        payload.len() as int,
                    ) && manifest_json(id0, bs0).len() <= u32::MAX implies false by {}
            }
            return Err(Error::Parse);
        }
        // descriptors must lie inside the payload region
        let mut i: usize = 0;
        while i < header.blobs.len()
            invariant
                i <= header.blobs@.len(),
                start == n - 4 - hlen,
                forall|j: int|
                    0 <= j < i ==> (#[trigger] header.blobs@[j]).offset + header.blobs@[j].length
                        <= start,
            decreases header.blobs@.len() - i,
        {
            let b = &header.blobs[i];
            if b.offset as u64 + b.length as u64 > start as u64 {
                proof {
                    assert forall|payload: Seq<u8>, id0: Seq<char>, bs0: Seq<PackedBlob>|
                        data@ == pack_bytes(payload, id0, bs0) && blobs_in_range(
                            bs0,
                            payload.len() as int,
                        ) && manifest_json(id0, bs0).len() <= u32::MAX implies false by {
                        assert(header.blobs@[i as int].offset == bs0[i as int].offset
                            && header.blobs@[i as int].length == bs0[i as int].length);
                        assert(bs0[i as int].offset + bs0[i as int].length <= payload.len());
                    }
                }
                return Err(Error::Parse);
            }
            i += 1;
        }
        let p = PackFile { header, data };
        proof {
            assert(p.manifest_len() == hlen) by {
                assert(p.data@.subrange(start as int, end as int) == manifest_json(
                    p.header.id@,
                    p.header.blobs@,
                ));
            }
            let tail = p.data@.skip(n - 4);
            assert(tail =~= seq![p.data@[n - 4], p.data@[n - 3], p.data@[n - 2], p.data@[n - 1]]);
            assert(tail[0] + 256 * (tail[1] + 256 * (tail[2] + 256 * tail[3])) == hlen_u32);
            lemma_le4_pack(hlen_u32, tail);
            assert(p.payload_len() == start);
            assert(p.data@ =~= p.data@.take(p.payload_len()) + manifest_json(
                p.header.id@,
                p.header.blobs@,
            ) + le4(p.manifest_len() as u32));
        }
        Ok(p)
    }

    /// The bytes of the first blob whose descriptor carries `hash`.
    #[verifier::loop_isolation(false)]
    pub fn extract_blob(&self, hash: &[u8; 32]) -> (r: Option<&[u8]>)
        requires
            self.wf(),
        ensures
            r is Some <==> exists|i: int|
                0 <= i < self.header.blobs@.len() && (#[trigger] self.header.blobs@[i]).hash@
                    == hash@,
            r matches Some(b) ==> exists|i: int|
                0 <= i < self.header.blobs@.len() && (#[trigger] self.header.blobs@[i]).hash@
                    == hash@ && b@ == self.data@.subrange(
                    self.header.blobs@[i].offset as int,
                    self.header.blobs@[i].offset + self.header.blobs@[i].length,
                ) && (forall|j: int|
                    0 <= j < i ==> (#[trigger] self.header.blobs@[j]).hash@ != hash@),
    {
        let mut i: usize = 0;
        while i < self.header.blobs.len()
            invariant
                i <= self.header.blobs@.len(),
                forall|j: int| 0 <= j < i ==> (#[trigger] self.header.blobs@[j]).hash@ != hash@,
            decreases self.header.blobs@.len() - i,
        {
            let b = &self.header.blobs[i];
            if crate::strutil::bytes_eq(b.hash.as_slice(), hash.as_slice()) {
                let dlen = self.data.len();
                proof {
                    assert(self.header.blobs@[i as int].offset + self.header.blobs@[i as int].length
                        <= self.payload_len());
                    assert(self.payload_len() <= dlen);
                }
                let s = vstd::slice::slice_subrange(
                    self.data.as_slice(),
                    b.offset as usize,
                    b.offset as usize + b.length as usize,
                );
                return Some(s);
            }
            i += 1;
        }
        None
    }
}

/// When four bytes are the little-endian image of `n`, they equal `le4(n)`.
proof fn lemma_le4_pack(n: u32, bytes: Seq<u8>)
    requires
        bytes.len() == 4,
        bytes[0] + 256 * (bytes[1] + 256 * (bytes[2] + 256 * bytes[3])) == n,
    ensures
        bytes == le4(n),
{
    let b0 = bytes[0] as int;
    let b1 = bytes[1] as int;
    let b2 = bytes[2] as int;
    let b3 = bytes[3] as int;
    assert(n % 256 == b0 && (n / 256) % 256 == b1 && (n / 65536) % 256 == b2 && (n / 16777216)
        % 256 == b3) by (nonlinear_arith)
        requires
            0 <= b0 < 256,
            0 <= b1 < 256,
            0 <= b2 < 256,
            0 <= b3 < 256,
            b0 + 256 * (b1 + 256 * (b2 + 256 * b3)) == n,
    ;
    assert(bytes =~= le4(n));
}

/// Parses a manifest document at `pos`: on success the consumed bytes are
/// exactly the manifest's JSON text, and the text of any manifest is
/// accepted.
#[verifier::loop_isolation(false)]
#[verifier::rlimit(100)]
fn parse_manifest(data: &Vec<u8>, pos: usize) -> (r: Option<(PackHeader, usize)>)
    requires
        pos <= data@.len(),
    ensures
        r matches Some((h, p)) ==> pos <= p <= data@.len() && data@.subrange(pos as int, p as int)
            == manifest_json(h.id@, h.blobs@),
        forall|id0: Seq<char>, bs0: Seq<PackedBlob>, rest: Seq<u8>|
            #![trigger manifest_json(id0, bs0) + rest]
            data@.skip(pos as int) == manifest_json(id0, bs0) + rest ==> (r matches Some((h, p))
                && h.id@ == id0 && blobs_match(h.blobs@, bs0) && p == pos + manifest_json(
                id0,
                bs0,
            ).len()),
{
    let ghost l1 = bytes_of_str("{\"id\":"@);
    let ghost l2 = bytes_of_str(",\"blobs\":["@);
    let ghost closer = seq![93u8, 125u8];
    let p0 = match crate::jsonfmt::expect(data, pos, "{\"id\":") {
        Some(p) => p,
        None => {
            proof {
                assert forall|id0: Seq<char>, bs0: Seq<PackedBlob>, rest: Seq<u8>|
                    data@.skip(pos as int) == manifest_json(id0, bs0) + rest implies false by {
                    let t = jstr(id0) + (l2 + (blobs_json_from(bs0, 0) + closer));
                    crate::jsonfmt::lemma_add_assoc(l1, t, rest);
                    crate::jsonfmt::lemma_starts_with(data@, pos as int, l1, t + rest);
                }
            }
            return None;
        },
    };
    proof {
        assert forall|id0: Seq<char>, bs0: Seq<PackedBlob>, rest: Seq<u8>|
            data@.skip(pos as int) == manifest_json(id0, bs0) + rest implies data@.skip(p0 as int)
            == jstr(id0) + ((l2 + (blobs_json_from(bs0, 0) + closer)) + rest) by {
            let t = jstr(id0) + (l2 + (blobs_json_from(bs0, 0) + closer));
            crate::jsonfmt::lemma_add_assoc(l1, t, rest);
            crate::jsonfmt::lemma_starts_with(data@, pos as int, l1, t + rest);
            crate::jsonfmt::lemma_add_assoc(
                jstr(id0),
                l2 + (blobs_json_from(bs0, 0) + closer),
                rest,
            );
        }
    }
    let (id, p1) = match crate::jsonfmt::parse_string(data, p0) {
        Some(t) => t,
        None => {
            proof {
                assert forall|id0: Seq<char>, bs0: Seq<PackedBlob>, rest: Seq<u8>|
                    data@.skip(pos as int) == manifest_json(id0, bs0) + rest implies false by {
                    assert(data@.skip(p0 as int) == jstr(id0) + ((l2 + (blobs_json_from(bs0, 0)
                        + closer)) + rest));
                }
            }
            return None;
        },
    };
    proof {
        assert forall|id0: Seq<char>, bs0: Seq<PackedBlob>, rest: Seq<u8>|
            data@.skip(pos as int) == manifest_json(id0, bs0) + rest implies id@ == id0
            && data@.skip(p1 as int) == l2 + ((blobs_json_from(bs0, 0) + closer) + rest) by {
            crate::jsonfmt::lemma_starts_with(
                data@,
                p0 as int,
                jstr(id0),
                (l2 + (blobs_json_from(bs0, 0) + closer)) + rest,
            );
            crate::jsonfmt::lemma_add_assoc(l2, blobs_json_from(bs0, 0) + closer, rest);
        }
    }
    let p2 = match crate::jsonfmt::expect(data, p1, ",\"blobs\":[") {
        Some(p) => p,
        None => {
            proof {
                assert forall|id0: Seq<char>, bs0: Seq<PackedBlob>, rest: Seq<u8>|
                    data@.skip(pos as int) == manifest_json(id0, bs0) + rest implies false by {
                    crate::jsonfmt::lemma_starts_with(
                        data@,
                        p1 as int,
                        l2,
                        (blobs_json_from(bs0, 0) + closer) + rest,
                    );
                }
            }
            return None;
        },
    };
    proof {
        assert forall|id0: Seq<char>, bs0: Seq<PackedBlob>, rest: Seq<u8>|
            data@.skip(pos as int) == manifest_json(id0, bs0) + rest implies data@.skip(p2 as int)
            == blobs_json_from(bs0, 0) + (closer + rest) by {
            crate::jsonfmt::lemma_starts_with(
                data@,
                p1 as int,
                l2,
                (blobs_json_from(bs0, 0) + closer) + rest,
            );
            crate::jsonfmt::lemma_add_assoc(blobs_json_from(bs0, 0), closer, rest);
        }
    }
    let mut blobs: Vec<PackedBlob> = Vec::new();
    let mut cur = p2;
    let mut first = true;
    loop
        invariant
            p2 <= cur <= data@.len(),
            data@.subrange(pos as int, p2 as int) == l1 + (jstr(id@) + l2),
            first <==> blobs@.len() == 0,
            first ==> cur == p2,
            data@.subrange(p2 as int, cur as int) == blobs_json_from(blobs@, 0),
            forall|id0: Seq<char>, bs0: Seq<PackedBlob>, rest: Seq<u8>|
                #![trigger manifest_json(id0, bs0) + rest]
                data@.skip(pos as int) == manifest_json(id0, bs0) + rest ==> {
                    let k = blobs@.len() as int;
                    &&& id@ == id0
                    &&& k <= bs0.len()
                    &&& blobs_match(blobs@, bs0.take(k))
                    &&& (k == bs0.len() ==> data@.skip(cur as int) == closer + rest)
                    &&& (k < bs0.len() && k == 0 ==> data@.skip(cur as int) == blobs_json_from(
                        bs0,
                        0,
                    ) + (closer + rest))
                    &&& (k < bs0.len() && k > 0 ==> data@.skip(cur as int) == seq![44u8] + (
                    blobs_json_from(bs0, k) + (closer + rest)))
                },
        decreases data@.len() - cur,
    {
        let ghost k0 = blobs@.len() as int;
        if cur >= data.len() {
            proof {
                assert forall|id0: Seq<char>, bs0: Seq<PackedBlob>, rest: Seq<u8>|
                    data@.skip(pos as int) == manifest_json(id0, bs0) + rest implies false by {
                    assert(data@.skip(cur as int).len() == 0);
                    if k0 < bs0.len() {
                        lemma_blob_head(bs0, k0);
                    }
                }
            }
            return None;
        }
        proof {
            assert forall|id0: Seq<char>, bs0: Seq<PackedBlob>, rest: Seq<u8>|
                data@.skip(pos as int) == manifest_json(id0, bs0) + rest && k0 < bs0.len()
                implies data@.skip(cur as int)[0] != 93 by {
                lemma_blob_head(bs0, k0);
                if k0 == 0 {
                    assert((blobs_json_from(bs0, 0) + (closer + rest))[0] == blobs_json_from(
                        bs0,
                        0,
                    )[0]);
                } else {
                    assert((seq![44u8] + (blobs_json_from(bs0, k0) + (closer + rest)))[0] == 44);
                }
            }
        }
        if data[cur] == 93 {
            if data.len() - cur < 2 {
                proof {
                    assert forall|id0: Seq<char>, bs0: Seq<PackedBlob>, rest: Seq<u8>|
                        data@.skip(pos as int) == manifest_json(id0, bs0) + rest implies false by {
                        assert(data@.skip(cur as int)[0] == data@[cur as int]);
                        assert(data@.skip(cur as int) == closer + rest);
                        assert((closer + rest).len() >= 2);
                    }
                }
                return None;
            }
            if data[cur + 1] != 125 {
                proof {
                    assert forall|id0: Seq<char>, bs0: Seq<PackedBlob>, rest: Seq<u8>|
                        data@.skip(pos as int) == manifest_json(id0, bs0) + rest implies false by {
                        assert(data@.skip(cur as int)[0] == data@[cur as int]);
                        assert(data@.skip(cur as int) == closer + rest);
                        assert(data@.skip(cur as int)[1] == data@[cur + 1]);
                        assert((closer + rest)[1] == 125);
                    }
                }
                return None;
            }
            let h = PackHeader { id, blobs };
            proof {
                assert(data@.subrange(cur as int, cur + 2) =~= seq![93u8, 125u8]);
                crate::jsonfmt::lemma_subrange_compose(data@, p2 as int, cur as int, cur + 2);
                crate::jsonfmt::lemma_subrange_compose(data@, pos as int, p2 as int, cur + 2);
                assert(data@.subrange(pos as int, cur + 2) =~= manifest_json(h.id@, h.blobs@));
                assert forall|id0: Seq<char>, bs0: Seq<PackedBlob>, rest: Seq<u8>|
                    data@.skip(pos as int) == manifest_json(id0, bs0) + rest implies h.id@ == id0
                    && blobs_match(h.blobs@, bs0) && cur + 2 == pos + manifest_json(
                    id0,
                    bs0,
                ).len() by {
                    assert(data@.skip(cur as int)[0] == data@[cur as int]);
                    assert(h.blobs@.len() == bs0.len());
                    assert(bs0.take(bs0.len() as int) =~= bs0);
                    crate::jsonfmt::lemma_starts_with(data@, cur as int, closer, rest);
                    assert((manifest_json(id0, bs0) + rest).len() == manifest_json(
                        id0,
                        bs0,
                    ).len() + rest.len());
                    assert(data@.skip(pos as int).len() == data@.len() - pos);
                    assert(data@.skip(cur + 2).len() == data@.len() - (cur + 2));
                    assert(data@.skip(cur + 2) == rest);
                }
            }
            return Some((h, cur + 2));
        }
        proof {
            assert forall|id0: Seq<char>, bs0: Seq<PackedBlob>, rest: Seq<u8>|
                data@.skip(pos as int) == manifest_json(id0, bs0) + rest implies k0 < bs0.len()
                && data@.skip(cur as int).skip(if k0 > 0 { 1int } else { 0int })
                == blobs_json_from(bs0, k0) + (closer + rest) by {
                if k0 == bs0.len() {
                    assert(data@.skip(cur as int)[0] == data@[cur as int]);
                    assert(data@.skip(cur as int) == closer + rest);
                    assert((closer + rest)[0] == 93);
                }
                if k0 > 0 {
                    crate::jsonfmt::lemma_starts_with(
                        data@,
                        cur as int,
                        seq![44u8],
                        blobs_json_from(bs0, k0) + (closer + rest),
                    );
                    assert(data@.skip(cur as int).skip(1int) =~= data@.skip(cur + 1));
                    assert(data@.skip(cur + 1) == blobs_json_from(bs0, k0) + (closer + rest));
                } else {
                    assert(data@.skip(cur as int).skip(0int) =~= data@.skip(cur as int));
                }
            }
        }
        let pstart = if first {
            cur
        } else {
            match crate::jsonfmt::expect_byte(data, cur, 44) {
                Some(p) => p,
                None => {
                    proof {
                        assert forall|id0: Seq<char>, bs0: Seq<PackedBlob>, rest: Seq<u8>|
                            data@.skip(pos as int) == manifest_json(id0, bs0) + rest
                            implies false by {
                            assert(data@.skip(cur as int)[0] == data@[cur as int]);
                        }
                    }
                    return None;
                },
            }
        };
        proof {
            assert forall|id0: Seq<char>, bs0: Seq<PackedBlob>, rest: Seq<u8>|
                data@.skip(pos as int) == manifest_json(id0, bs0) + rest implies data@.skip(
                pstart as int,
            ) == blob_json(bs0[k0]) + (blob_sep(bs0, k0) + (closer + rest)) by {
                assert(data@.skip(pstart as int) == blobs_json_from(bs0, k0) + (closer + rest))
                    by {
                    if k0 > 0 {
                        assert(data@.skip(cur as int).skip(1int) =~= data@.skip(pstart as int));
                    } else {
                        assert(data@.skip(cur as int).skip(0int) =~= data@.skip(pstart as int));
                    }
                }
                lemma_blob_head(bs0, k0);
                crate::jsonfmt::lemma_add_assoc(blob_json(bs0[k0]), blob_sep(bs0, k0), closer
                    + rest);
            }
        }
        let (b, q) = match parse_blob(data, pstart) {
            Some(t) => t,
            None => {
                proof {
                    assert forall|id0: Seq<char>, bs0: Seq<PackedBlob>, rest: Seq<u8>|
                        data@.skip(pos as int) == manifest_json(id0, bs0) + rest implies false by {
                        assert(data@.skip(pstart as int) == blob_json(bs0[k0]) + (blob_sep(
                            bs0,
                            k0,
                        ) + (closer + rest)));
                    }
                }
                return None;
            },
        };
        let ghost oldblobs = blobs@;
        blobs.push(b);
        proof {
            assert(blobs@.take(oldblobs.len() as int) =~= oldblobs);
            assert(blobs@.take(blobs@.len() as int) =~= blobs@);
            lemma_blobs_json_snoc(blobs@, oldblobs.len() as int);
            if first {
                assert(data@.subrange(p2 as int, q as int) =~= blobs_json_from(blobs@, 0));
            } else {
                crate::jsonfmt::lemma_subrange_compose(data@, p2 as int, cur as int, q as int);
                crate::jsonfmt::lemma_subrange_compose(data@, cur as int, pstart as int, q as int);
                assert(data@.subrange(cur as int, pstart as int) =~= seq![44u8]);
                assert(data@.subrange(p2 as int, q as int) =~= blobs_json_from(blobs@, 0));
            }
            assert forall|id0: Seq<char>, bs0: Seq<PackedBlob>, rest: Seq<u8>|
                data@.skip(pos as int) == manifest_json(id0, bs0) + rest implies {
                let k = blobs@.len() as int;
                &&& k <= bs0.len()
                &&& blobs_match(blobs@, bs0.take(k))
                &&& (k == bs0.len() ==> data@.skip(q as int) == closer + rest)
                &&& (k < bs0.len() && k > 0 ==> data@.skip(q as int) == seq![44u8] + (
                blobs_json_from(bs0, k) + (closer + rest)))
            } by {
                crate::jsonfmt::lemma_starts_with(
                    data@,
                    pstart as int,
                    blob_json(bs0[k0]),
                    blob_sep(bs0, k0) + (closer + rest),
                );
                assert(data@.skip(q as int) == blob_sep(bs0, k0) + (closer + rest));
                let k = blobs@.len() as int;
                assert(k == k0 + 1);
                assert(blobs_match(blobs@, bs0.take(k))) by {
                    assert(forall|j: int|
                        0 <= j < k0 ==> (#[trigger] blobs@[j]) == oldblobs[j]);
                    assert(forall|j: int| 0 <= j <= k0 ==> bs0.take(k)[j] == bs0[j]);
                    assert(forall|j: int| 0 <= j < k0 ==> bs0.take(k0)[j] == bs0[j]);
                }
                if k == bs0.len() {
                    assert(blob_sep(bs0, k0) =~= Seq::<u8>::empty());
                    assert(Seq::<u8>::empty() + (closer + rest) =~= closer + rest);
                } else {
                    assert(blob_sep(bs0, k0) == seq![44u8] + blobs_json_from(bs0, k));
                    crate::jsonfmt::lemma_add_assoc(
                        seq![44u8],
                        blobs_json_from(bs0, k),
                        closer + rest,
                    );
                }
            }
        }
        cur = q;
        first = false;
    }
}

/// Parses one blob descriptor: on success the consumed bytes are exactly
/// the descriptor's JSON text, and the text of any descriptor is accepted.
#[verifier::loop_isolation(false)]
#[verifier::rlimit(100)]
fn parse_blob(data: &Vec<u8>, pos: usize) -> (r: Option<(PackedBlob, usize)>)
    requires
        pos <= data@.len(),
    ensures
        r matches Some((b, p)) ==> pos <= p <= data@.len() && data@.subrange(pos as int, p as int)
            == blob_json(b),
        forall|b0: PackedBlob, rest: Seq<u8>|
            #![trigger blob_json(b0) + rest]
            data@.skip(pos as int) == blob_json(b0) + rest ==> (r matches Some((b, p)) && b.hash@
                == b0.hash@ && b.offset == b0.offset && b.length == b0.length && p == pos
                + blob_json(b0).len()),
{
    let ghost lh = bytes_of_str("\"hash\":["@);
    let ghost lo = bytes_of_str("\"offset\":"@);
    let ghost ll = bytes_of_str("\"length\":"@);
    let ghost tail1 = |b0: PackedBlob| lh + (nums_json(b0.hash@, 0) + (seq![93u8, 44u8] + (lo + (
    dec_u64(b0.offset as nat) + (seq![44u8] + (ll + (dec_u64(b0.length as nat)
        + seq![125u8])))))));
    let p0 = match crate::jsonfmt::expect_byte(data, pos, 123) {
        Some(p) => p,
        None => {
            proof {
                assert forall|b0: PackedBlob, rest: Seq<u8>|
                    data@.skip(pos as int) == blob_json(b0) + rest implies false by {
                    crate::jsonfmt::lemma_add_assoc(seq![123u8], tail1(b0), rest);
                    crate::jsonfmt::lemma_starts_with(data@, pos as int, seq![123u8], tail1(b0)
                        + rest);
                    assert(data@.skip(pos as int)[0] == data@[pos as int]);
                }
            }
            return None;
        },
    };
    proof {
        assert forall|b0: PackedBlob, rest: Seq<u8>|
            data@.skip(pos as int) == blob_json(b0) + rest implies data@.skip(p0 as int) == tail1(
            b0,
        ) + rest by {
            crate::jsonfmt::lemma_add_assoc(seq![123u8], tail1(b0), rest);
            crate::jsonfmt::lemma_starts_with(data@, pos as int, seq![123u8], tail1(b0) + rest);
        }
    }
    let p1 = match crate::jsonfmt::expect(data, p0, "\"hash\":[") {
        Some(p) => p,
        None => {
            proof {
                assert forall|b0: PackedBlob, rest: Seq<u8>|
                    data@.skip(pos as int) == blob_json(b0) + rest implies false by {
                    let t2 = nums_json(b0.hash@, 0) + (seq![93u8, 44u8] + (lo + (dec_u64(
                        b0.offset as nat,
                    ) + (seq![44u8] + (ll + (dec_u64(b0.length as nat) + seq![125u8]))))));
                    crate::jsonfmt::lemma_add_assoc(lh, t2, rest);
                    crate::jsonfmt::lemma_starts_with(data@, p0 as int, lh, t2 + rest);
                }
            }
            return None;
        },
    };
    proof {
        assert forall|b0: PackedBlob, rest: Seq<u8>|
            data@.skip(pos as int) == blob_json(b0) + rest implies data@.skip(p1 as int)
            == nums_json(b0.hash@, 0) + ((seq![93u8, 44u8] + (lo + (dec_u64(b0.offset as nat) + (
        seq![44u8] + (ll + (dec_u64(b0.length as nat) + seq![125u8])))))) + rest) by {
            let t2 = nums_json(b0.hash@, 0) + (seq![93u8, 44u8] + (lo + (dec_u64(b0.offset as nat)
                + (seq![44u8] + (ll + (dec_u64(b0.length as nat) + seq![125u8]))))));
            crate::jsonfmt::lemma_add_assoc(lh, t2, rest);
            crate::jsonfmt::lemma_starts_with(data@, p0 as int, lh, t2 + rest);
            crate::jsonfmt::lemma_add_assoc(
                nums_json(b0.hash@, 0),
                seq![93u8, 44u8] + (lo + (dec_u64(b0.offset as nat) + (seq![44u8] + (ll + (
                dec_u64(b0.length as nat) + seq![125u8]))))),
                rest,
            );
        }
    }
    let (hash_vec, p2) = match crate::jsonfmt::parse_byte_nums(data, p1, 32) {
        Some(t) => t,
        None => {
            proof {
                assert forall|b0: PackedBlob, rest: Seq<u8>|
                    data@.skip(pos as int) == blob_json(b0) + rest implies false by {
                    let t3 = (seq![93u8, 44u8] + (lo + (dec_u64(b0.offset as nat) + (seq![44u8]
                        + (ll + (dec_u64(b0.length as nat) + seq![125u8])))))) + rest;
                    assert(t3[0] == 93);
                    assert(b0.hash@.len() == 32);
                }
            }
            return None;
        },
    };
    proof {
        assert forall|b0: PackedBlob, rest: Seq<u8>|
            data@.skip(pos as int) == blob_json(b0) + rest implies hash_vec@ == b0.hash@
            && data@.skip(p2 as int) == seq![93u8, 44u8] + ((lo + (dec_u64(b0.offset as nat) + (
        seq![44u8] + (ll + (dec_u64(b0.length as nat) + seq![125u8]))))) + rest) by {
            let t3 = (seq![93u8, 44u8] + (lo + (dec_u64(b0.offset as nat) + (seq![44u8] + (ll + (
            dec_u64(b0.length as nat) + seq![125u8])))))) + rest;
            assert(t3[0] == 93);
            assert(b0.hash@.len() == 32);
            crate::jsonfmt::lemma_starts_with(data@, p1 as int, nums_json(b0.hash@, 0), t3);
            crate::jsonfmt::lemma_add_assoc(
                seq![93u8, 44u8],
                lo + (dec_u64(b0.offset as nat) + (seq![44u8] + (ll + (dec_u64(b0.length as nat)
                    + seq![125u8])))),
                rest,
            );
        }
    }
    let p3 = match crate::jsonfmt::expect_byte(data, p2, 93) {
        Some(p) => p,
        None => {
            proof {
                assert forall|b0: PackedBlob, rest: Seq<u8>|
                    data@.skip(pos as int) == blob_json(b0) + rest implies false by {
                    assert(data@.skip(p2 as int)[0] == data@[p2 as int]);
                }
            }
            return None;
        },
    };
    let p4 = match crate::jsonfmt::expect_byte(data, p3, 44) {
        Some(p) => p,
        None => {
            proof {
                assert forall|b0: PackedBlob, rest: Seq<u8>|
                    data@.skip(pos as int) == blob_json(b0) + rest implies false by {
                    assert(data@.skip(p2 as int).len() >= 2) by {
                        assert(data@.skip(p2 as int)[0] == 93);
                    }
                    assert(data@.skip(p2 as int)[1] == data@[p2 + 1]);
                }
            }
            return None;
        },
    };
    proof {
        assert forall|b0: PackedBlob, rest: Seq<u8>|
            data@.skip(pos as int) == blob_json(b0) + rest implies data@.skip(p4 as int) == lo + ((
        dec_u64(b0.offset as nat) + (seq![44u8] + (ll + (dec_u64(b0.length as nat)
            + seq![125u8])))) + rest) by {
            let t4 = (lo + (dec_u64(b0.offset as nat) + (seq![44u8] + (ll + (dec_u64(
                b0.length as nat,
            ) + seq![125u8]))))) + rest;
            crate::jsonfmt::lemma_starts_with(data@, p2 as int, seq![93u8, 44u8], t4);
            crate::jsonfmt::lemma_add_assoc(
                lo,
                dec_u64(b0.offset as nat) + (seq![44u8] + (ll + (dec_u64(b0.length as nat)
                    + seq![125u8]))),
                rest,
            );
        }
    }
    let p5 = match crate::jsonfmt::expect(data, p4, "\"offset\":") {
        Some(p) => p,
        None => {
            proof {
                assert forall|b0: PackedBlob, rest: Seq<u8>|
                    data@.skip(pos as int) == blob_json(b0) + rest implies false by {
                    let t5 = (dec_u64(b0.offset as nat) + (seq![44u8] + (ll + (dec_u64(
                        b0.length as nat,
                    ) + seq![125u8])))) + rest;
                    crate::jsonfmt::lemma_starts_with(data@, p4 as int, lo, t5);
                }
            }
            return None;
        },
    };
    proof {
        assert forall|b0: PackedBlob, rest: Seq<u8>|
            data@.skip(pos as int) == blob_json(b0) + rest implies data@.skip(p5 as int)
            == dec_u64((b0.offset as u64) as nat) + ((seq![44u8] + (ll + (dec_u64(
            b0.length as nat,
        ) + seq![125u8]))) + rest) by {
            let t5 = (dec_u64(b0.offset as nat) + (seq![44u8] + (ll + (dec_u64(b0.length as nat)
                + seq![125u8])))) + rest;
            crate::jsonfmt::lemma_starts_with(data@, p4 as int, lo, t5);
            crate::jsonfmt::lemma_add_assoc(
                dec_u64(b0.offset as nat),
                seq![44u8] + (ll + (dec_u64(b0.length as nat) + seq![125u8])),
                rest,
            );
            assert((b0.offset as u64) as nat == b0.offset as nat);
        }
    }
    let (offset, p6) = match crate::jsonfmt::parse_u64(data, p5) {
        Some(t) => t,
        None => {
            proof {
                assert forall|b0: PackedBlob, rest: Seq<u8>|
                    data@.skip(pos as int) == blob_json(b0) + rest implies false by {
                    let t6 = (seq![44u8] + (ll + (dec_u64(b0.length as nat) + seq![125u8])))
                        + rest;
                    assert(t6[0] == 44);
                }
            }
            return None;
        },
    };
    if offset > u32::MAX as u64 {
        proof {
            assert forall|b0: PackedBlob, rest: Seq<u8>|
                data@.skip(pos as int) == blob_json(b0) + rest implies false by {
                let t6 = (seq![44u8] + (ll + (dec_u64(b0.length as nat) + seq![125u8]))) + rest;
                assert(t6[0] == 44);
                assert(offset == b0.offset as u64);
            }
        }
        return None;
    }
    proof {
        assert forall|b0: PackedBlob, rest: Seq<u8>|
            data@.skip(pos as int) == blob_json(b0) + rest implies offset == b0.offset as u64
            && data@.skip(p6 as int) == seq![44u8] + ((ll + (dec_u64(b0.length as nat)
            + seq![125u8])) + rest) by {
            let t6 = (seq![44u8] + (ll + (dec_u64(b0.length as nat) + seq![125u8]))) + rest;
            assert(t6[0] == 44);
            crate::jsonfmt::lemma_starts_with(
                data@,
                p5 as int,
                dec_u64((b0.offset as u64) as nat),
                t6,
            );
            crate::jsonfmt::lemma_add_assoc(
                seq![44u8],
                ll + (dec_u64(b0.length as nat) + seq![125u8]),
                rest,
            );
        }
    }
    let p7 = match crate::jsonfmt::expect_byte(data, p6, 44) {
        Some(p) => p,
        None => {
            proof {
                assert forall|b0: PackedBlob, rest: Seq<u8>|
                    data@.skip(pos as int) == blob_json(b0) + rest implies false by {
                    assert(data@.skip(p6 as int)[0] == data@[p6 as int]);
                }
            }
            return None;
        },
    };
    proof {
        assert forall|b0: PackedBlob, rest: Seq<u8>|
            data@.skip(pos as int) == blob_json(b0) + rest implies data@.skip(p7 as int) == ll + ((
        dec_u64(b0.length as nat) + seq![125u8]) + rest) by {
            let t7 = (ll + (dec_u64(b0.length as nat) + seq![125u8])) + rest;
            crate::jsonfmt::lemma_starts_with(data@, p6 as int, seq![44u8], t7);
            crate::jsonfmt::lemma_add_assoc(ll, dec_u64(b0.length as nat) + seq![125u8], rest);
        }
    }
    let p8 = match crate::jsonfmt::expect(data, p7, "\"length\":") {
        Some(p) => p,
        None => {
            proof {
                assert forall|b0: PackedBlob, rest: Seq<u8>|
                    data@.skip(pos as int) == blob_json(b0) + rest implies false by {
                    let t8 = (dec_u64(b0.length as nat) + seq![125u8]) + rest;
                    crate::jsonfmt::lemma_starts_with(data@, p7 as int, ll, t8);
                }
            }
            return None;
        },
    };
    proof {
        assert forall|b0: PackedBlob, rest: Seq<u8>|
            data@.skip(pos as int) == blob_json(b0) + rest implies data@.skip(p8 as int)
            == dec_u64((b0.length as u64) as nat) + (seq![125u8] + rest) by {
            let t8 = (dec_u64(b0.length as nat) + seq![125u8]) + rest;
            crate::jsonfmt::lemma_starts_with(data@, p7 as int, ll, t8);
            crate::jsonfmt::lemma_add_assoc(dec_u64(b0.length as nat), seq![125u8], rest);
            assert((b0.length as u64) as nat == b0.length as nat);
        }
    }
    let (length, p9) = match crate::jsonfmt::parse_u64(data, p8) {
        Some(t) => t,
        None => {
            proof {
                assert forall|b0: PackedBlob, rest: Seq<u8>|
                    data@.skip(pos as int) == blob_json(b0) + rest implies false by {
                    assert((seq![125u8] + rest)[0] == 125);
                }
            }
            return None;
        },
    };
    if length > u32::MAX as u64 {
        proof {
            assert forall|b0: PackedBlob, rest: Seq<u8>|
                data@.skip(pos as int) == blob_json(b0) + rest implies false by {
                assert((seq![125u8] + rest)[0] == 125);
                assert(length == b0.length as u64);
            }
        }
        return None;
    }
    proof {
        assert forall|b0: PackedBlob, rest: Seq<u8>|
            data@.skip(pos as int) == blob_json(b0) + rest implies length == b0.length as u64
            && data@.skip(p9 as int) == seq![125u8] + rest by {
            assert((seq![125u8] + rest)[0] == 125);
            crate::jsonfmt::lemma_starts_with(
                data@,
                p8 as int,
                dec_u64((b0.length as u64) as nat),
                seq![125u8] + rest,
            );
        }
    }
    let p10 = match crate::jsonfmt::expect_byte(data, p9, 125) {
        Some(p) => p,
        None => {
            proof {
                assert forall|b0: PackedBlob, rest: Seq<u8>|
                    data@.skip(pos as int) == blob_json(b0) + rest implies false by {
                    assert(data@.skip(p9 as int)[0] == data@[p9 as int]);
                }
            }
            return None;
        },
    };
    let hash = crate::crypto::to_array_32(hash_vec.as_slice());
    let b = PackedBlob { hash, offset: offset as u32, length: length as u32 };
    proof {
        assert(data@.subrange(pos as int, p0 as int) =~= seq![123u8]);
        assert(data@.subrange(p2 as int, p3 as int) =~= seq![93u8]);
        assert(data@.subrange(p3 as int, p4 as int) =~= seq![44u8]);
        assert(data@.subrange(p2 as int, p4 as int) =~= seq![93u8, 44u8]) by {
            crate::jsonfmt::lemma_subrange_compose(data@, p2 as int, p3 as int, p4 as int);
        }
        assert(data@.subrange(p6 as int, p7 as int) =~= seq![44u8]);
        assert(data@.subrange(p9 as int, p10 as int) =~= seq![125u8]);
        crate::index::lemma_cat9(
            data@,
            pos as int,
            p0 as int,
            p1 as int,
            p2 as int,
            p4 as int,
            p5 as int,
            p6 as int,
            p7 as int,
            p8 as int,
            p9 as int,
            p10 as int,
        );
        assert(data@.subrange(pos as int, p10 as int) =~= blob_json(b));
        assert forall|b0: PackedBlob, rest: Seq<u8>|
            data@.skip(pos as int) == blob_json(b0) + rest implies p10 == pos + blob_json(
            b0,
        ).len() by {
            crate::jsonfmt::lemma_starts_with(data@, p9 as int, seq![125u8], rest);
        }
    }
    Some((b, p10))
}

} // verus!
