//! The blob index: a map from chunk hash to the pack location that holds
//! the blob, persisted as JSON.

use vstd::prelude::*;

use crate::errors::Error;
use crate::hexfmt::hex_bytes_of;
use crate::jsonfmt::dec_u64;
use crate::jsonfmt::jstr;
use crate::strutil::bytes_of_str;

verus! {

/// Where a blob physically lives: pack id, offset in the pack's payload,
/// and length.
#[derive(Debug, Clone, PartialEq, Eq)]
pub struct BlobLocation {
    pub pack_id: String,
    pub offset: u32,
    pub length: u32,
}

/// The JSON text of a blob location.
pub open spec fn loc_json(l: BlobLocation) -> Seq<u8> {
    seq![123u8] + (bytes_of_str("\"pack_id\":"@) + (jstr(l.pack_id@) + (seq![44u8] + (bytes_of_str(
        "\"offset\":"@,
    ) + (dec_u64(l.offset as nat) + (seq![44u8] + (bytes_of_str("\"length\":"@) + (dec_u64(
        l.length as nat,
    ) + seq![125u8]))))))))
}

/// The JSON text of one index entry: hex hash key and location value.
pub open spec fn entry_json(h: Seq<u8>, l: BlobLocation) -> Seq<u8> {
    seq![34u8] + (hex_bytes_of(h) + (seq![34u8, 58u8] + loc_json(l)))
}

/// The JSON text of the entries from position `k` on, comma-separated.
pub open spec fn entries_json_from(s: Seq<([u8; 32], BlobLocation)>, k: int) -> Seq<u8>
    decreases s.len() - k,
{
    if k < 0 || k >= s.len() {
        Seq::empty()
    } else {
        entry_json(s[k].0@, s[k].1) + (if k + 1 < s.len() {
            seq![44u8] + entries_json_from(s, k + 1)
        } else {
            Seq::empty()
        })
    }
}

/// The JSON text of a whole index.
pub open spec fn index_json(s: Seq<([u8; 32], BlobLocation)>) -> Seq<u8> {
    bytes_of_str("{\"entries\":{"@) + (entries_json_from(s, 0) + seq![125u8, 125u8])
}

/// Extending the emitted entry list by one appends a separator (after the
/// first entry) and the new entry's text.
pub proof fn lemma_entries_json_snoc(s: Seq<([u8; 32], BlobLocation)>, k: int)
    requires
        0 <= k < s.len(),
    ensures
        entries_json_from(s.take(k + 1), 0) == entries_json_from(s.take(k), 0) + (if k > 0 {
            seq![44u8]
        } else {
            Seq::<u8>::empty()
        }) + entry_json(s[k].0@, s[k].1),
{
    lemma_entries_json_snoc_at(s, k, 0);
}

proof fn lemma_entries_json_snoc_at(s: Seq<([u8; 32], BlobLocation)>, k: int, j: int)
    requires
        0 <= j <= k < s.len(),
    ensures
        entries_json_from(s.take(k + 1), j) == entries_json_from(s.take(k), j) + (if k > j {
            seq![44u8]
        } else {
            Seq::<u8>::empty()
        }) + entry_json(s[k].0@, s[k].1),
    decreases k - j,
{
    let a = s.take(k + 1);
    let b = s.take(k);
    assert(a[j] == s[j] && a.len() == k + 1 && b.len() == k);
    if j == k {
        assert(entries_json_from(b, j) =~= Seq::<u8>::empty());
        assert(entries_json_from(a, j) == entry_json(a[j].0@, a[j].1) + Seq::<u8>::empty());
        assert(entries_json_from(a, j) =~= entries_json_from(b, j) + Seq::<u8>::empty()
            + entry_json(s[k].0@, s[k].1));
    } else {
        lemma_entries_json_snoc_at(s, k, j + 1);
        assert(b[j] == s[j]);
        assert(entries_json_from(a, j) == entry_json(s[j].0@, s[j].1) + (seq![44u8]
            + entries_json_from(a, j + 1)));
        assert(entries_json_from(b, j) == entry_json(s[j].0@, s[j].1) + (if j + 1 < k {
            seq![44u8] + entries_json_from(b, j + 1)
        } else {
            Seq::<u8>::empty()
        }));
        if j + 1 < k {
            assert(entries_json_from(a, j) =~= entries_json_from(b, j) + seq![44u8]
                + entry_json(s[k].0@, s[k].1));
        } else {
            // b ends right after entry j; a holds exactly one more entry
            assert(entries_json_from(b, j + 1) =~= Seq::<u8>::empty());
            assert(entries_json_from(a, j) =~= entries_json_from(b, j) + seq![44u8]
                + entry_json(s[k].0@, s[k].1));
        }
    }
}

/// Two entry lists carry the same hashes and locations, in order.
pub open spec fn entries_match(
    a: Seq<([u8; 32], BlobLocation)>,
    b: Seq<([u8; 32], BlobLocation)>,
) -> bool {
    a.len() == b.len() && forall|j: int|
        0 <= j < a.len() ==> (#[trigger] a[j]).0@ == b[j].0@ && a[j].1.pack_id@ == b[j].1.pack_id@
            && a[j].1.offset == b[j].1.offset && a[j].1.length == b[j].1.length
}

/// All hash keys in the entry list are distinct.
pub open spec fn keys_unique(s: Seq<([u8; 32], BlobLocation)>) -> bool {
    forall|i: int, j: int| 0 <= i < j < s.len() ==> s[i].0@ != s[j].0@
}

/// Some entry carries the hash `h`.
pub open spec fn seq_contains_hash(s: Seq<([u8; 32], BlobLocation)>, h: Seq<u8>) -> bool {
    exists|i: int| 0 <= i < s.len() && s[i].0@ == h
}

/// The location stored under hash `h`.
pub open spec fn seq_loc_of(s: Seq<([u8; 32], BlobLocation)>, h: Seq<u8>) -> BlobLocation {
    let i = choose|i: int| 0 <= i < s.len() && s[i].0@ == h;
    s[i].1
}

/// Under unique keys, the entry at position `i` is the one its hash maps to.
pub proof fn lemma_seq_loc_at(s: Seq<([u8; 32], BlobLocation)>, i: int)
    requires
        keys_unique(s),
        0 <= i < s.len(),
    ensures
        seq_contains_hash(s, s[i].0@),
        seq_loc_of(s, s[i].0@) == s[i].1,
{
    let h = s[i].0@;
    assert(0 <= i < s.len() && s[i].0@ == h);
    let j = choose|j: int| 0 <= j < s.len() && s[j].0@ == h;
    if j != i {
        assert(s[i].0@ != s[j].0@);
    }
}

proof fn lemma_push_new(s: Seq<([u8; 32], BlobLocation)>, e: ([u8; 32], BlobLocation))
    requires
        keys_unique(s),
        !seq_contains_hash(s, e.0@),
    ensures
        keys_unique(s.push(e)),
        forall|h: Seq<u8>|
            #[trigger] seq_contains_hash(s.push(e), h) <==> (seq_contains_hash(s, h) || h
                == e.0@),
        seq_loc_of(s.push(e), e.0@) == e.1,
        forall|h: Seq<u8>|
            h != e.0@ && seq_contains_hash(s, h) ==> #[trigger] seq_loc_of(s.push(e), h)
                == seq_loc_of(s, h),
{
    let t = s.push(e);
    assert(forall|i: int| 0 <= i < s.len() ==> t[i] == s[i]);
    assert(t[s.len() as int] == e);
    assert forall|i: int, j: int| 0 <= i < j < t.len() implies t[i].0@ != t[j].0@ by {
        if j == s.len() {
            assert(t[i] == s[i]);
            if s[i].0@ == e.0@ {
                assert(seq_contains_hash(s, e.0@));
            }
        }
    }
    assert forall|h: Seq<u8>|
        #[trigger] seq_contains_hash(t, h) <==> (seq_contains_hash(s, h) || h == e.0@) by {
        if seq_contains_hash(t, h) {
            let i = choose|i: int| 0 <= i < t.len() && t[i].0@ == h;
            if i < s.len() {
                assert(s[i].0@ == h);
            }
        }
        if seq_contains_hash(s, h) {
            let i = choose|i: int| 0 <= i < s.len() && s[i].0@ == h;
            assert(t[i].0@ == h);
        }
        if h == e.0@ {
            assert(t[s.len() as int].0@ == h);
        }
    }
    lemma_seq_loc_at(t, s.len() as int);
    assert forall|h: Seq<u8>|
        h != e.0@ && seq_contains_hash(s, h) implies #[trigger] seq_loc_of(t, h) == seq_loc_of(
        s,
        h,
    ) by {
        let i = choose|i: int| 0 <= i < s.len() && s[i].0@ == h;
        lemma_seq_loc_at(s, i);
        assert(t[i] == s[i]);
        lemma_seq_loc_at(t, i);
    }
}

proof fn lemma_remove_at(s: Seq<([u8; 32], BlobLocation)>, i: int)
    requires
        keys_unique(s),
        0 <= i < s.len(),
    ensures
        keys_unique(s.remove(i)),
        !seq_contains_hash(s.remove(i), s[i].0@),
        forall|h: Seq<u8>|
            h != s[i].0@ ==> (#[trigger] seq_contains_hash(s.remove(i), h) <==> seq_contains_hash(
                s,
                h,
            )),
        forall|h: Seq<u8>|
            h != s[i].0@ && seq_contains_hash(s, h) ==> #[trigger] seq_loc_of(s.remove(i), h)
                == seq_loc_of(s, h),
{
    let t = s.remove(i);
    assert(forall|j: int| 0 <= j < i ==> t[j] == s[j]);
    assert(forall|j: int| i <= j < t.len() ==> t[j] == s[j + 1]);
    assert forall|a: int, b: int| 0 <= a < b < t.len() implies t[a].0@ != t[b].0@ by {
        let a2 = if a < i { a } else { a + 1 };
        let b2 = if b < i { b } else { b + 1 };
        assert(t[a] == s[a2] && t[b] == s[b2]);
    }
    if seq_contains_hash(t, s[i].0@) {
        let j = choose|j: int| 0 <= j < t.len() && t[j].0@ == s[i].0@;
        let j2 = if j < i { j } else { j + 1 };
        assert(s[j2].0@ == s[i].0@ && j2 != i);
    }
    assert forall|h: Seq<u8>|
        h != s[i].0@ implies (#[trigger] seq_contains_hash(t, h) <==> seq_contains_hash(
        s,
        h,
    )) by {
        if seq_contains_hash(t, h) {
            let j = choose|j: int| 0 <= j < t.len() && t[j].0@ == h;
            let j2 = if j < i { j } else { j + 1 };
            assert(s[j2].0@ == h);
        }
        if seq_contains_hash(s, h) {
            let j = choose|j: int| 0 <= j < s.len() && s[j].0@ == h;
            assert(j != i);
            let j2 = if j < i { j } else { j - 1 };
            assert(t[j2].0@ == h);
        }
    }
    assert forall|h: Seq<u8>|
        h != s[i].0@ && seq_contains_hash(s, h) implies #[trigger] seq_loc_of(t, h) == seq_loc_of(
        s,
        h,
    ) by {
        let j = choose|j: int| 0 <= j < s.len() && s[j].0@ == h;
        lemma_seq_loc_at(s, j);
        assert(j != i);
        let j2 = if j < i { j } else { j - 1 };
        assert(t[j2] == s[j]);
        lemma_seq_loc_at(t, j2);
    }
}

/// The in-memory index: hash to blob location, with unique hash keys.
#[derive(Debug, Clone)]
pub struct Index {
    entries: Vec<([u8; 32], BlobLocation)>,
}

impl Index {
    /// The entries, in insertion order.
    pub closed spec fn entries_view(&self) -> Seq<([u8; 32], BlobLocation)> {
        self.entries@
    }

    /// Hash keys are distinct.
    pub open spec fn wf(&self) -> bool {
        keys_unique(self.entries_view())
    }

    /// Whether a blob with hash `h` is indexed.
    pub open spec fn contains_hash(&self, h: Seq<u8>) -> bool {
        seq_contains_hash(self.entries_view(), h)
    }

    /// The location indexed under `h`.
    pub open spec fn loc_of(&self, h: Seq<u8>) -> BlobLocation {
        seq_loc_of(self.entries_view(), h)
    }

    pub fn new() -> (r: Self)
        ensures
            r.wf(),
            r.entries_view().len() == 0,
    {
        Index { entries: Vec::new() }
    }

    /// Position of the entry holding `hash`, if any.
    #[verifier::loop_isolation(false)]
    fn find(&self, hash: &[u8; 32]) -> (r: Option<usize>)
        ensures
            r matches Some(i) ==> i < self.entries_view().len() && self.entries_view()[
                i as int
            ].0@ == hash@,
            r is None ==> !self.contains_hash(hash@),
    {
        let mut i: usize = 0;
        while i < self.entries.len()
            invariant
                i <= self.entries@.len(),
                forall|j: int| 0 <= j < i ==> self.entries@[j].0@ != hash@,
            decreases self.entries@.len() - i,
        {
            let e = &self.entries[i];
            if crate::strutil::bytes_eq(e.0.as_slice(), hash.as_slice()) {
                return Some(i);
            }
            i += 1;
        }
        None
    }

    /// Records where the blob with `hash` lives, replacing any prior entry
    /// for the same hash and leaving every other entry as it was.
    pub fn add(&mut self, hash: [u8; 32], pack_id: String, offset: u32, length: u32)
        requires
            old(self).wf(),
        ensures
            final(self).wf(),
            final(self).contains_hash(hash@),
            final(self).loc_of(hash@) == (BlobLocation { pack_id, offset, length }),
            forall|h: Seq<u8>|
                h != hash@ ==> (#[trigger] final(self).contains_hash(h) <==> old(
                    self,
                ).contains_hash(h)),
            forall|h: Seq<u8>|
                h != hash@ && old(self).contains_hash(h) ==> #[trigger] final(self).loc_of(h)
                    == old(self).loc_of(h),
            final(self).entries_view().len() <= old(self).entries_view().len() + 1,
            old(self).contains_hash(hash@) ==> final(self).entries_view().len() == old(
                self,
            ).entries_view().len(),
            !old(self).contains_hash(hash@) ==> final(self).entries_view().len() == old(
                self,
            ).entries_view().len() + 1,
            !old(self).contains_hash(hash@) ==> final(self).entries_view() == old(
                self,
            ).entries_view().push((hash, BlobLocation { pack_id, offset, length })),
    {
        let loc = BlobLocation { pack_id, offset, length };
        let ghost s0 = self.entries@;
        match self.find(&hash) {
            Some(i) => {
                proof {
                    lemma_seq_loc_at(s0, i as int);
                    lemma_remove_at(s0, i as int);
                }
                self.entries.remove(i);
                proof {
                    lemma_push_new(self.entries@, (hash, loc));
                }
                self.entries.push((hash, loc));
            },
            None => {
                proof {
                    lemma_push_new(s0, (hash, loc));
                }
                self.entries.push((hash, loc));
            },
        }
    }

    /// Whether the blob with `hash` is already stored: the dedup probe.
    pub fn contains(&self, hash: &[u8; 32]) -> (r: bool)
        ensures
            r == self.contains_hash(hash@),
    {
        match self.find(hash) {
            Some(i) => {
                proof {
                    assert(seq_contains_hash(self.entries_view(), hash@));
                }
                true
            },
            None => false,
        }
    }

    /// The location of the blob with `hash`, if indexed.
    pub fn lookup(&self, hash: &[u8; 32]) -> (r: Option<&BlobLocation>)
        requires
            self.wf(),
        ensures
            r is Some <==> self.contains_hash(hash@),
            r matches Some(l) ==> *l == self.loc_of(hash@),
    {
        match self.find(hash) {
            Some(i) => {
                proof {
                    lemma_seq_loc_at(self.entries_view(), i as int);
                }
                Some(&self.entries[i].1)
            },
            None => None,
        }
    }

    /// The entry at position `i`, in insertion order.
    pub fn entry_at(&self, i: usize) -> (r: &([u8; 32], BlobLocation))
        requires
            i < self.entries_view().len(),
        ensures
            *r == self.entries_view()[i as int],
    {
        &self.entries[i]
    }

    /// The number of indexed blobs.
    pub fn len(&self) -> (r: usize)
        ensures
            r == self.entries_view().len(),
    {
        self.entries.len()
    }

    pub fn is_empty(&self) -> (r: bool)
        ensures
            r == (self.entries_view().len() == 0),
    {
        self.entries.is_empty()
    }

    /// Serializes the index as its canonical JSON text.
    #[verifier::loop_isolation(false)]
    pub fn to_bytes(&self) -> (r: Result<Vec<u8>, Error>)
        ensures
            r matches Ok(b) && b@ == index_json(self.entries_view()),
    {
        let mut out: Vec<u8> = Vec::new();
        crate::jsonfmt::emit_lit(&mut out, "{\"entries\":{");
        let ghost hdr = out@;
        let mut k: usize = 0;
        proof {
            assert(self.entries@.take(0).len() == 0);
            assert(entries_json_from(self.entries@.take(0), 0) =~= Seq::<u8>::empty());
            assert(out@ =~= hdr + entries_json_from(self.entries@.take(0), 0));
        }
        while k < self.entries.len()
            invariant
                k <= self.entries@.len(),
                out@ == hdr + entries_json_from(self.entries@.take(k as int), 0),
            decreases self.entries@.len() - k,
        {
            if k > 0 {
                out.push(44);
            }
            let e = &self.entries[k];
            out.push(34);
            crate::hexfmt::emit_hex(&mut out, e.0.as_slice());
            out.push(34);
            out.push(58);
            emit_loc(&mut out, &e.1);
            proof {
                lemma_entries_json_snoc(self.entries@, k as int);
                assert(entry_json(e.0@, e.1) =~= seq![34u8] + (hex_bytes_of(e.0@) + (seq![
                    34u8,
                    58u8,
                ] + loc_json(e.1))));
                assert(out@ =~= hdr + entries_json_from(self.entries@.take(k + 1), 0));
            }
            k += 1;
        }
        out.push(125);
        out.push(125);
        proof {
            assert(self.entries@.take(self.entries@.len() as int) =~= self.entries@);
            assert(out@ =~= index_json(self.entries_view()));
        }
        Ok(out)
    }

    /// Parses an index from bytes: whatever comes back is well formed and
    /// re-serializes to exactly the bytes read, and the canonical text of
    /// any unique-keyed index is read back as that index.
    pub fn from_bytes(data: &[u8]) -> (r: Result<Self, Error>)
        ensures
            r matches Ok(idx) ==> idx.wf() && index_json(idx.entries_view()) == data@,
            forall|s0: Seq<([u8; 32], BlobLocation)>|
                data@ == #[trigger] index_json(s0) && keys_unique(s0) ==> (r matches Ok(idx)
                    && entries_match(idx.entries_view(), s0)),
            r matches Err(e) ==> e == Error::Parse,
    {
        let v = vstd::slice::slice_to_vec(data);
        match parse_index(&v) {
            Some(idx) => Ok(idx),
            None => {
                proof {
                    assert forall|s0: Seq<([u8; 32], BlobLocation)>|
                        data@ == index_json(s0) && keys_unique(s0) implies false by {}
                }
                Err(Error::Parse)
            },
        }
    }
}

/// Appends the JSON text of a blob location.
pub fn emit_loc(out: &mut Vec<u8>, l: &BlobLocation)
    ensures
        final(out)@ == old(out)@ + loc_json(*l),
{
    out.push(123);
    crate::jsonfmt::emit_lit(out, "\"pack_id\":");
    crate::jsonfmt::emit_jstr(out, l.pack_id.as_str());
    out.push(44);
    crate::jsonfmt::emit_lit(out, "\"offset\":");
    crate::jsonfmt::emit_u64(out, l.offset as u64);
    out.push(44);
    crate::jsonfmt::emit_lit(out, "\"length\":");
    crate::jsonfmt::emit_u64(out, l.length as u64);
    out.push(125);
    proof {
        assert(out@ =~= old(out)@ + loc_json(*l));
    }
}

/// Parses a blob location: on success the consumed bytes are exactly the
/// location's JSON text, and the text of any location is accepted.
#[verifier::loop_isolation(false)]
#[verifier::rlimit(100)]
pub fn parse_loc(data: &Vec<u8>, pos: usize) -> (r: Option<(BlobLocation, usize)>)
    requires
        pos <= data@.len(),
    ensures
        r matches Some((l, p)) ==> pos <= p <= data@.len() && data@.subrange(pos as int, p as int)
            == loc_json(l),
        forall|l0: BlobLocation, rest: Seq<u8>|
            #![trigger loc_json(l0) + rest]
            data@.skip(pos as int) == loc_json(l0) + rest ==> (r matches Some((l, p)) && l.pack_id@
                == l0.pack_id@ && l.offset == l0.offset && l.length == l0.length && p == pos
                + loc_json(l0).len()),
{
    let ghost la = bytes_of_str("\"pack_id\":"@);
    let ghost lb = bytes_of_str("\"offset\":"@);
    let ghost lc = bytes_of_str("\"length\":"@);
    let ghost tail_of = |l0: BlobLocation| la + (jstr(l0.pack_id@) + (seq![44u8] + (lb + (dec_u64(
        l0.offset as nat,
    ) + (seq![44u8] + (lc + (dec_u64(l0.length as nat) + seq![125u8])))))));
    let p0 = match crate::jsonfmt::expect_byte(data, pos, 123) {
        Some(p) => p,
        None => {
            proof {
                assert forall|l0: BlobLocation, rest: Seq<u8>|
                    data@.skip(pos as int) == loc_json(l0) + rest implies false by {
                    crate::jsonfmt::lemma_add_assoc(seq![123u8], tail_of(l0), rest);
                    crate::jsonfmt::lemma_starts_with(
                        data@,
                        pos as int,
                        seq![123u8],
                        tail_of(l0) + rest,
                    );
                    assert(data@.skip(pos as int)[0] == data@[pos as int]);
                }
            }
            return None;
        },
    };
    proof {
        assert forall|l0: BlobLocation, rest: Seq<u8>|
            data@.skip(pos as int) == loc_json(l0) + rest implies data@.skip(p0 as int) == tail_of(
            l0,
        ) + rest by {
            crate::jsonfmt::lemma_add_assoc(seq![123u8], tail_of(l0), rest);
            crate::jsonfmt::lemma_starts_with(data@, pos as int, seq![123u8], tail_of(l0) + rest);
        }
    }
    let p1 = match crate::jsonfmt::expect(data, p0, "\"pack_id\":") {
        Some(p) => p,
        None => {
            proof {
                assert forall|l0: BlobLocation, rest: Seq<u8>|
                    data@.skip(pos as int) == loc_json(l0) + rest implies false by {
                    let t = jstr(l0.pack_id@) + (seq![44u8] + (lb + (dec_u64(l0.offset as nat) + (
                    seq![44u8] + (lc + (dec_u64(l0.length as nat) + seq![125u8]))))));
                    crate::jsonfmt::lemma_add_assoc(la, t, rest);
                    crate::jsonfmt::lemma_starts_with(data@, p0 as int, la, t + rest);
                }
            }
            return None;
        },
    };
    proof {
        assert forall|l0: BlobLocation, rest: Seq<u8>|
            data@.skip(pos as int) == loc_json(l0) + rest implies data@.skip(p1 as int) == jstr(
            l0.pack_id@,
        ) + ((seq![44u8] + (lb + (dec_u64(l0.offset as nat) + (seq![44u8] + (lc + (dec_u64(
            l0.length as nat,
        ) + seq![125u8])))))) + rest) by {
            let t = jstr(l0.pack_id@) + (seq![44u8] + (lb + (dec_u64(l0.offset as nat) + (
            seq![44u8] + (lc + (dec_u64(l0.length as nat) + seq![125u8]))))));
            crate::jsonfmt::lemma_add_assoc(la, t, rest);
            crate::jsonfmt::lemma_starts_with(data@, p0 as int, la, t + rest);
            crate::jsonfmt::lemma_add_assoc(
                jstr(l0.pack_id@),
                seq![44u8] + (lb + (dec_u64(l0.offset as nat) + (seq![44u8] + (lc + (dec_u64(
                    l0.length as nat,
                ) + seq![125u8]))))),
                rest,
            );
        }
    }
    let (pack_id, p2) = match crate::jsonfmt::parse_string(data, p1) {
        Some(t) => t,
        None => {
            proof {
                assert forall|l0: BlobLocation, rest: Seq<u8>|
                    data@.skip(pos as int) == loc_json(l0) + rest implies false by {
                    assert(data@.skip(p1 as int) == jstr(l0.pack_id@) + ((seq![44u8] + (lb + (
                    dec_u64(l0.offset as nat) + (seq![44u8] + (lc + (dec_u64(l0.length as nat)
                        + seq![125u8])))))) + rest));
                }
            }
            return None;
        },
    };
    proof {
        assert forall|l0: BlobLocation, rest: Seq<u8>|
            data@.skip(pos as int) == loc_json(l0) + rest implies pack_id@ == l0.pack_id@
            && data@.skip(p2 as int) == seq![44u8] + ((lb + (dec_u64(l0.offset as nat) + (
        seq![44u8] + (lc + (dec_u64(l0.length as nat) + seq![125u8]))))) + rest) by {
            let t = (seq![44u8] + (lb + (dec_u64(l0.offset as nat) + (seq![44u8] + (lc + (dec_u64(
                l0.length as nat,
            ) + seq![125u8])))))) + rest;
            crate::jsonfmt::lemma_starts_with(data@, p1 as int, jstr(l0.pack_id@), t);
            crate::jsonfmt::lemma_add_assoc(
                seq![44u8],
                lb + (dec_u64(l0.offset as nat) + (seq![44u8] + (lc + (dec_u64(l0.length as nat)
                    + seq![125u8])))),
                rest,
            );
        }
    }
    let p3 = match crate::jsonfmt::expect_byte(data, p2, 44) {
        Some(p) => p,
        None => {
            proof {
                assert forall|l0: BlobLocation, rest: Seq<u8>|
                    data@.skip(pos as int) == loc_json(l0) + rest implies false by {
                    assert(data@.skip(p2 as int)[0] == data@[p2 as int]);
                }
            }
            return None;
        },
    };
    proof {
        assert forall|l0: BlobLocation, rest: Seq<u8>|
            data@.skip(pos as int) == loc_json(l0) + rest implies data@.skip(p3 as int) == lb + ((
        dec_u64(l0.offset as nat) + (seq![44u8] + (lc + (dec_u64(l0.length as nat)
            + seq![125u8])))) + rest) by {
            let t = (lb + (dec_u64(l0.offset as nat) + (seq![44u8] + (lc + (dec_u64(
                l0.length as nat,
            ) + seq![125u8]))))) + rest;
            crate::jsonfmt::lemma_starts_with(data@, p2 as int, seq![44u8], t);
            crate::jsonfmt::lemma_add_assoc(
                lb,
                dec_u64(l0.offset as nat) + (seq![44u8] + (lc + (dec_u64(l0.length as nat)
                    + seq![125u8]))),
                rest,
            );
        }
    }
    let p4 = match crate::jsonfmt::expect(data, p3, "\"offset\":") {
        Some(p) => p,
        None => {
            proof {
                assert forall|l0: BlobLocation, rest: Seq<u8>|
                    data@.skip(pos as int) == loc_json(l0) + rest implies false by {
                    let t = (dec_u64(l0.offset as nat) + (seq![44u8] + (lc + (dec_u64(
                        l0.length as nat,
                    ) + seq![125u8])))) + rest;
                    crate::jsonfmt::lemma_starts_with(data@, p3 as int, lb, t);
                }
            }
            return None;
        },
    };
    proof {
        assert forall|l0: BlobLocation, rest: Seq<u8>|
            data@.skip(pos as int) == loc_json(l0) + rest implies data@.skip(p4 as int) == dec_u64(
            (l0.offset as u64) as nat,
        ) + ((seq![44u8] + (lc + (dec_u64(l0.length as nat) + seq![125u8]))) + rest) by {
            let t = (dec_u64(l0.offset as nat) + (seq![44u8] + (lc + (dec_u64(l0.length as nat)
                + seq![125u8])))) + rest;
            crate::jsonfmt::lemma_starts_with(data@, p3 as int, lb, t);
            crate::jsonfmt::lemma_add_assoc(
                dec_u64(l0.offset as nat),
                seq![44u8] + (lc + (dec_u64(l0.length as nat) + seq![125u8])),
                rest,
            );
            assert((l0.offset as u64) as nat == l0.offset as nat);
        }
    }
    let (offset, p5) = match crate::jsonfmt::parse_u64(data, p4) {
        Some(t) => t,
        None => {
            proof {
                assert forall|l0: BlobLocation, rest: Seq<u8>|
                    data@.skip(pos as int) == loc_json(l0) + rest implies false by {
                    let t = (seq![44u8] + (lc + (dec_u64(l0.length as nat) + seq![125u8]))) + rest;
                    assert(t[0] == 44);
                }
            }
            return None;
        },
    };
    if offset > u32::MAX as u64 {
        proof {
            assert forall|l0: BlobLocation, rest: Seq<u8>|
                data@.skip(pos as int) == loc_json(l0) + rest implies false by {
                let t = (seq![44u8] + (lc + (dec_u64(l0.length as nat) + seq![125u8]))) + rest;
                assert(t[0] == 44);
                assert(offset == l0.offset as u64);
            }
        }
        return None;
    }
    proof {
        assert forall|l0: BlobLocation, rest: Seq<u8>|
            data@.skip(pos as int) == loc_json(l0) + rest implies offset == l0.offset as u64
            && data@.skip(p5 as int) == seq![44u8] + ((lc + (dec_u64(l0.length as nat)
            + seq![125u8])) + rest) by {
            let t = (seq![44u8] + (lc + (dec_u64(l0.length as nat) + seq![125u8]))) + rest;
            assert(t[0] == 44);
            crate::jsonfmt::lemma_starts_with(
                data@,
                p4 as int,
                dec_u64((l0.offset as u64) as nat),
                t,
            );
            crate::jsonfmt::lemma_add_assoc(
                seq![44u8],
                lc + (dec_u64(l0.length as nat) + seq![125u8]),
                rest,
            );
        }
    }
    let p6 = match crate::jsonfmt::expect_byte(data, p5, 44) {
        Some(p) => p,
        None => {
            proof {
                assert forall|l0: BlobLocation, rest: Seq<u8>|
                    data@.skip(pos as int) == loc_json(l0) + rest implies false by {
                    assert(data@.skip(p5 as int)[0] == data@[p5 as int]);
                }
            }
            return None;
        },
    };
    proof {
        assert forall|l0: BlobLocation, rest: Seq<u8>|
            data@.skip(pos as int) == loc_json(l0) + rest implies data@.skip(p6 as int) == lc + ((
        dec_u64(l0.length as nat) + seq![125u8]) + rest) by {
            let t = (lc + (dec_u64(l0.length as nat) + seq![125u8])) + rest;
            crate::jsonfmt::lemma_starts_with(data@, p5 as int, seq![44u8], t);
            crate::jsonfmt::lemma_add_assoc(lc, dec_u64(l0.length as nat) + seq![125u8], rest);
        }
    }
    let p7 = match crate::jsonfmt::expect(data, p6, "\"length\":") {
        Some(p) => p,
        None => {
            proof {
                assert forall|l0: BlobLocation, rest: Seq<u8>|
                    data@.skip(pos as int) == loc_json(l0) + rest implies false by {
                    let t = (dec_u64(l0.length as nat) + seq![125u8]) + rest;
                    crate::jsonfmt::lemma_starts_with(data@, p6 as int, lc, t);
                }
            }
            return None;
        },
    };
    proof {
        assert forall|l0: BlobLocation, rest: Seq<u8>|
            data@.skip(pos as int) == loc_json(l0) + rest implies data@.skip(p7 as int) == dec_u64(
            (l0.length as u64) as nat,
        ) + (seq![125u8] + rest) by {
            let t = (dec_u64(l0.length as nat) + seq![125u8]) + rest;
            crate::jsonfmt::lemma_starts_with(data@, p6 as int, lc, t);
            crate::jsonfmt::lemma_add_assoc(dec_u64(l0.length as nat), seq![125u8], rest);
            assert((l0.length as u64) as nat == l0.length as nat);
        }
    }
    let (length, p8) = match crate::jsonfmt::parse_u64(data, p7) {
        Some(t) => t,
        None => {
            proof {
                assert forall|l0: BlobLocation, rest: Seq<u8>|
                    data@.skip(pos as int) == loc_json(l0) + rest implies false by {
                    assert((seq![125u8] + rest)[0] == 125);
                }
            }
            return None;
        },
    };
    if length > u32::MAX as u64 {
        proof {
            assert forall|l0: BlobLocation, rest: Seq<u8>|
                data@.skip(pos as int) == loc_json(l0) + rest implies false by {
                assert((seq![125u8] + rest)[0] == 125);
                assert(length == l0.length as u64);
            }
        }
        return None;
    }
    proof {
        assert forall|l0: BlobLocation, rest: Seq<u8>|
            data@.skip(pos as int) == loc_json(l0) + rest implies length == l0.length as u64
            && data@.skip(p8 as int) == seq![125u8] + rest by {
            assert((seq![125u8] + rest)[0] == 125);
            crate::jsonfmt::lemma_starts_with(
                data@,
                p7 as int,
                dec_u64((l0.length as u64) as nat),
                seq![125u8] + rest,
            );
        }
    }
    let p9 = match crate::jsonfmt::expect_byte(data, p8, 125) {
        Some(p) => p,
        None => {
            proof {
                assert forall|l0: BlobLocation, rest: Seq<u8>|
                    data@.skip(pos as int) == loc_json(l0) + rest implies false by {
                    assert(data@.skip(p8 as int)[0] == data@[p8 as int]);
                }
            }
            return None;
        },
    };
    let l = BlobLocation { pack_id, offset: offset as u32, length: length as u32 };
    proof {
        assert(data@.subrange(pos as int, p0 as int) =~= seq![123u8]);
        assert(data@.subrange(p2 as int, p3 as int) =~= seq![44u8]);
        assert(data@.subrange(p5 as int, p6 as int) =~= seq![44u8]);
        assert(data@.subrange(p8 as int, p9 as int) =~= seq![125u8]);
        lemma_cat9(
            data@,
            pos as int,
            p0 as int,
            p1 as int,
            p2 as int,
            p3 as int,
            p4 as int,
            p5 as int,
            p6 as int,
            p7 as int,
            p8 as int,
            p9 as int,
        );
        assert(data@.subrange(pos as int, p9 as int) =~= loc_json(l));
        assert forall|l0: BlobLocation, rest: Seq<u8>|
            data@.skip(pos as int) == loc_json(l0) + rest implies p9 == pos + loc_json(
            l0,
        ).len() by {
            crate::jsonfmt::lemma_starts_with(data@, p8 as int, seq![125u8], rest);
        }
    }
    Some((l, p9))
}

/// Stitches ten consecutive consumed pieces into one subrange.
pub proof fn lemma_cat9(
    s: Seq<u8>,
    a0: int,
    a1: int,
    a2: int,
    a3: int,
    a4: int,
    a5: int,
    a6: int,
    a7: int,
    a8: int,
    a9: int,
    a10: int,
)
    requires
        0 <= a0 <= a1 <= a2 <= a3 <= a4 <= a5 <= a6 <= a7 <= a8 <= a9 <= a10 <= s.len(),
    ensures
        s.subrange(a0, a10) == s.subrange(a0, a1) + (s.subrange(a1, a2) + (s.subrange(a2, a3) + (
        s.subrange(a3, a4) + (s.subrange(a4, a5) + (s.subrange(a5, a6) + (s.subrange(a6, a7) + (
        s.subrange(a7, a8) + (s.subrange(a8, a9) + s.subrange(a9, a10))))))))),
{
    assert(s.subrange(a0, a10) =~= s.subrange(a0, a1) + (s.subrange(a1, a2) + (s.subrange(a2, a3)
        + (s.subrange(a3, a4) + (s.subrange(a4, a5) + (s.subrange(a5, a6) + (s.subrange(a6, a7) + (
    s.subrange(a7, a8) + (s.subrange(a8, a9) + s.subrange(a9, a10))))))))));
}

/// Parses a whole index document: whatever comes back re-serializes to
/// exactly the bytes read, and the canonical text of any unique-keyed
/// index is accepted.
#[verifier::loop_isolation(false)]
#[verifier::rlimit(100)]
fn parse_index(data: &Vec<u8>) -> (r: Option<Index>)
    ensures
        r matches Some(idx) ==> idx.wf() && index_json(idx.entries_view()) == data@,
        forall|s0: Seq<([u8; 32], BlobLocation)>|
            data@ == #[trigger] index_json(s0) && keys_unique(s0) ==> (r matches Some(idx)
                && entries_match(idx.entries_view(), s0)),
{
    let ghost hdr = bytes_of_str("{\"entries\":{"@);
    let ghost closer = seq![125u8, 125u8];
    let p0 = match crate::jsonfmt::expect(data, 0, "{\"entries\":{") {
        Some(p) => p,
        None => {
            proof {
                assert forall|s0: Seq<([u8; 32], BlobLocation)>|
                    data@ == index_json(s0) && keys_unique(s0) implies false by {
                    assert(data@.skip(0) =~= data@);
                    crate::jsonfmt::lemma_starts_with(data@, 0, hdr, entries_json_from(s0, 0)
                        + closer);
                }
            }
            return None;
        },
    };
    proof {
        assert forall|s0: Seq<([u8; 32], BlobLocation)>|
            data@ == index_json(s0) && keys_unique(s0) implies p0 == hdr.len() && data@.skip(
            p0 as int,
        ) == entries_json_from(s0, 0) + closer by {
            assert(data@.skip(0) =~= data@);
            crate::jsonfmt::lemma_starts_with(data@, 0, hdr, entries_json_from(s0, 0) + closer);
        }
    }
    let mut idx = Index::new();
    let mut cur = p0;
    let mut first = true;
    let ghost hdr_len = p0 as int;
    while cur < data.len()
        invariant
            hdr_len <= cur <= data@.len(),
            data@.subrange(0, hdr_len) == bytes_of_str("{\"entries\":{"@),
            idx.wf(),
            first <==> idx.entries_view().len() == 0,
            first ==> cur == hdr_len,
            data@.subrange(hdr_len, cur as int) == entries_json_from(idx.entries_view(), 0),
            forall|s0: Seq<([u8; 32], BlobLocation)>|
                data@ == #[trigger] index_json(s0) && keys_unique(s0) ==> {
                    let k = idx.entries_view().len() as int;
                    &&& k <= s0.len()
                    &&& entries_match(idx.entries_view(), s0.take(k))
                    &&& (k == s0.len() ==> data@.skip(cur as int) == closer)
                    &&& (k < s0.len() && k == 0 ==> data@.skip(cur as int) == entries_json_from(
                        s0,
                        0,
                    ) + closer)
                    &&& (k < s0.len() && k > 0 ==> data@.skip(cur as int) == seq![44u8] + (
                    entries_json_from(s0, k) + closer))
                },
        decreases data@.len() - cur,
    {
        let ghost k0 = idx.entries_view().len() as int;
        proof {
            assert forall|s0: Seq<([u8; 32], BlobLocation)>|
                data@ == index_json(s0) && keys_unique(s0) && k0 < s0.len() implies data@.skip(
                cur as int,
            )[0] != 125 && (k0 > 0 ==> data@.skip(cur as int)[0] == 44) && (k0 == 0
                ==> data@.skip(cur as int)[0] == 34) by {
                lemma_entry_head(s0, k0);
                if k0 == 0 {
                    assert((entries_json_from(s0, 0) + closer)[0] == entries_json_from(s0, 0)[0]);
                } else {
                    assert((seq![44u8] + (entries_json_from(s0, k0) + closer))[0] == 44);
                }
            }
        }
        if data[cur] == 125 {
            // closing brace of the entries object, then of the document
            if data.len() - cur != 2 {
                proof {
                    assert forall|s0: Seq<([u8; 32], BlobLocation)>|
                        data@ == index_json(s0) && keys_unique(s0) implies false by {
                        assert(data@.skip(cur as int)[0] == data@[cur as int]);
                        assert(data@.skip(cur as int) == closer);
                        assert(data@.skip(cur as int).len() == 2);
                    }
                }
                return None;
            }
            if data[cur + 1] != 125 {
                proof {
                    assert forall|s0: Seq<([u8; 32], BlobLocation)>|
                        data@ == index_json(s0) && keys_unique(s0) implies false by {
                        assert(data@.skip(cur as int)[0] == data@[cur as int]);
                        assert(data@.skip(cur as int) == closer);
                        assert(data@.skip(cur as int)[1] == data@[cur + 1]);
                    }
                }
                return None;
            }
            proof {
                assert(data@.subrange(cur as int, cur + 2) =~= seq![125u8, 125u8]);
                crate::jsonfmt::lemma_subrange_compose(data@, hdr_len, cur as int, cur + 2);
                crate::jsonfmt::lemma_subrange_compose(data@, 0, hdr_len, data@.len() as int);
                assert(data@.subrange(0, data@.len() as int) =~= data@);
                assert(data@ =~= index_json(idx.entries_view()));
                assert forall|s0: Seq<([u8; 32], BlobLocation)>|
                    data@ == index_json(s0) && keys_unique(s0) implies entries_match(
                    idx.entries_view(),
                    s0,
                ) by {
                    assert(data@.skip(cur as int)[0] == data@[cur as int]);
                    assert(idx.entries_view().len() == s0.len());
                    assert(s0.take(s0.len() as int) =~= s0);
                }
            }
            return Some(idx);
        }
        proof {
            assert forall|s0: Seq<([u8; 32], BlobLocation)>|
                data@ == index_json(s0) && keys_unique(s0) implies k0 < s0.len() && data@.skip(
                cur as int,
            ).skip(if k0 > 0 { 1int } else { 0int }) == entries_json_from(s0, k0) + closer by {
                if k0 == s0.len() {
                    assert(data@.skip(cur as int)[0] == data@[cur as int]);
                    assert(data@.skip(cur as int) == closer);
                }
                if k0 > 0 {
                    crate::jsonfmt::lemma_starts_with(
                        data@,
                        cur as int,
                        seq![44u8],
                        entries_json_from(s0, k0) + closer,
                    );
                    assert(data@.skip(cur as int).skip(1) =~= data@.skip(cur + 1));
                    assert(data@.skip(cur + 1) == entries_json_from(s0, k0) + closer);
                    assert(data@.skip(cur as int).skip(1int) == entries_json_from(s0, k0)
                        + closer);
                } else {
                    assert(data@.skip(cur as int).skip(0int) =~= data@.skip(cur as int));
                }
            }
        }
        let pstart = if first {
            cur
        } else {
            match crate::jsonfmt::expect_byte(data, cur, 44) {
                Some(p) => p,
                None => {
                    proof {
                        assert forall|s0: Seq<([u8; 32], BlobLocation)>|
                            data@ == index_json(s0) && keys_unique(s0) implies false by {
                            assert(data@.skip(cur as int)[0] == data@[cur as int]);
                        }
                    }
                    return None;
                },
            }
        };
        proof {
            assert forall|s0: Seq<([u8; 32], BlobLocation)>|
                data@ == index_json(s0) && keys_unique(s0) implies data@.skip(pstart as int)
                == entry_json(s0[k0].0@, s0[k0].1) + (entry_sep(s0, k0) + closer) by {
                assert(data@.skip(pstart as int) == entries_json_from(s0, k0) + closer) by {
                    if k0 > 0 {
                        assert(data@.skip(cur as int).skip(1int) =~= data@.skip(pstart as int));
                    } else {
                        assert(data@.skip(cur as int).skip(0int) =~= data@.skip(pstart as int));
                    }
                }
                assert(entries_json_from(s0, k0) == entry_json(s0[k0].0@, s0[k0].1) + entry_sep(
                    s0,
                    k0,
                ));
                crate::jsonfmt::lemma_add_assoc(
                    entry_json(s0[k0].0@, s0[k0].1),
                    entry_sep(s0, k0),
                    closer,
                );
            }
        }
        let q0 = match crate::jsonfmt::expect_byte(data, pstart, 34) {
            Some(p) => p,
            None => {
                proof {
                    assert forall|s0: Seq<([u8; 32], BlobLocation)>|
                        data@ == index_json(s0) && keys_unique(s0) implies false by {
                        lemma_entry_head(s0, k0);
                        assert(data@.skip(pstart as int)[0] == data@[pstart as int]);
                    }
                }
                return None;
            },
        };
        proof {
            assert forall|s0: Seq<([u8; 32], BlobLocation)>|
                data@ == index_json(s0) && keys_unique(s0) implies data@.skip(q0 as int)
                == hex_bytes_of(s0[k0].0@) + ((seq![34u8, 58u8] + loc_json(s0[k0].1)) + (
            entry_sep(s0, k0) + closer)) by {
                let t = (hex_bytes_of(s0[k0].0@) + (seq![34u8, 58u8] + loc_json(s0[k0].1)))
                    + (entry_sep(s0, k0) + closer);
                crate::jsonfmt::lemma_add_assoc(
                    seq![34u8],
                    hex_bytes_of(s0[k0].0@) + (seq![34u8, 58u8] + loc_json(s0[k0].1)),
                    entry_sep(s0, k0) + closer,
                );
                crate::jsonfmt::lemma_starts_with(
                    data@,
                    pstart as int,
                    seq![34u8],
                    hex_bytes_of(s0[k0].0@) + (seq![34u8, 58u8] + loc_json(s0[k0].1)) + (
                    entry_sep(s0, k0) + closer),
                );
                crate::jsonfmt::lemma_add_assoc(
                    hex_bytes_of(s0[k0].0@),
                    seq![34u8, 58u8] + loc_json(s0[k0].1),
                    entry_sep(s0, k0) + closer,
                );
            }
        }
        let hash_vec = match crate::hexfmt::parse_hex(data, q0, 32) {
            Some(v) => v,
            None => {
                proof {
                    assert forall|s0: Seq<([u8; 32], BlobLocation)>|
                        data@ == index_json(s0) && keys_unique(s0) implies false by {
                        assert(s0[k0].0@.len() == 32);
                    }
                }
                return None;
            },
        };
        let q1 = q0 + 64;
        proof {
            assert forall|s0: Seq<([u8; 32], BlobLocation)>|
                data@ == index_json(s0) && keys_unique(s0) implies hash_vec@ == s0[k0].0@
                && data@.skip(q1 as int) == seq![34u8, 58u8] + (loc_json(s0[k0].1) + (entry_sep(
                s0,
                k0,
            ) + closer)) by {
                assert(s0[k0].0@.len() == 32);
                crate::hexfmt::lemma_hex_bytes_len(s0[k0].0@);
                crate::jsonfmt::lemma_starts_with(
                    data@,
                    q0 as int,
                    hex_bytes_of(s0[k0].0@),
                    (seq![34u8, 58u8] + loc_json(s0[k0].1)) + (entry_sep(s0, k0) + closer),
                );
                crate::jsonfmt::lemma_add_assoc(
                    seq![34u8, 58u8],
                    loc_json(s0[k0].1),
                    entry_sep(s0, k0) + closer,
                );
            }
        }
        let q2 = match crate::jsonfmt::expect_byte(data, q1, 34) {
            Some(p) => p,
            None => {
                proof {
                    assert forall|s0: Seq<([u8; 32], BlobLocation)>|
                        data@ == index_json(s0) && keys_unique(s0) implies false by {
                        assert(data@.skip(q1 as int)[0] == data@[q1 as int]);
                    }
                }
                return None;
            },
        };
        let q3 = match crate::jsonfmt::expect_byte(data, q2, 58) {
            Some(p) => p,
            None => {
                proof {
                    assert forall|s0: Seq<([u8; 32], BlobLocation)>|
                        data@ == index_json(s0) && keys_unique(s0) implies false by {
                        assert(data@.skip(q1 as int)[1] == data@[q1 + 1]);
                    }
                }
                return None;
            },
        };
        proof {
            assert forall|s0: Seq<([u8; 32], BlobLocation)>|
                data@ == index_json(s0) && keys_unique(s0) implies data@.skip(q3 as int)
                == loc_json(s0[k0].1) + (entry_sep(s0, k0) + closer) by {
                crate::jsonfmt::lemma_starts_with(
                    data@,
                    q1 as int,
                    seq![34u8, 58u8],
                    loc_json(s0[k0].1) + (entry_sep(s0, k0) + closer),
                );
            }
        }
        let (loc, q4) = match parse_loc(data, q3) {
            Some(t) => t,
            None => {
                proof {
                    assert forall|s0: Seq<([u8; 32], BlobLocation)>|
                        data@ == index_json(s0) && keys_unique(s0) implies false by {
                        assert(data@.skip(q3 as int) == loc_json(s0[k0].1) + (entry_sep(s0, k0)
                            + closer));
                    }
                }
                return None;
            },
        };
        let hash = crate::crypto::to_array_32(hash_vec.as_slice());
        if idx.contains(&hash) {
            // duplicate keys never stand in canonical text
            proof {
                assert forall|s0: Seq<([u8; 32], BlobLocation)>|
                    data@ == index_json(s0) && keys_unique(s0) implies false by {
                    assert(hash@ == s0[k0].0@);
                    let j = choose|j: int|
                        0 <= j < idx.entries_view().len() && idx.entries_view()[j].0@ == hash@;
                    assert(s0.take(k0)[j].0@ == s0[j].0@);
                }
            }
            return None;
        }
        let ghost old_entries = idx.entries_view();
        let ghost ge = (hash, loc);
        let BlobLocation { pack_id, offset, length } = loc;
        idx.add(hash, pack_id, offset, length);
        proof {
            let e = ge;
            assert(idx.entries_view() =~= old_entries.push(e));
            assert(idx.entries_view().take(old_entries.len() as int) =~= old_entries);
            lemma_entries_json_snoc(idx.entries_view(), old_entries.len() as int);
            assert(idx.entries_view().take(idx.entries_view().len() as int)
                =~= idx.entries_view());
            assert(data@.subrange(pstart as int, q4 as int) =~= entry_json(hash@, e.1)) by {
                lemma_cat9(
                    data@,
                    pstart as int,
                    q0 as int,
                    q1 as int,
                    q2 as int,
                    q3 as int,
                    q4 as int,
                    q4 as int,
                    q4 as int,
                    q4 as int,
                    q4 as int,
                    q4 as int,
                );
                assert(data@.subrange(q1 as int, q2 as int) =~= seq![34u8]);
                assert(data@.subrange(q2 as int, q3 as int) =~= seq![58u8]);
            }
            if first {
                assert(data@.subrange(hdr_len, q4 as int) =~= entries_json_from(
                    idx.entries_view(),
                    0,
                ));
            } else {
                crate::jsonfmt::lemma_subrange_compose(data@, hdr_len, cur as int, q4 as int);
                crate::jsonfmt::lemma_subrange_compose(data@, cur as int, pstart as int, q4 as int);
                assert(data@.subrange(cur as int, pstart as int) =~= seq![44u8]);
                assert(data@.subrange(hdr_len, q4 as int) =~= entries_json_from(
                    idx.entries_view(),
                    0,
                ));
            }
            assert forall|s0: Seq<([u8; 32], BlobLocation)>|
                data@ == index_json(s0) && keys_unique(s0) implies {
                let k = idx.entries_view().len() as int;
                &&& k <= s0.len()
                &&& entries_match(idx.entries_view(), s0.take(k))
                &&& (k == s0.len() ==> data@.skip(q4 as int) == closer)
                &&& (k < s0.len() && k > 0 ==> data@.skip(q4 as int) == seq![44u8] + (
                entries_json_from(s0, k) + closer))
            } by {
                assert(hash@ == s0[k0].0@);
                assert(loc_matches(e.1, s0[k0].1));
                crate::jsonfmt::lemma_starts_with(
                    data@,
                    q3 as int,
                    loc_json(s0[k0].1),
                    entry_sep(s0, k0) + closer,
                );
                assert(data@.skip(q4 as int) == entry_sep(s0, k0) + closer);
                let k = idx.entries_view().len() as int;
                assert(k == k0 + 1);
                assert(entries_match(idx.entries_view(), s0.take(k))) by {
                    assert(forall|j: int|
                        0 <= j < k0 ==> (#[trigger] idx.entries_view()[j])
                            == old_entries[j]);
                    assert(forall|j: int| 0 <= j <= k0 ==> s0.take(k)[j] == s0[j]);
                    assert(forall|j: int| 0 <= j < k0 ==> s0.take(k0)[j] == s0[j]);
                }
                if k == s0.len() {
                    assert(entry_sep(s0, k0) =~= Seq::<u8>::empty());
                    assert(Seq::<u8>::empty() + closer =~= closer);
                } else {
                    assert(entry_sep(s0, k0) == seq![44u8] + entries_json_from(s0, k));
                    crate::jsonfmt::lemma_add_assoc(
                        seq![44u8],
                        entries_json_from(s0, k),
                        closer,
                    );
                }
            }
        }
        cur = q4;
        first = false;
    }
    proof {
        assert forall|s0: Seq<([u8; 32], BlobLocation)>|
            data@ == index_json(s0) && keys_unique(s0) implies false by {
            let k = idx.entries_view().len() as int;
            if k == s0.len() {
                assert(data@.skip(cur as int) == closer);
                assert(data@.skip(cur as int).len() == 0);
            } else {
                lemma_entry_head(s0, k);
                if k > 0 {
                    assert((seq![44u8] + (entries_json_from(s0, k) + closer)).len() > 0);
                    assert(data@.skip(cur as int).len() == 0);
                } else {
                    assert((entries_json_from(s0, 0) + closer).len() > 0);
                    assert(data@.skip(cur as int).len() == 0);
                }
            }
        }
    }
    None
}

/// What follows entry `k` in the emitted list: a separator and the rest,
/// or nothing after the last entry.
pub open spec fn entry_sep(s: Seq<([u8; 32], BlobLocation)>, k: int) -> Seq<u8> {
    if k + 1 < s.len() {
        seq![44u8] + entries_json_from(s, k + 1)
    } else {
        Seq::empty()
    }
}

/// Two locations carry the same fields.
pub open spec fn loc_matches(a: BlobLocation, b: BlobLocation) -> bool {
    a.pack_id@ == b.pack_id@ && a.offset == b.offset && a.length == b.length
}

/// The first byte of the entry list from position `k` is the opening quote
/// of entry `k`'s hex key.
proof fn lemma_entry_head(s: Seq<([u8; 32], BlobLocation)>, k: int)
    requires
        0 <= k < s.len(),
    ensures
        entries_json_from(s, k).len() > 0,
        entries_json_from(s, k)[0] == 34,
        entries_json_from(s, k) == entry_json(s[k].0@, s[k].1) + entry_sep(s, k),
{
    let e = entry_json(s[k].0@, s[k].1);
    assert(e[0] == 34) by {
        assert(e == seq![34u8] + (hex_bytes_of(s[k].0@) + (seq![34u8, 58u8] + loc_json(s[k].1))));
    }
    assert(entries_json_from(s, k)[0] == e[0]) by {
        assert(e.len() > 0);
    }
}

} // verus!
