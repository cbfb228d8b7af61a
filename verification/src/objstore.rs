//! The in-memory object store: a flat key/value map of byte objects, the
//! storage model the repository engine is verified against. Durable
//! backends mirror it key for key.

use vstd::prelude::*;

use crate::strutil::bytes_of_str;
use crate::strutil::occurs_at;

verus! {

/// All keys in the entry list are distinct.
pub open spec fn store_keys_unique(s: Seq<(Seq<char>, Seq<u8>)>) -> bool {
    forall|i: int, j: int| 0 <= i < j < s.len() ==> s[i].0 != s[j].0
}

/// Some entry carries the key `k`.
pub open spec fn store_has(s: Seq<(Seq<char>, Seq<u8>)>, k: Seq<char>) -> bool {
    exists|i: int| 0 <= i < s.len() && s[i].0 == k
}

/// The bytes stored under key `k`.
pub open spec fn store_val(s: Seq<(Seq<char>, Seq<u8>)>, k: Seq<char>) -> Seq<u8> {
    let i = choose|i: int| 0 <= i < s.len() && s[i].0 == k;
    s[i].1
}

/// The key lies in directory `dir`: its bytes start with `dir` then `/`.
pub open spec fn key_in_dir(k: Seq<char>, dir: Seq<char>) -> bool {
    occurs_at(bytes_of_str(k), bytes_of_str(dir) + seq![47u8], 0)
}

/// Under unique keys, the entry at position `i` is what its key maps to.
pub proof fn lemma_store_at(s: Seq<(Seq<char>, Seq<u8>)>, i: int)
    requires
        store_keys_unique(s),
        0 <= i < s.len(),
    ensures
        store_has(s, s[i].0),
        store_val(s, s[i].0) == s[i].1,
{
    let k = s[i].0;
    assert(0 <= i < s.len() && s[i].0 == k);
    let j = choose|j: int| 0 <= j < s.len() && s[j].0 == k;
    if j != i {
        assert(s[i].0 != s[j].0);
    }
}

proof fn lemma_store_push_new(s: Seq<(Seq<char>, Seq<u8>)>, e: (Seq<char>, Seq<u8>))
    requires
        store_keys_unique(s),
        !store_has(s, e.0),
    ensures
        store_keys_unique(s.push(e)),
        forall|k: Seq<char>|
            #[trigger] store_has(s.push(e), k) <==> (store_has(s, k) || k == e.0),
        store_val(s.push(e), e.0) == e.1,
        forall|k: Seq<char>|
            k != e.0 && store_has(s, k) ==> #[trigger] store_val(s.push(e), k) == store_val(s, k),
{
    let t = s.push(e);
    assert(forall|i: int| 0 <= i < s.len() ==> t[i] == s[i]);
    assert(t[s.len() as int] == e);
    assert forall|i: int, j: int| 0 <= i < j < t.len() implies t[i].0 != t[j].0 by {
        if j == s.len() {
            assert(t[i] == s[i]);
            if s[i].0 == e.0 {
                assert(store_has(s, e.0));
            }
        }
    }
    assert forall|k: Seq<char>|
        #[trigger] store_has(t, k) <==> (store_has(s, k) || k == e.0) by {
        if store_has(t, k) {
            let i = choose|i: int| 0 <= i < t.len() && t[i].0 == k;
            if i < s.len() {
                assert(s[i].0 == k);
            }
        }
        if store_has(s, k) {
            let i = choose|i: int| 0 <= i < s.len() && s[i].0 == k;
            assert(t[i].0 == k);
        }
        if k == e.0 {
            assert(t[s.len() as int].0 == k);
        }
    }
    lemma_store_at(t, s.len() as int);
    assert forall|k: Seq<char>|
        k != e.0 && store_has(s, k) implies #[trigger] store_val(t, k) == store_val(s, k) by {
        let i = choose|i: int| 0 <= i < s.len() && s[i].0 == k;
        lemma_store_at(s, i);
        assert(t[i] == s[i]);
        lemma_store_at(t, i);
    }
}

proof fn lemma_store_remove_at(s: Seq<(Seq<char>, Seq<u8>)>, i: int)
    requires
        store_keys_unique(s),
        0 <= i < s.len(),
    ensures
        store_keys_unique(s.remove(i)),
        !store_has(s.remove(i), s[i].0),
        forall|k: Seq<char>|
            k != s[i].0 ==> (#[trigger] store_has(s.remove(i), k) <==> store_has(s, k)),
        forall|k: Seq<char>|
            k != s[i].0 && store_has(s, k) ==> #[trigger] store_val(s.remove(i), k) == store_val(
                s,
                k,
            ),
{
    let t = s.remove(i);
    assert(forall|j: int| 0 <= j < i ==> t[j] == s[j]);
    assert(forall|j: int| i <= j < t.len() ==> t[j] == s[j + 1]);
    assert forall|a: int, b: int| 0 <= a < b < t.len() implies t[a].0 != t[b].0 by {
        let a2 = if a < i { a } else { a + 1 };
        let b2 = if b < i { b } else { b + 1 };
        assert(t[a] == s[a2] && t[b] == s[b2]);
    }
    if store_has(t, s[i].0) {
        let j = choose|j: int| 0 <= j < t.len() && t[j].0 == s[i].0;
        let j2 = if j < i { j } else { j + 1 };
        assert(s[j2].0 == s[i].0 && j2 != i);
    }
    assert forall|k: Seq<char>|
        k != s[i].0 implies (#[trigger] store_has(t, k) <==> store_has(s, k)) by {
        if store_has(t, k) {
            let j = choose|j: int| 0 <= j < t.len() && t[j].0 == k;
            let j2 = if j < i { j } else { j + 1 };
            assert(s[j2].0 == k);
        }
        if store_has(s, k) {
            let j = choose|j: int| 0 <= j < s.len() && s[j].0 == k;
            assert(j != i);
            let j2 = if j < i { j } else { j - 1 };
            assert(t[j2].0 == k);
        }
    }
    assert forall|k: Seq<char>|
        k != s[i].0 && store_has(s, k) implies #[trigger] store_val(t, k) == store_val(s, k) by {
        let j = choose|j: int| 0 <= j < s.len() && s[j].0 == k;
        lemma_store_at(s, j);
        assert(j != i);
        let j2 = if j < i { j } else { j - 1 };
        assert(t[j2] == s[j]);
        lemma_store_at(t, j2);
    }
}

/// The flat in-memory object store.
#[derive(Debug)]
pub struct ObjectStore {
    entries: Vec<(String, Vec<u8>)>,
}

impl ObjectStore {
    /// The stored objects: key and bytes pairs, in insertion order.
    pub closed spec fn objects(&self) -> Seq<(Seq<char>, Seq<u8>)> {
        self.entries@.map_values(|e: (String, Vec<u8>)| (e.0@, e.1@))
    }

    /// Keys are distinct.
    pub open spec fn wf(&self) -> bool {
        store_keys_unique(self.objects())
    }

    /// Whether an object is stored under `k`.
    pub open spec fn has(&self, k: Seq<char>) -> bool {
        store_has(self.objects(), k)
    }

    /// The bytes stored under `k`.
    pub open spec fn val(&self, k: Seq<char>) -> Seq<u8> {
        store_val(self.objects(), k)
    }

    pub fn new() -> (r: Self)
        ensures
            r.wf(),
            r.objects().len() == 0,
    {
        let r = ObjectStore { entries: Vec::new() };
        proof {
            assert(r.objects() =~= Seq::<(Seq<char>, Seq<u8>)>::empty());
        }
        r
    }

    /// Position of the entry under `key`, if any.
    #[verifier::loop_isolation(false)]
    fn find(&self, key: &str) -> (r: Option<usize>)
        ensures
            r matches Some(i) ==> i < self.objects().len() && self.objects()[i as int].0 == key@,
            r is None ==> !self.has(key@),
    {
        let mut i: usize = 0;
        while i < self.entries.len()
            invariant
                i <= self.entries@.len(),
                forall|j: int| 0 <= j < i ==> self.objects()[j].0 != key@,
            decreases self.entries@.len() - i,
        {
            let e = &self.entries[i];
            if crate::strutil::str_eq(e.0.as_str(), key) {
                proof {
                    assert(self.objects()[i as int].0 == key@);
                }
                return Some(i);
            }
            proof {
                assert(self.objects()[i as int].0 == self.entries@[i as int].0@);
            }
            i += 1;
        }
        None
    }

    /// The bytes under `key`, if present.
    pub fn read(&self, key: &str) -> (r: Option<Vec<u8>>)
        requires
            self.wf(),
        ensures
            r is Some <==> self.has(key@),
            r matches Some(v) ==> v@ == self.val(key@),
    {
        match self.find(key) {
            Some(i) => {
                proof {
                    lemma_store_at(self.objects(), i as int);
                }
                Some(self.entries[i].1.clone())
            },
            None => None,
        }
    }

    /// Stores `data` under `key`, replacing any prior object there and
    /// leaving every other object as it was.
    pub fn write(&mut self, key: &str, data: &[u8])
        requires
            old(self).wf(),
        ensures
            final(self).wf(),
            final(self).has(key@),
            final(self).val(key@) == data@,
            forall|k: Seq<char>|
                k != key@ ==> (#[trigger] final(self).has(k) <==> old(self).has(k)),
            forall|k: Seq<char>|
                k != key@ && old(self).has(k) ==> #[trigger] final(self).val(k) == old(self).val(k),
            !old(self).has(key@) ==> final(self).objects() == old(self).objects().push(
                (key@, data@),
            ),
    {
        let entry = (key.to_owned(), vstd::slice::slice_to_vec(data));
        let ghost s0 = self.objects();
        match self.find(key) {
            Some(i) => {
                proof {
                    lemma_store_remove_at(s0, i as int);
                }
                self.entries.remove(i);
                proof {
                    assert(self.entries@ =~= old(self).entries@.remove(i as int));
                    assert(self.objects() =~= s0.remove(i as int));
                    lemma_store_push_new(self.objects(), (key@, data@));
                }
                self.entries.push(entry);
                proof {
                    assert(self.objects() =~= s0.remove(i as int).push((key@, data@)));
                }
            },
            None => {
                proof {
                    lemma_store_push_new(s0, (key@, data@));
                }
                self.entries.push(entry);
                proof {
                    assert(self.objects() =~= s0.push((key@, data@)));
                }
            },
        }
    }

    /// Whether an object is stored under `key`.
    pub fn has_key(&self, key: &str) -> (r: bool)
        ensures
            r == self.has(key@),
    {
        match self.find(key) {
            Some(i) => {
                proof {
                    assert(store_has(self.objects(), key@));
                }
                true
            },
            None => false,
        }
    }

    /// The keys lying in directory `prefix`, in store order.
    #[verifier::loop_isolation(false)]
    pub fn list(&self, prefix: &str) -> (r: Vec<String>)
        requires
            self.wf(),
        ensures
            forall|i: int|
                0 <= i < r@.len() ==> self.has(#[trigger] r@[i]@) && key_in_dir(r@[i]@, prefix@),
            forall|k: Seq<char>|
                self.has(k) && key_in_dir(k, prefix@) ==> exists|i: int|
                    0 <= i < r@.len() && r@[i]@ == k,
    {
        let mut out: Vec<String> = Vec::new();
        let mut dir = crate::strutil::str_bytes(prefix);
        dir.push(47);
        let mut i: usize = 0;
        while i < self.entries.len()
            invariant
                i <= self.entries@.len(),
                dir@ == bytes_of_str(prefix@) + seq![47u8],
                forall|j: int|
                    0 <= j < out@.len() ==> self.has(#[trigger] out@[j]@) && key_in_dir(
                        out@[j]@,
                        prefix@,
                    ),
                forall|j: int|
                    0 <= j < i && key_in_dir(#[trigger] self.objects()[j].0, prefix@) ==> exists|
                        m: int,
                    | 0 <= m < out@.len() && out@[m]@ == self.objects()[j].0,
            decreases self.entries@.len() - i,
        {
            let e = &self.entries[i];
            proof {
                assert(self.objects()[i as int].0 == self.entries@[i as int].0@);
            }
            let ghost oldout = out@;
            let matched = crate::strutil::bytes_starts_with(e.0.as_str().as_bytes(), dir.as_slice());
            if matched {
                proof {
                    lemma_store_at(self.objects(), i as int);
                }
                out.push(e.0.clone());
                proof {
                    assert(out@[out@.len() - 1]@ == self.objects()[i as int].0);
                }
            }
            proof {
                assert(forall|m: int| 0 <= m < oldout.len() ==> out@[m] == oldout[m]);
                assert forall|j: int|
                    0 <= j < i + 1 && key_in_dir(#[trigger] self.objects()[j].0, prefix@)
                    implies exists|m: int| 0 <= m < out@.len() && out@[m]@ == self.objects()[j].0
                    by {
                    if j < i {
                        let m = choose|m: int|
                            0 <= m < oldout.len() && oldout[m]@ == self.objects()[j].0;
                        assert(out@[m]@ == self.objects()[j].0);
                    } else {
                        assert(matched);
                        assert(out@[out@.len() - 1]@ == self.objects()[j].0);
                    }
                }
            }
            i += 1;
        }
        proof {
            assert forall|k: Seq<char>|
                self.has(k) && key_in_dir(k, prefix@) implies exists|m: int|
                0 <= m < out@.len() && out@[m]@ == k by {
                let j = choose|j: int| 0 <= j < self.objects().len() && self.objects()[j].0 == k;
                assert(key_in_dir(self.objects()[j].0, prefix@));
            }
        }
        out
    }

    /// Removes the object under `key`; absent keys are left alone.
    pub fn delete(&mut self, key: &str)
        requires
            old(self).wf(),
        ensures
            final(self).wf(),
            !final(self).has(key@),
            forall|k: Seq<char>|
                k != key@ ==> (#[trigger] final(self).has(k) <==> old(self).has(k)),
            forall|k: Seq<char>|
                k != key@ && old(self).has(k) ==> #[trigger] final(self).val(k) == old(self).val(k),
    {
        let ghost s0 = self.objects();
        match self.find(key) {
            Some(i) => {
                proof {
                    lemma_store_remove_at(s0, i as int);
                }
                self.entries.remove(i);
                proof {
                    assert(self.objects() =~= s0.remove(i as int));
                }
            },
            None => {},
        }
    }

    /// Every key in the store, in store order.
    #[verifier::loop_isolation(false)]
    pub fn keys(&self) -> (r: Vec<String>)
        ensures
            r@.len() == self.objects().len(),
            forall|i: int| 0 <= i < r@.len() ==> r@[i]@ == self.objects()[i].0,
    {
        let mut out: Vec<String> = Vec::new();
        let mut i: usize = 0;
        while i < self.entries.len()
            invariant
                i <= self.entries@.len(),
                out@.len() == i,
                forall|j: int| 0 <= j < i ==> out@[j]@ == self.objects()[j].0,
            decreases self.entries@.len() - i,
        {
            let e = &self.entries[i];
            out.push(e.0.clone());
            proof {
                assert(self.objects()[i as int].0 == self.entries@[i as int].0@);
            }
            i += 1;
        }
        out
    }
}

} // verus!
