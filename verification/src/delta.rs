//! Continuation-token bookkeeping for incremental sync: an opaque token
//! per `service:user:resource` key.

use vstd::prelude::*;

verus! {

/// All keys in the token list are distinct.
pub open spec fn token_keys_unique(s: Seq<(Seq<char>, Seq<char>)>) -> bool {
    forall|i: int, j: int| 0 <= i < j < s.len() ==> s[i].0 != s[j].0
}

/// Some entry carries the key `k`.
pub open spec fn tokens_have(s: Seq<(Seq<char>, Seq<char>)>, k: Seq<char>) -> bool {
    exists|i: int| 0 <= i < s.len() && s[i].0 == k
}

/// The token stored under key `k`.
pub open spec fn token_of(s: Seq<(Seq<char>, Seq<char>)>, k: Seq<char>) -> Seq<char> {
    let i = choose|i: int| 0 <= i < s.len() && s[i].0 == k;
    s[i].1
}

/// Continuation tokens for the next incremental run, keyed by
/// `service:user:resource`.
#[derive(Debug, Clone)]
pub struct DeltaState {
    tokens: Vec<(String, String)>,
}

impl DeltaState {
    /// The stored tokens, as key and token text pairs.
    pub closed spec fn tokens_view(&self) -> Seq<(Seq<char>, Seq<char>)> {
        self.tokens@.map_values(|e: (String, String)| (e.0@, e.1@))
    }

    /// Keys are distinct.
    pub open spec fn wf(&self) -> bool {
        token_keys_unique(self.tokens_view())
    }

    pub fn new() -> (r: Self)
        ensures
            r.wf(),
            r.tokens_view().len() == 0,
    {
        let r = DeltaState { tokens: Vec::new() };
        proof {
            assert(r.tokens_view() =~= Seq::<(Seq<char>, Seq<char>)>::empty());
        }
        r
    }

    /// The conventional token key for a service, user and resource.
    pub fn key(service: &str, user: &str, resource: &str) -> (r: String)
        ensures
            r@ == service@ + ":"@ + user@ + ":"@ + resource@,
    {
        let s = crate::strutil::concat_str(service, ":");
        let s = crate::strutil::concat_str(s.as_str(), user);
        let s = crate::strutil::concat_str(s.as_str(), ":");
        crate::strutil::concat_str(s.as_str(), resource)
    }

    /// Position of the entry under `key`, if any.
    #[verifier::loop_isolation(false)]
    fn find(&self, key: &str) -> (r: Option<usize>)
        ensures
            r matches Some(i) ==> i < self.tokens_view().len() && self.tokens_view()[i as int].0
                == key@,
            r is None ==> !tokens_have(self.tokens_view(), key@),
    {
        let mut i: usize = 0;
        while i < self.tokens.len()
            invariant
                i <= self.tokens@.len(),
                forall|j: int| 0 <= j < i ==> self.tokens_view()[j].0 != key@,
            decreases self.tokens@.len() - i,
        {
            let e = &self.tokens[i];
            if crate::strutil::str_eq(e.0.as_str(), key) {
                proof {
                    assert(self.tokens_view()[i as int].0 == key@);
                }
                return Some(i);
            }
            proof {
                assert(self.tokens_view()[i as int].0 == self.tokens@[i as int].0@);
            }
            i += 1;
        }
        None
    }

    /// The token stored under `key`, if any.
    pub fn get(&self, key: &str) -> (r: Option<&str>)
        requires
            self.wf(),
        ensures
            r is Some <==> tokens_have(self.tokens_view(), key@),
            r matches Some(t) ==> t@ == token_of(self.tokens_view(), key@),
    {
        match self.find(key) {
            Some(i) => {
                proof {
                    lemma_token_at(self.tokens_view(), i as int);
                }
                Some(self.tokens[i].1.as_str())
            },
            None => None,
        }
    }

    /// Stores `token` under `key`, replacing any prior token there.
    pub fn set(&mut self, key: String, token: String)
        requires
            old(self).wf(),
        ensures
            final(self).wf(),
            tokens_have(final(self).tokens_view(), key@),
            token_of(final(self).tokens_view(), key@) == token@,
            forall|k: Seq<char>|
                k != key@ ==> (#[trigger] tokens_have(final(self).tokens_view(), k)
                    <==> tokens_have(old(self).tokens_view(), k)),
            forall|k: Seq<char>|
                k != key@ && tokens_have(old(self).tokens_view(), k) ==> #[trigger] token_of(
                    final(self).tokens_view(),
                    k,
                ) == token_of(old(self).tokens_view(), k),
    {
        let ghost s0 = self.tokens_view();
        match self.find(key.as_str()) {
            Some(i) => {
                proof {
                    lemma_token_remove(s0, i as int);
                }
                self.tokens.remove(i);
                proof {
                    assert(self.tokens_view() =~= s0.remove(i as int));
                    lemma_token_push(self.tokens_view(), (key@, token@));
                }
                self.tokens.push((key, token));
                proof {
                    assert(self.tokens_view() =~= s0.remove(i as int).push((key@, token@)));
                }
            },
            None => {
                proof {
                    lemma_token_push(s0, (key@, token@));
                }
                self.tokens.push((key, token));
                proof {
                    assert(self.tokens_view() =~= s0.push((key@, token@)));
                }
            },
        }
    }
}

/// Under unique keys, the entry at position `i` is what its key maps to.
proof fn lemma_token_at(s: Seq<(Seq<char>, Seq<char>)>, i: int)
    requires
        token_keys_unique(s),
        0 <= i < s.len(),
    ensures
        tokens_have(s, s[i].0),
        token_of(s, s[i].0) == s[i].1,
{
    assert(0 <= i < s.len() && s[i].0 == s[i].0);
    let j = choose|j: int| 0 <= j < s.len() && s[j].0 == s[i].0;
    if j != i {
        assert(s[i].0 != s[j].0);
    }
}

proof fn lemma_token_push(s: Seq<(Seq<char>, Seq<char>)>, e: (Seq<char>, Seq<char>))
    requires
        token_keys_unique(s),
        !tokens_have(s, e.0),
    ensures
        token_keys_unique(s.push(e)),
        forall|k: Seq<char>|
            #[trigger] tokens_have(s.push(e), k) <==> (tokens_have(s, k) || k == e.0),
        token_of(s.push(e), e.0) == e.1,
        forall|k: Seq<char>|
            k != e.0 && tokens_have(s, k) ==> #[trigger] token_of(s.push(e), k) == token_of(s, k),
{
    let t = s.push(e);
    assert(forall|i: int| 0 <= i < s.len() ==> t[i] == s[i]);
    assert(t[s.len() as int] == e);
    assert forall|i: int, j: int| 0 <= i < j < t.len() implies t[i].0 != t[j].0 by {
        if j == s.len() {
            if s[i].0 == e.0 {
                assert(tokens_have(s, e.0));
            }
        }
    }
    assert forall|k: Seq<char>|
        #[trigger] tokens_have(t, k) <==> (tokens_have(s, k) || k == e.0) by {
        if tokens_have(t, k) {
            let i = choose|i: int| 0 <= i < t.len() && t[i].0 == k;
            if i < s.len() {
                assert(s[i].0 == k);
            }
        }
        if tokens_have(s, k) {
            let i = choose|i: int| 0 <= i < s.len() && s[i].0 == k;
            assert(t[i].0 == k);
        }
        if k == e.0 {
            assert(t[s.len() as int].0 == k);
        }
    }
    lemma_token_at(t, s.len() as int);
    assert forall|k: Seq<char>|
        k != e.0 && tokens_have(s, k) implies #[trigger] token_of(t, k) == token_of(s, k) by {
        let i = choose|i: int| 0 <= i < s.len() && s[i].0 == k;
        lemma_token_at(s, i);
        assert(t[i] == s[i]);
        lemma_token_at(t, i);
    }
}

proof fn lemma_token_remove(s: Seq<(Seq<char>, Seq<char>)>, i: int)
    requires
        token_keys_unique(s),
        0 <= i < s.len(),
    ensures
        token_keys_unique(s.remove(i)),
        !tokens_have(s.remove(i), s[i].0),
        forall|k: Seq<char>|
            k != s[i].0 ==> (#[trigger] tokens_have(s.remove(i), k) <==> tokens_have(s, k)),
        forall|k: Seq<char>|
            k != s[i].0 && tokens_have(s, k) ==> #[trigger] token_of(s.remove(i), k) == token_of(
                s,
                k,
            ),
{
    let t = s.remove(i);
    assert(forall|j: int| 0 <= j < i ==> t[j] == s[j]);
    assert(forall|j: int| i <= j < t.len() ==> t[j] == s[j + 1]);
    assert forall|a: int, b: int| 0 <= a < b < t.len() implies t[a].0 != t[b].0 by {
        let a2 = if a < i { a } else { a + 1 };
        let b2 = if b < i { b } else { b + 1 };
        assert(t[a] == s[a2] && t[b] == s[b2]);
    }
    if tokens_have(t, s[i].0) {
        let j = choose|j: int| 0 <= j < t.len() && t[j].0 == s[i].0;
        let j2 = if j < i { j } else { j + 1 };
        assert(s[j2].0 == s[i].0 && j2 != i);
    }
    assert forall|k: Seq<char>|
        k != s[i].0 implies (#[trigger] tokens_have(t, k) <==> tokens_have(s, k)) by {
        if tokens_have(t, k) {
            let j = choose|j: int| 0 <= j < t.len() && t[j].0 == k;
            let j2 = if j < i { j } else { j + 1 };
            assert(s[j2].0 == k);
        }
        if tokens_have(s, k) {
            let j = choose|j: int| 0 <= j < s.len() && s[j].0 == k;
            assert(j != i);
            let j2 = if j < i { j } else { j - 1 };
            assert(t[j2].0 == k);
        }
    }
    assert forall|k: Seq<char>|
        k != s[i].0 && tokens_have(s, k) implies #[trigger] token_of(t, k) == token_of(s, k) by {
        let j = choose|j: int| 0 <= j < s.len() && s[j].0 == k;
        lemma_token_at(s, j);
        assert(j != i);
        let j2 = if j < i { j } else { j - 1 };
        assert(t[j2] == s[j]);
        lemma_token_at(t, j2);
    }
}

} // verus!
