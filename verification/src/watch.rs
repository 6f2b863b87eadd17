//! One-shot watch registry.
//!
//! Registrations are keyed by (path, kind).  `register` stores or
//! replaces the single entry for its key; `dispatch` fires and removes
//! the matching entry, and is a no-op — not an error — when no entry
//! matches, since the server may push events for watches the client
//! already considers fired.  A callback is represented by an opaque
//! token chosen by the caller, who maps tokens to handlers outside the
//! core; the registry itself never runs user code.

use vstd::prelude::*;
use crate::bytes::bytes_eq;
use crate::codec::WatchKind;

verus! {

/// Pending one-shot registrations, at most one per (path, kind).
pub struct WatchRegistry {
    entries: Vec<(Vec<u8>, WatchKind, u64)>,
}

/// The key of one stored entry.
spec fn key_at(s: Seq<(Vec<u8>, WatchKind, u64)>, i: int) -> (Seq<u8>, WatchKind) {
    (s[i].0@, s[i].1)
}

/// Whether some entry of `s` carries the key `(p, k)`.
spec fn has_key(s: Seq<(Vec<u8>, WatchKind, u64)>, p: Seq<u8>, k: WatchKind) -> bool {
    exists|i: int| 0 <= i < s.len() && key_at(s, i) == (p, k)
}

impl WatchRegistry {
    /// No two entries share a key.
    pub closed spec fn wf(self) -> bool {
        forall|i: int, j: int|
            0 <= i < j < self.entries@.len() ==> key_at(self.entries@, i) != key_at(self.entries@, j)
    }

    /// The registry as a map from (path, kind) to the callback token.
    pub closed spec fn as_map(self) -> Map<(Seq<u8>, WatchKind), u64> {
        Map::new(
            |pk: (Seq<u8>, WatchKind)| has_key(self.entries@, pk.0, pk.1),
            |pk: (Seq<u8>, WatchKind)|
                {
                    let i = choose|i: int|
                        0 <= i < self.entries@.len() && key_at(self.entries@, i) == pk;
                    self.entries@[i].2
                },
        )
    }

    /// Entry `i` is visible in the map under its own key, with its own token.
    proof fn lemma_map_index(self, i: int)
        requires
            self.wf(),
            0 <= i < self.entries@.len(),
        ensures
            self.as_map().contains_key(key_at(self.entries@, i)),
            self.as_map()[key_at(self.entries@, i)] == self.entries@[i].2,
    {
        let pk = key_at(self.entries@, i);
        assert(has_key(self.entries@, pk.0, pk.1));
        let j = choose|j: int| 0 <= j < self.entries@.len() && key_at(self.entries@, j) == pk;
        assert(j == i);
    }

    /// An empty registry.
    pub fn new() -> (r: Self)
        ensures
            r.wf(),
            r.as_map() == Map::<(Seq<u8>, WatchKind), u64>::empty(),
    {
        let r = WatchRegistry { entries: Vec::new() };
        proof {
            assert(r.as_map() =~= Map::<(Seq<u8>, WatchKind), u64>::empty());
        }
        r
    }

    /// Index of the entry for `(path, kind)`, if one is stored.
    fn find(&self, path: &Vec<u8>, kind: WatchKind) -> (r: Option<usize>)
        ensures
            match r {
                Some(i) => i < self.entries@.len() && key_at(self.entries@, i as int) == (path@, kind),
                None => !has_key(self.entries@, path@, kind),
            },
    {
        let mut i: usize = 0;
        while i < self.entries.len()
            invariant
                i <= self.entries@.len(),
                forall|j: int| 0 <= j < i ==> key_at(self.entries@, j) != (path@, kind),
            decreases self.entries@.len() - i,
        {
            let hit = self.entries[i].1 == kind && bytes_eq(&self.entries[i].0, path);
            if hit {
                return Some(i);
            }
            i = i + 1;
        }
        None
    }

    /// Stores a one-shot registration: afterwards exactly one entry for
    /// `(path, kind)` exists, carrying `token`; every other key is untouched.
    pub fn register(&mut self, path: Vec<u8>, kind: WatchKind, token: u64)
        requires
            old(self).wf(),
        ensures
            final(self).wf(),
            final(self).as_map() == old(self).as_map().insert((path@, kind), token),
    {
        let ghost pk = (path@, kind);
        match self.find(&path, kind) {
            Some(i) => {
                let ghost s0 = self.entries@;
                self.entries[i] = (path, kind, token);
                let ghost s1 = self.entries@;
                proof {
                    assert forall|a: int, b: int| 0 <= a < b < s1.len()
                        implies key_at(s1, a) != key_at(s1, b) by {
                        assert(key_at(s1, a) == key_at(s0, a));
                        assert(key_at(s1, b) == key_at(s0, b));
                    }
                    assert forall|q: (Seq<u8>, WatchKind)|
                        has_key(s1, q.0, q.1) == (has_key(s0, q.0, q.1) || q == pk) by {
                        if has_key(s1, q.0, q.1) {
                            let j = choose|j: int| 0 <= j < s1.len() && key_at(s1, j) == q;
                            if j != i as int {
                                assert(key_at(s0, j) == q);
                            }
                        }
                        if has_key(s0, q.0, q.1) && q != pk {
                            let j = choose|j: int| 0 <= j < s0.len() && key_at(s0, j) == q;
                            assert(j != i as int);
                            assert(key_at(s1, j) == q);
                        }
                        if q == pk {
                            assert(key_at(s1, i as int) == pk);
                        }
                    }
                    assert forall|q: (Seq<u8>, WatchKind)| #[trigger] self.as_map().contains_key(q)
                        implies self.as_map()[q] == old(self).as_map().insert(pk, token)[q] by {
                        let j = choose|j: int| 0 <= j < s1.len() && key_at(s1, j) == q;
                        self.lemma_map_index(j);
                        if q == pk {
                            assert(key_at(s1, i as int) == pk);
                            assert(j == i as int);
                        } else {
                            assert(j != i as int);
                            assert(key_at(s0, j) == q);
                            old(self).lemma_map_index(j);
                        }
                    }
                    assert(self.as_map() =~= old(self).as_map().insert(pk, token));
                }
            },
            None => {
                let ghost s0 = self.entries@;
                self.entries.push((path, kind, token));
                let ghost s1 = self.entries@;
                let ghost n = s0.len() as int;
                proof {
                    assert(key_at(s1, n) == pk);
                    assert forall|a: int, b: int| 0 <= a < b < s1.len()
                        implies key_at(s1, a) != key_at(s1, b) by {
                        if b < n {
                            assert(key_at(s1, a) == key_at(s0, a));
                            assert(key_at(s1, b) == key_at(s0, b));
                        } else {
                            assert(key_at(s1, a) == key_at(s0, a));
                            assert(!has_key(s0, pk.0, pk.1));
                        }
                    }
                    assert forall|q: (Seq<u8>, WatchKind)|
                        has_key(s1, q.0, q.1) == (has_key(s0, q.0, q.1) || q == pk) by {
                        if has_key(s1, q.0, q.1) {
                            let j = choose|j: int| 0 <= j < s1.len() && key_at(s1, j) == q;
                            if j < n {
                                assert(key_at(s0, j) == q);
                            }
                        }
                        if has_key(s0, q.0, q.1) {
                            let j = choose|j: int| 0 <= j < s0.len() && key_at(s0, j) == q;
                            assert(key_at(s1, j) == q);
                        }
                    }
                    assert forall|q: (Seq<u8>, WatchKind)| #[trigger] self.as_map().contains_key(q)
                        implies self.as_map()[q] == old(self).as_map().insert(pk, token)[q] by {
                        let j = choose|j: int| 0 <= j < s1.len() && key_at(s1, j) == q;
                        self.lemma_map_index(j);
                        if q == pk {
                            assert(j == n);
                        } else {
                            assert(j != n);
                            assert(key_at(s0, j) == q);
                            old(self).lemma_map_index(j);
                        }
                    }
                    assert(self.as_map() =~= old(self).as_map().insert(pk, token));
                }
            },
        }
    }

    /// Fires the registration for `(path, kind)`: returns its token and
    /// removes it, so it can never fire again.  When no entry matches,
    /// the event is dropped and the registry is unchanged.
    pub fn dispatch(&mut self, path: &Vec<u8>, kind: WatchKind) -> (r: Option<u64>)
        requires
            old(self).wf(),
        ensures
            final(self).wf(),
            old(self).as_map().contains_key((path@, kind)) ==> {
                &&& r == Some(old(self).as_map()[(path@, kind)])
                &&& final(self).as_map() == old(self).as_map().remove((path@, kind))
            },
            !old(self).as_map().contains_key((path@, kind)) ==> {
                &&& r is None
                &&& final(self).as_map() == old(self).as_map()
            },
    {
        let ghost pk = (path@, kind);
        match self.find(path, kind) {
            None => {
                None
            },
            Some(i) => {
                let ghost s0 = self.entries@;
                proof {
                    old(self).lemma_map_index(i as int);
                }
                let e = self.entries.remove(i);
                let ghost s1 = self.entries@;
                proof {
                    assert forall|j: int| 0 <= j < s1.len()
                        implies s1[j] == (if j < i as int { s0[j] } else { s0[j + 1] }) by {
                        assert(s1 =~= s0.subrange(0, i as int) + s0.subrange(i as int + 1, s0.len() as int));
                    }
                    assert forall|a: int, b: int| 0 <= a < b < s1.len()
                        implies key_at(s1, a) != key_at(s1, b) by {
                        let a0: int = if a < i as int { a } else { a + 1 };
                        let b0: int = if b < i as int { b } else { b + 1 };
                        assert(key_at(s1, a) == key_at(s0, a0));
                        assert(key_at(s1, b) == key_at(s0, b0));
                    }
                    assert forall|q: (Seq<u8>, WatchKind)|
                        has_key(s1, q.0, q.1) == (has_key(s0, q.0, q.1) && q != pk) by {
                        if has_key(s1, q.0, q.1) {
                            let j = choose|j: int| 0 <= j < s1.len() && key_at(s1, j) == q;
                            let j0: int = if j < i as int { j } else { j + 1 };
                            assert(key_at(s0, j0) == q);
                            assert(j0 != i as int);
                            assert(key_at(s0, i as int) == pk);
                        }
                        if has_key(s0, q.0, q.1) && q != pk {
                            let j = choose|j: int| 0 <= j < s0.len() && key_at(s0, j) == q;
                            assert(j != i as int);
                            if j < i as int {
                                assert(key_at(s1, j) == q);
                            } else {
                                assert(key_at(s1, j - 1) == q);
                            }
                        }
                    }
                    assert forall|q: (Seq<u8>, WatchKind)| #[trigger] self.as_map().contains_key(q)
                        implies self.as_map()[q] == old(self).as_map().remove(pk)[q] by {
                        let j = choose|j: int| 0 <= j < s1.len() && key_at(s1, j) == q;
                        self.lemma_map_index(j);
                        let j0: int = if j < i as int { j } else { j + 1 };
                        assert(key_at(s0, j0) == q);
                        assert(s1[j] == s0[j0]);
                        old(self).lemma_map_index(j0);
                    }
                    assert(self.as_map() =~= old(self).as_map().remove(pk));
                }
                Some(e.2)
            },
        }
    }

}

/// A watch fires at most once: a dispatch that fired removed its key, so
/// a second dispatch for the same key finds nothing and changes nothing.
pub proof fn lemma_watch_fires_at_most_once(
    m: Map<(Seq<u8>, WatchKind), u64>,
    path: Seq<u8>,
    kind: WatchKind,
)
    ensures
        !m.remove((path, kind)).contains_key((path, kind)),
{
}

} // verus!
