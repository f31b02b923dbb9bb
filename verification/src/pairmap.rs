use vstd::prelude::*;

verus! {

/// An association table keyed by a pair of `u64` identifiers, as the
/// participant rows are keyed by user and conversation.
///
/// Entries are kept in insertion order and at most one entry exists per key
/// pair.
pub struct PairMap<V> {
    entries: Vec<((u64, u64), V)>,
}

impl<V> View for PairMap<V> {
    type V = Seq<((u64, u64), V)>;

    closed spec fn view(&self) -> Seq<((u64, u64), V)> {
        self.entries@
    }
}

impl<V> PairMap<V> {
    /// Every key pair occurs at most once.
    pub open spec fn wf(self) -> bool {
        forall|i: int, j: int|
            0 <= i < j < self@.len() ==> (#[trigger] self@[i]).0 != (#[trigger] self@[j]).0
    }

    /// Whether some entry carries the key pair `k`.
    pub open spec fn contains_key(self, k: (u64, u64)) -> bool {
        exists|i: int| 0 <= i < self@.len() && (#[trigger] self@[i]).0 == k
    }

    /// The position of the entry carrying `k`.
    pub open spec fn index_of(self, k: (u64, u64)) -> int {
        choose|i: int| 0 <= i < self@.len() && (#[trigger] self@[i]).0 == k
    }

    /// The value stored under `k`.
    pub open spec fn spec_get(self, k: (u64, u64)) -> V
        recommends
            self.contains_key(k),
    {
        self@[self.index_of(k)].1
    }

    pub fn new() -> (r: Self)
        ensures
            r@ == Seq::<((u64, u64), V)>::empty(),
            r.wf(),
    {
        PairMap { entries: Vec::new() }
    }

    /// The position of the entry carrying `k`, if one exists.
    fn position(&self, k: (u64, u64)) -> (r: Option<usize>)
        ensures
            match r {
                Some(i) => i < self@.len() && self@[i as int].0 == k,
                None => !self.contains_key(k),
            },
    {
        let mut i: usize = 0;
        while i < self.entries.len()
            invariant
                i <= self@.len(),
                forall|j: int| 0 <= j < i ==> (#[trigger] self@[j]).0 != k,
            decreases self@.len() - i,
        {
            let at = &self.entries[i].0;
            if at.0 == k.0 && at.1 == k.1 {
                return Some(i);
            }
            i = i + 1;
        }
        None
    }

    pub fn contains(&self, k: (u64, u64)) -> (r: bool)
        ensures
            r == self.contains_key(k),
    {
        self.position(k).is_some()
    }

    pub fn get(&self, k: (u64, u64)) -> (r: Option<&V>)
        requires
            self.wf(),
        ensures
            match r {
                Some(v) => self.contains_key(k) && *v == self.spec_get(k),
                None => !self.contains_key(k),
            },
    {
        match self.position(k) {
            Some(i) => Some(&self.entries[i].1),
            None => None,
        }
    }

    /// Binds `v` to `k`: the entry in place is overwritten, or a new entry is
    /// appended when `k` is not yet present.
    pub fn insert(&mut self, k: (u64, u64), v: V)
        requires
            old(self).wf(),
        ensures
            final(self).wf(),
            old(self).contains_key(k) ==> final(self)@ == old(self)@.update(
                old(self).index_of(k),
                (k, v),
            ),
            !old(self).contains_key(k) ==> final(self)@ == old(self)@.push((k, v)),
            final(self).contains_key(k),
            final(self).spec_get(k) == v,
            forall|k2: (u64, u64)|
                #[trigger] final(self).contains_key(k2) == (old(self).contains_key(k2) || k2 == k),
            forall|k2: (u64, u64)|
                k2 != k && #[trigger] old(self).contains_key(k2) ==> final(self).spec_get(k2)
                    == old(self).spec_get(k2),
    {
        match self.position(k) {
            Some(i) => {
                proof {
                    lemma_unique_pair_lookup(self@, k);
                }
                self.entries[i] = (k, v);
                proof {
                    let o = old(self)@;
                    let n = self@;
                    let iq = i as int;
                    assert forall|p: int, q: int| 0 <= p < q < n.len() implies (#[trigger] n[p]).0
                        != (#[trigger] n[q]).0 by {
                        assert(o[p].0 != o[q].0);
                    }
                    assert forall|k2: (u64, u64)| #[trigger]
                        self.contains_key(k2) == (old(self).contains_key(k2) || k2 == k) by {
                        if self.contains_key(k2) {
                            let w = choose|w: int| 0 <= w < n.len() && (#[trigger] n[w]).0 == k2;
                            assert(o[w].0 == k2 || k2 == k);
                        }
                        if old(self).contains_key(k2) && k2 != k {
                            let w = choose|w: int| 0 <= w < o.len() && (#[trigger] o[w]).0 == k2;
                            assert(o[iq].0 == k);
                            assert(n[w].0 == k2);
                        }
                    }
                    assert forall|k2: (u64, u64)| k2 != k && #[trigger] old(self).contains_key(
                        k2,
                    ) implies self.spec_get(k2) == old(self).spec_get(k2) by {
                        lemma_unique_pair_lookup(o, k2);
                        lemma_unique_pair_lookup(n, k2);
                        let w = choose|w: int| 0 <= w < o.len() && (#[trigger] o[w]).0 == k2;
                        assert(o[iq].0 == k);
                        assert(n[w].0 == k2);
                    }
                    lemma_unique_pair_lookup(n, k);
                    assert(n[iq].0 == k);
                }
            },
            None => {
                self.entries.push((k, v));
                proof {
                    let o = old(self)@;
                    let n = self@;
                    let last = n.len() - 1;
                    assert forall|p: int, q: int| 0 <= p < q < n.len() implies (#[trigger] n[p]).0
                        != (#[trigger] n[q]).0 by {
                        if q != last {
                            assert(o[p].0 != o[q].0);
                        } else {
                            assert(o[p].0 == n[p].0);
                        }
                    }
                    assert forall|k2: (u64, u64)| #[trigger]
                        self.contains_key(k2) == (old(self).contains_key(k2) || k2 == k) by {
                        if self.contains_key(k2) && k2 != k {
                            let w = choose|w: int| 0 <= w < n.len() && (#[trigger] n[w]).0 == k2;
                            assert(w != last);
                            assert(o[w].0 == k2);
                        }
                        if old(self).contains_key(k2) {
                            let w = choose|w: int| 0 <= w < o.len() && (#[trigger] o[w]).0 == k2;
                            assert(n[w].0 == k2);
                        }
                        if k2 == k {
                            assert(n[last].0 == k2);
                        }
                    }
                    assert forall|k2: (u64, u64)| k2 != k && #[trigger] old(self).contains_key(
                        k2,
                    ) implies self.spec_get(k2) == old(self).spec_get(k2) by {
                        lemma_unique_pair_lookup(o, k2);
                        lemma_unique_pair_lookup(n, k2);
                        let w = choose|w: int| 0 <= w < o.len() && (#[trigger] o[w]).0 == k2;
                        assert(n[w].0 == k2);
                    }
                    lemma_unique_pair_lookup(n, k);
                    assert(n[last].0 == k);
                }
            },
        }
    }

    /// Removes the entry carrying `k`, if any; later entries close the gap in
    /// order.
    pub fn remove(&mut self, k: (u64, u64))
        requires
            old(self).wf(),
        ensures
            final(self).wf(),
            old(self).contains_key(k) ==> final(self)@ == old(self)@.remove(old(self).index_of(k)),
            !old(self).contains_key(k) ==> final(self)@ == old(self)@,
            !final(self).contains_key(k),
            forall|k2: (u64, u64)|
                #[trigger] final(self).contains_key(k2) == (old(self).contains_key(k2) && k2 != k),
            forall|k2: (u64, u64)|
                k2 != k && #[trigger] old(self).contains_key(k2) ==> final(self).contains_key(k2)
                    && final(self).spec_get(k2) == old(self).spec_get(k2),
    {
        match self.position(k) {
            Some(i) => {
                proof {
                    lemma_unique_pair_lookup(self@, k);
                }
                self.entries.remove(i);
                proof {
                    let o = old(self)@;
                    let n = self@;
                    let iq = i as int;
                    assert forall|p: int, q: int| 0 <= p < q < n.len() implies (#[trigger] n[p]).0
                        != (#[trigger] n[q]).0 by {
                        let po = if p < iq {
                            p
                        } else {
                            p + 1
                        };
                        let qo = if q < iq {
                            q
                        } else {
                            q + 1
                        };
                        assert(o[po].0 != o[qo].0);
                    }
                    assert forall|k2: (u64, u64)| #[trigger]
                        self.contains_key(k2) == (old(self).contains_key(k2) && k2 != k) by {
                        if self.contains_key(k2) {
                            let w = choose|w: int| 0 <= w < n.len() && (#[trigger] n[w]).0 == k2;
                            let wo = if w < iq {
                                w
                            } else {
                                w + 1
                            };
                            assert(o[wo].0 == k2);
                            if k2 == k {
                                assert(o[iq].0 != o[wo].0);
                            }
                        }
                        if old(self).contains_key(k2) && k2 != k {
                            let w = choose|w: int| 0 <= w < o.len() && (#[trigger] o[w]).0 == k2;
                            assert(w != iq);
                            if w < iq {
                                assert(n[w].0 == k2);
                            } else {
                                assert(n[w - 1].0 == k2);
                            }
                        }
                    }
                    assert forall|k2: (u64, u64)| k2 != k && #[trigger] old(self).contains_key(
                        k2,
                    ) implies self.contains_key(k2) && self.spec_get(k2) == old(self).spec_get(
                        k2,
                    ) by {
                        lemma_unique_pair_lookup(o, k2);
                        lemma_unique_pair_lookup(n, k2);
                        let w = choose|w: int| 0 <= w < o.len() && (#[trigger] o[w]).0 == k2;
                        assert(w != iq);
                        if w < iq {
                            assert(n[w].0 == k2);
                        } else {
                            assert(n[w - 1].0 == k2);
                        }
                    }
                }
            },
            None => {},
        }
    }
}

/// In a duplicate-free table, any entry that carries `k` stands at
/// `index_of(k)`, so lookups are unambiguous.
proof fn lemma_unique_pair_lookup<V>(s: Seq<((u64, u64), V)>, k: (u64, u64))
    requires
        forall|i: int, j: int| 0 <= i < j < s.len() ==> (#[trigger] s[i]).0 != (#[trigger] s[j]).0,
    ensures
        forall|i: int|
            0 <= i < s.len() && (#[trigger] s[i]).0 == k ==> (choose|j: int|
                0 <= j < s.len() && (#[trigger] s[j]).0 == k) == i,
{
}

} // verus!
