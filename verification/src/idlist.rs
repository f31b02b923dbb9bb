use vstd::prelude::*;

verus! {

/// No identifier occurs twice in `s`.
pub open spec fn dup_free(s: Seq<u64>) -> bool {
    forall|i: int, j: int| 0 <= i < j < s.len() ==> s[i] != s[j]
}

/// `s` without `x`: in a duplicate-free list, removing the one occurrence.
pub open spec fn remove_id(s: Seq<u64>, x: u64) -> Seq<u64> {
    if s.contains(x) {
        s.remove(choose|i: int| 0 <= i < s.len() && s[i] == x)
    } else {
        s
    }
}

/// Appending `x` adds exactly `x` to the members of a list.
pub proof fn lemma_push_contains(s: Seq<u64>, x: u64, y: u64)
    ensures
        s.push(x).contains(y) == (s.contains(y) || y == x),
{
    if s.contains(y) {
        let w = choose|w: int| 0 <= w < s.len() && s[w] == y;
        assert(s.push(x)[w] == y);
    }
    if y == x {
        assert(s.push(x)[s.len() as int] == y);
    }
    if s.push(x).contains(y) && y != x {
        let w = choose|w: int| 0 <= w < s.push(x).len() && s.push(x)[w] == y;
        assert(s[w] == y);
    }
}

/// Appending a fresh identifier keeps a list duplicate-free.
pub proof fn lemma_push_dup_free(s: Seq<u64>, x: u64)
    requires
        dup_free(s),
        !s.contains(x),
    ensures
        dup_free(s.push(x)),
{
    assert forall|i: int, j: int| 0 <= i < j < s.push(x).len() implies s.push(x)[i] != s.push(
        x,
    )[j] by {
        if j < s.len() {
            assert(s[i] != s[j]);
        } else {
            assert(s.push(x)[i] == s[i]);
            assert(!s.contains(x) ==> s[i] != x);
        }
    }
}

/// Removing `x` from a duplicate-free list removes `x` alone and keeps the
/// list duplicate-free.
pub proof fn lemma_remove_id_membership(s: Seq<u64>, x: u64)
    requires
        dup_free(s),
    ensures
        !remove_id(s, x).contains(x),
        forall|y: u64| y != x ==> remove_id(s, x).contains(y) == s.contains(y),
        dup_free(remove_id(s, x)),
{
    if s.contains(x) {
        let iq = choose|i: int| 0 <= i < s.len() && s[i] == x;
        let n = s.remove(iq);
        assert(remove_id(s, x) == n);
        assert forall|p: int, q: int| 0 <= p < q < n.len() implies n[p] != n[q] by {
            let po = if p < iq {
                p
            } else {
                p + 1
            };
            let qo = if q < iq {
                q
            } else {
                q + 1
            };
            assert(s[po] != s[qo]);
        }
        assert forall|p: int| 0 <= p < n.len() implies n[p] != x by {
            let po = if p < iq {
                p
            } else {
                p + 1
            };
            if po != iq {
                assert(s[po] != s[iq]);
            }
        }
        assert forall|y: u64| y != x implies n.contains(y) == s.contains(y) by {
            if n.contains(y) {
                let w = choose|w: int| 0 <= w < n.len() && n[w] == y;
                let wo = if w < iq {
                    w
                } else {
                    w + 1
                };
                assert(s[wo] == y);
            }
            if s.contains(y) {
                let w = choose|w: int| 0 <= w < s.len() && s[w] == y;
                if w < iq {
                    assert(n[w] == y);
                } else if w > iq {
                    assert(n[w - 1] == y);
                }
            }
        }
    }
}

/// Copies a list of identifiers.
pub fn copy_ids(v: &Vec<u64>) -> (r: Vec<u64>)
    ensures
        r@ == v@,
{
    let mut out: Vec<u64> = Vec::new();
    let mut i: usize = 0;
    while i < v.len()
        invariant
            i <= v@.len(),
            out@ == v@.take(i as int),
        decreases v@.len() - i,
    {
        out.push(v[i]);
        proof {
            assert(out@ =~= v@.take(i as int + 1));
        }
        i = i + 1;
    }
    proof {
        assert(v@.take(v@.len() as int) =~= v@);
    }
    out
}

/// Removes the one occurrence of `x` from a duplicate-free list, keeping the
/// order of the rest; without an occurrence the list stays as it is.
pub fn remove_id_exec(v: &mut Vec<u64>, x: u64)
    requires
        dup_free(old(v)@),
    ensures
        final(v)@ == remove_id(old(v)@, x),
        dup_free(final(v)@),
        !final(v)@.contains(x),
        forall|y: u64| y != x ==> final(v)@.contains(y) == old(v)@.contains(y),
{
    let mut i: usize = 0;
    while i < v.len()
        invariant
            i <= v@.len(),
            v@ == old(v)@,
            dup_free(v@),
            forall|j: int| 0 <= j < i ==> v@[j] != x,
        decreases v@.len() - i,
    {
        if v[i] == x {
            let o = Ghost(v@);
            v.remove(i);
            proof {
                let iq = i as int;
                assert(o@[iq] == x);
                assert forall|w: int| 0 <= w < o@.len() && o@[w] == x implies w == iq by {
                    if w < iq {
                        assert(o@[w] != x);
                    } else if w > iq {
                        assert(o@[iq] != o@[w]);
                    }
                }
                assert(remove_id(o@, x) == o@.remove(iq));
                assert forall|p: int, q: int| 0 <= p < q < v@.len() implies v@[p] != v@[q] by {
                    let po = if p < iq {
                        p
                    } else {
                        p + 1
                    };
                    let qo = if q < iq {
                        q
                    } else {
                        q + 1
                    };
                    assert(o@[po] != o@[qo]);
                }
                assert forall|p: int| 0 <= p < v@.len() implies v@[p] != x by {
                    let po = if p < iq {
                        p
                    } else {
                        p + 1
                    };
                    assert(v@[p] == o@[po]);
                }
                assert forall|y: u64| y != x implies v@.contains(y) == o@.contains(y) by {
                    if v@.contains(y) {
                        let w = choose|w: int| 0 <= w < v@.len() && v@[w] == y;
                        let wo = if w < iq {
                            w
                        } else {
                            w + 1
                        };
                        assert(o@[wo] == y);
                    }
                    if o@.contains(y) {
                        let w = choose|w: int| 0 <= w < o@.len() && o@[w] == y;
                        if w < iq {
                            assert(v@[w] == y);
                        } else {
                            assert(v@[w - 1] == y);
                        }
                    }
                }
            }
            return ;
        }
        i = i + 1;
    }
    proof {
        assert(!v@.contains(x));
    }
}

} // verus!
