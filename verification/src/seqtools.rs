use vstd::prelude::*;

use crate::traits::{seq_to_set, strictly_sorted};

verus! {

/// Linear membership scan.
#[verifier::loop_isolation(false)]
pub fn vec_contains(v: &Vec<u64>, x: u64) -> (r: bool)
    ensures
        r == v@.contains(x),
{
    let mut i: usize = 0;
    while i < v.len()
        invariant
            i <= v@.len(),
            forall|j: int| 0 <= j < i ==> v@[j] != x,
        decreases v@.len() - i,
    {
        if v[i] == x {
            return true;
        }
        i = i + 1;
    }
    false
}

/// Inserts `x` into a strictly sorted vector, keeping it sorted; returns
/// whether `x` was new.
#[verifier::loop_isolation(false)]
pub fn sorted_insert(v: &mut Vec<u64>, x: u64) -> (r: bool)
    requires
        strictly_sorted(old(v)@),
    ensures
        strictly_sorted(final(v)@),
        seq_to_set(final(v)@) == seq_to_set(old(v)@).insert(x),
        r == !old(v)@.contains(x),
        final(v)@.len() == old(v)@.len() + (if r { 1int } else { 0int }),
        final(v)@.contains(x),
        forall|y: u64| #[trigger] final(v)@.contains(y) ==> old(v)@.contains(y) || y == x,
{
    let ghost v0 = v@;
    let mut i: usize = 0;
    while i < v.len() && v[i] < x
        invariant
            i <= v@.len(),
            v@ == v0,
            forall|j: int| 0 <= j < i ==> v@[j] < x,
        decreases v@.len() - i,
    {
        i = i + 1;
    }
    if i < v.len() && v[i] == x {
        proof {
            assert(v@.contains(x));
            assert(seq_to_set(v@) =~= seq_to_set(v0).insert(x));
        }
        false
    } else {
        proof {
            assert(forall|j: int| i <= j < v0.len() ==> v0[j] > x);
            assert(!v0.contains(x)) by {
                if v0.contains(x) {
                    let j = choose|j: int| 0 <= j < v0.len() && #[trigger] v0[j] == x;
                }
            }
        }
        v.insert(i, x);
        proof {
            v0.insert_ensures(i as int, x);
            assert(strictly_sorted(v@)) by {
                assert forall|p: int, q: int| 0 <= p < q < v@.len()
                    implies v@[p] < v@[q] by {
                    if p < i && q < i {
                    } else if p < i && q == i {
                    } else if p < i && q > i {
                        assert(v@[q] == v0[q - 1]);
                    } else if p == i && q > i {
                        assert(v@[q] == v0[q - 1]);
                    } else if p > i {
                        assert(v@[p] == v0[p - 1]);
                        assert(v@[q] == v0[q - 1]);
                    }
                }
            }
            assert(v@.contains(x)) by {
                assert(v@[i as int] == x);
            }
            assert forall|y: u64| #[trigger] v@.contains(y)
                implies v0.contains(y) || y == x by {
                let j = choose|j: int| 0 <= j < v@.len() && #[trigger] v@[j] == y;
                if j < i {
                    assert(v0[j] == y);
                } else if j > i {
                    assert(v0[j - 1] == y);
                }
            }
            assert forall|y: u64| v0.contains(y) implies v@.contains(y) by {
                let j = choose|j: int| 0 <= j < v0.len() && #[trigger] v0[j] == y;
                if j < i {
                    assert(v@[j] == y);
                } else {
                    assert(v@[j + 1] == y);
                }
            }
            assert(seq_to_set(v@) =~= seq_to_set(v0).insert(x));
        }
        true
    }
}

/// Removes `x` from a strictly sorted vector; returns whether it was present.
#[verifier::loop_isolation(false)]
pub fn sorted_remove(v: &mut Vec<u64>, x: u64) -> (r: bool)
    requires
        strictly_sorted(old(v)@),
    ensures
        strictly_sorted(final(v)@),
        seq_to_set(final(v)@) == seq_to_set(old(v)@).remove(x),
        r == old(v)@.contains(x),
        final(v)@.len() == old(v)@.len() - (if r { 1int } else { 0int }),
        !final(v)@.contains(x),
        forall|y: u64| old(v)@.contains(y) && y != x ==> final(v)@.contains(y),
        forall|y: u64| #[trigger] final(v)@.contains(y) ==> old(v)@.contains(y),
{
    let ghost v0 = v@;
    let mut i: usize = 0;
    while i < v.len()
        invariant
            i <= v@.len(),
            v@ == v0,
            forall|j: int| 0 <= j < i ==> v@[j] != x,
        decreases v@.len() - i,
    {
        if v[i] == x {
            proof {
                assert(v0.contains(x)) by {
                    assert(v0[i as int] == x);
                }
            }
            v.remove(i);
            proof {
                v0.remove_ensures(i as int);
                assert(v@.len() == v0.len() - 1);
                assert(forall|j: int| 0 <= j < i ==> v@[j] == v0[j]);
                assert(forall|j: int| i <= j < v@.len() ==> v@[j] == v0[j + 1]);
                assert(strictly_sorted(v@)) by {
                    assert forall|p: int, q: int| 0 <= p < q < v@.len()
                        implies v@[p] < v@[q] by {
                        if q < i {
                            assert(v@[p] == v0[p]);
                            assert(v@[q] == v0[q]);
                        } else if p < i {
                            assert(v@[p] == v0[p]);
                            assert(v@[q] == v0[q + 1]);
                        } else {
                            assert(v@[p] == v0[p + 1]);
                            assert(v@[q] == v0[q + 1]);
                        }
                    }
                }
                assert forall|y: u64| #[trigger] v@.contains(y)
                    implies v0.contains(y) && y != x by {
                    let j = choose|j: int| 0 <= j < v@.len() && #[trigger] v@[j] == y;
                    if j < i {
                        assert(v0[j] == y);
                        assert(v0[j] < v0[i as int]);
                    } else {
                        assert(v@[j] == v0[j + 1]);
                        assert(v0[j + 1] == y);
                        assert(v0[i as int] < v0[j + 1]);
                    }
                }
                assert forall|y: u64| v0.contains(y) && y != x
                    implies v@.contains(y) by {
                    let j = choose|j: int| 0 <= j < v0.len() && #[trigger] v0[j] == y;
                    if j < i {
                        assert(v@[j] == y);
                    } else {
                        assert(j != i);
                        assert(v@[j - 1] == y);
                    }
                }
                assert(seq_to_set(v@) =~= seq_to_set(v0).remove(x));
            }
            return true;
        }
        i = i + 1;
    }
    proof {
        assert(!v0.contains(x));
        assert(seq_to_set(v@) =~= seq_to_set(v0).remove(x));
    }
    false
}

/// Copies a vector of events element by element.
pub fn clone_vec_u64(v: &Vec<u64>) -> (r: Vec<u64>)
    ensures
        r@ == v@,
{
    let mut out: Vec<u64> = Vec::new();
    let mut i: usize = 0;
    while i < v.len()
        invariant
            i <= v@.len(),
            out@ == v@.take(i as int),
        decreases v@.len() - i,
    {
        out.push(v[i]);
        proof {
            assert(out@ =~= v@.take(i as int + 1));
        }
        i = i + 1;
    }
    proof {
        assert(v@.take(v@.len() as int) =~= v@);
    }
    out
}

/// Sorts a vector and drops duplicates: the result is strictly increasing and
/// has the same set of elements.
#[verifier::loop_isolation(false)]
pub fn sort_dedup(v: &Vec<u64>) -> (r: Vec<u64>)
    ensures
        strictly_sorted(r@),
        seq_to_set(r@) == seq_to_set(v@),
{
    broadcast use vstd::seq_lib::group_seq_properties;

    let mut out: Vec<u64> = Vec::new();
    let mut i: usize = 0;
    while i < v.len()
        invariant
            i <= v@.len(),
            strictly_sorted(out@),
            seq_to_set(out@) == seq_to_set(v@.take(i as int)),
        decreases v@.len() - i,
    {
        let x = v[i];
        let ghost t0 = v@.take(i as int);
        proof {
            assert(v@.take(i as int + 1) =~= t0.push(x));
        }
        sorted_insert(&mut out, x);
        proof {
            assert forall|y: u64| v@.take(i as int + 1).contains(y)
                == (t0.contains(y) || y == x) by {
                vstd::seq_lib::lemma_seq_contains_after_push(t0, x, y);
            }
            assert(seq_to_set(out@) =~= seq_to_set(v@.take(i as int + 1)));
        }
        i = i + 1;
    }
    proof {
        assert(v@.take(v@.len() as int) =~= v@);
    }
    out
}

} // verus!
