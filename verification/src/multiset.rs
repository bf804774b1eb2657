use vstd::prelude::*;

use crate::kvlist::{kv_find, kv_map, kv_unique, lemma_kv_map_domain, lemma_kv_map_index,
    lemma_kv_map_insert, lemma_kv_map_update};
use crate::traits::{strictly_sorted, Count};

verus! {

/// An ordered multi-set: a mapping from an event number to an accumulated
/// count, iterated in ascending key order.
#[derive(Clone, PartialEq, Eq, Debug)]
pub struct MultiSet<C: Count + Copy> {
    /// Key-count pairs, keys strictly increasing.
    pub entries: Vec<(u64, C)>,
}

impl<C: Count + Copy> MultiSet<C> {
    /// The mapping from keys to counts.
    pub open spec fn view_map(&self) -> Map<u64, C> {
        kv_map(self.entries@)
    }

    /// The count of a key: the stored count, or zero when absent.
    pub open spec fn spec_count(&self, k: u64) -> C {
        if self.view_map().dom().contains(k) {
            self.view_map()[k]
        } else {
            C::count_zero()
        }
    }

    /// Keys are strictly increasing.
    pub open spec fn inv(&self) -> bool {
        forall|i: int, j: int| 0 <= i < j < self.entries@.len()
            ==> (#[trigger] self.entries@[i]).0 < (#[trigger] self.entries@[j]).0
    }

    /// Strictly increasing keys are unique.
    pub proof fn lemma_unique(&self)
        requires
            self.inv(),
        ensures
            kv_unique(self.entries@),
    {
    }

    /// Returns a new, empty `MultiSet`.
    pub fn new() -> (r: Self)
        ensures
            r.inv(),
            r.entries@.len() == 0,
            r.view_map() == Map::<u64, C>::empty(),
    {
        MultiSet { entries: Vec::new() }
    }

    /// Creates a `MultiSet` from key-count pairs with distinct keys.
    pub fn from(pairs: Vec<(u64, C)>) -> (r: Self)
        requires
            forall|i: int, j: int| 0 <= i < j < pairs@.len()
                ==> (#[trigger] pairs@[i]).0 != (#[trigger] pairs@[j]).0,
            forall|i: int| 0 <= i < pairs@.len()
                ==> C::count_zero().count_can_add((#[trigger] pairs@[i]).1),
        ensures
            r.inv(),
            forall|i: int| 0 <= i < pairs@.len()
                ==> r.view_map().dom().contains((#[trigger] pairs@[i]).0)
                    && r.view_map()[pairs@[i].0]
                        == C::count_zero().count_add(pairs@[i].1),
            forall|k: u64| #[trigger] r.view_map().dom().contains(k)
                ==> exists|i: int| 0 <= i < pairs@.len() && (#[trigger] pairs@[i]).0 == k,
    {
        let mut r = Self::new();
        r.add(pairs);
        r
    }

    /// Adds each pair of the list to the multi-set; the keys of the list must
    /// be distinct and each addition must stay within the count's bounds.
    #[verifier::loop_isolation(false)]
    pub fn add(&mut self, pairs: Vec<(u64, C)>)
        requires
            old(self).inv(),
            forall|i: int, j: int| 0 <= i < j < pairs@.len()
                ==> (#[trigger] pairs@[i]).0 != (#[trigger] pairs@[j]).0,
            forall|i: int| 0 <= i < pairs@.len()
                ==> old(self).spec_count((#[trigger] pairs@[i]).0)
                    .count_can_add(pairs@[i].1),
        ensures
            final(self).inv(),
            forall|i: int| 0 <= i < pairs@.len()
                ==> final(self).view_map().dom().contains((#[trigger] pairs@[i]).0)
                    && final(self).view_map()[pairs@[i].0]
                        == old(self).spec_count(pairs@[i].0).count_add(pairs@[i].1),
            forall|k: u64|
                (forall|i: int| 0 <= i < pairs@.len() ==> (#[trigger] pairs@[i]).0 != k)
                    ==> final(self).spec_count(k) == old(self).spec_count(k)
                        && (#[trigger] final(self).view_map().dom().contains(k)
                            == old(self).view_map().dom().contains(k)),
    {
        let ghost before = *old(self);
        let mut i: usize = 0;
        while i < pairs.len()
            invariant
                i <= pairs@.len(),
                self.inv(),
                forall|j: int| 0 <= j < i
                    ==> self.view_map().dom().contains((#[trigger] pairs@[j]).0)
                        && self.view_map()[pairs@[j].0]
                            == before.spec_count(pairs@[j].0).count_add(pairs@[j].1),
                forall|k: u64|
                    (forall|j: int| 0 <= j < i ==> (#[trigger] pairs@[j]).0 != k)
                        ==> self.spec_count(k) == before.spec_count(k)
                            && (#[trigger] self.view_map().dom().contains(k)
                                == before.view_map().dom().contains(k)),
            decreases pairs@.len() - i,
        {
            let key = pairs[i].0;
            let by = pairs[i].1;
            proof {
                assert(self.spec_count(key) == before.spec_count(key));
            }
            self.add_elem(key, by);
            i = i + 1;
        }
    }

    /// Adds a single count at a key.
    #[verifier::loop_isolation(false)]
    pub fn add_elem(&mut self, elem: u64, by: C)
        requires
            old(self).inv(),
            old(self).spec_count(elem).count_can_add(by),
        ensures
            final(self).inv(),
            final(self).view_map() == old(self).view_map()
                .insert(elem, old(self).spec_count(elem).count_add(by)),
            (exists|i: int| 0 <= i < old(self).entries@.len()
                && (#[trigger] old(self).entries@[i]).0 == elem
                && final(self).entries@ == old(self).entries@.update(
                    i, (elem, old(self).entries@[i].1.count_add(by))))
            || (exists|i: int| 0 <= i <= old(self).entries@.len()
                && final(self).entries@ == #[trigger] old(self).entries@.insert(
                    i, (elem, C::count_zero().count_add(by)))
                && !old(self).view_map().dom().contains(elem)),
    {
        let ghost s0 = self.entries@;
        let mut i: usize = 0;
        while i < self.entries.len() && self.entries[i].0 < elem
            invariant
                i <= self.entries@.len(),
                self.entries@ == s0,
                forall|j: int| 0 <= j < i ==> (#[trigger] s0[j]).0 < elem,
            decreases self.entries@.len() - i,
        {
            i = i + 1;
        }
        if i < self.entries.len() && self.entries[i].0 == elem {
            proof {
                self.lemma_unique();
                lemma_kv_map_index::<u64, C>(s0, i as int);
            }
            let mut c = self.entries[i].1;
            c.add(by);
            self.entries.set(i, (elem, c));
            proof {
                lemma_kv_map_update::<u64, C>(s0, i as int, (elem, c));
                assert forall|p: int, q: int| 0 <= p < q < self.entries@.len()
                    implies (#[trigger] self.entries@[p]).0
                        < (#[trigger] self.entries@[q]).0 by {
                    if p != i && q != i {
                        assert(self.entries@[p] == s0[p]);
                        assert(self.entries@[q] == s0[q]);
                    } else if p == i {
                        assert(self.entries@[q] == s0[q]);
                    } else {
                        assert(self.entries@[p] == s0[p]);
                    }
                }
            }
        } else {
            proof {
                assert forall|j: int| 0 <= j < s0.len()
                    implies (#[trigger] s0[j]).0 != elem by {
                    if j >= i {
                        assert(s0[i as int].0 <= s0[j].0);
                    }
                }
                assert(!self.view_map().dom().contains(elem)) by {
                    lemma_kv_map_domain::<u64, C>(s0);
                    if self.view_map().dom().contains(elem) {
                        let j = choose|j: int| 0 <= j < s0.len()
                            && (#[trigger] s0[j]).0.deep_view() == elem.deep_view();
                    }
                }
            }
            let mut c = C::zero();
            c.add(by);
            self.entries.insert(i, (elem, c));
            proof {
                lemma_kv_map_insert::<u64, C>(s0, i as int, (elem, c));
                s0.insert_ensures(i as int, (elem, c));
                assert forall|p: int, q: int| 0 <= p < q < self.entries@.len()
                    implies (#[trigger] self.entries@[p]).0
                        < (#[trigger] self.entries@[q]).0 by {
                    if p < i && q < i {
                        assert(self.entries@[p] == s0[p]);
                        assert(self.entries@[q] == s0[q]);
                    } else if p < i && q == i {
                        assert(self.entries@[p] == s0[p]);
                    } else if p < i && q > i {
                        assert(self.entries@[p] == s0[p]);
                        assert(self.entries@[q] == s0[q - 1]);
                    } else if p == i && q > i {
                        assert(self.entries@[q] == s0[q - 1]);
                        assert(s0[i as int].0 <= s0[q - 1].0);
                    } else {
                        assert(self.entries@[p] == s0[p - 1]);
                        assert(self.entries@[q] == s0[q - 1]);
                    }
                }
            }
        }
    }

    /// Returns the count of an element, zero when absent.
    pub fn count(&self, elem: u64) -> (r: C)
        requires
            self.inv(),
        ensures
            r == self.spec_count(elem),
    {
        match kv_find(&self.entries, &elem) {
            Some(i) => {
                proof {
                    self.lemma_unique();
                    lemma_kv_map_index::<u64, C>(self.entries@, i as int);
                }
                self.entries[i].1
            }
            None => {
                proof {
                    assert(!self.view_map().dom().contains(elem)) by {
                        lemma_kv_map_domain::<u64, C>(self.entries@);
                        if self.view_map().dom().contains(elem) {
                            let j = choose|j: int| 0 <= j < self.entries@.len()
                                && (#[trigger] self.entries@[j]).0.deep_view()
                                    == elem.deep_view();
                        }
                    }
                }
                C::zero()
            }
        }
    }

    /// Copies the multi-set.
    pub fn duplicate(&self) -> (r: Self)
        ensures
            r.entries@ == self.entries@,
    {
        MultiSet { entries: self.iter() }
    }

    /// A copy of the key-count pairs, ascending by key.
    pub fn iter(&self) -> (r: Vec<(u64, C)>)
        ensures
            r@ == self.entries@,
    {
        let mut out: Vec<(u64, C)> = Vec::new();
        let mut i: usize = 0;
        while i < self.entries.len()
            invariant
                i <= self.entries@.len(),
                out@ == self.entries@.take(i as int),
            decreases self.entries@.len() - i,
        {
            out.push(self.entries[i]);
            proof {
                assert(out@ =~= self.entries@.take(i as int + 1));
            }
            i = i + 1;
        }
        proof {
            assert(self.entries@.take(self.entries@.len() as int) =~= self.entries@);
        }
        out
    }
}

impl MultiSet<u64> {
    /// The keys whose count is at least `threshold`, ascending.
    #[verifier::loop_isolation(false)]
    pub fn threshold(&self, threshold: u64) -> (r: Vec<u64>)
        requires
            self.inv(),
        ensures
            strictly_sorted(r@),
            forall|k: u64| #[trigger] r@.contains(k)
                <==> self.view_map().dom().contains(k) && self.view_map()[k] >= threshold,
    {
        proof {
            self.lemma_unique();
            lemma_kv_map_domain::<u64, u64>(self.entries@);
        }
        let mut out: Vec<u64> = Vec::new();
        let mut i: usize = 0;
        while i < self.entries.len()
            invariant
                i <= self.entries@.len(),
                strictly_sorted(out@),
                forall|k: u64| #[trigger] out@.contains(k)
                    <==> exists|j: int| 0 <= j < i && (#[trigger] self.entries@[j]).0 == k
                        && self.entries@[j].1 >= threshold,
            decreases self.entries@.len() - i,
        {
            let key = self.entries[i].0;
            let cnt = self.entries[i].1;
            if cnt >= threshold {
                proof {
                    assert forall|k: int| 0 <= k < out@.len() implies out@[k] < key by {
                        assert(out@.contains(out@[k]));
                        let j = choose|j: int| 0 <= j < i
                            && (#[trigger] self.entries@[j]).0 == out@[k]
                            && self.entries@[j].1 >= threshold;
                    }
                }
                let ghost out0 = out@;
                out.push(key);
                proof {
                    assert forall|k: u64| #[trigger] out@.contains(k)
                        == (out0.contains(k) || k == key) by {
                        vstd::seq_lib::lemma_seq_contains_after_push(out0, key, k);
                    }
                    assert(self.entries@[i as int].0 == key);
                }
            }
            i = i + 1;
        }
        proof {
            assert forall|k: u64| #[trigger] out@.contains(k)
                == (self.view_map().dom().contains(k)
                    && self.view_map()[k] >= threshold) by {
                if out@.contains(k) {
                    let j = choose|j: int| 0 <= j < self.entries@.len()
                        && (#[trigger] self.entries@[j]).0 == k
                        && self.entries@[j].1 >= threshold;
                    lemma_kv_map_index::<u64, u64>(self.entries@, j);
                }
                if self.view_map().dom().contains(k) && self.view_map()[k] >= threshold {
                    let j = choose|j: int| 0 <= j < self.entries@.len()
                        && (#[trigger] self.entries@[j]).0.deep_view() == k.deep_view();
                    lemma_kv_map_index::<u64, u64>(self.entries@, j);
                }
            }
        }
        out
    }
}

} // verus!
