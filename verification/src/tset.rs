use vstd::prelude::*;

use crate::kvlist::{has_view, kv_find, kv_map, kv_unique, lemma_kv_map_domain,
    lemma_kv_map_index, lemma_kv_map_push, lemma_kv_map_update};
use crate::traits::Actor;

verus! {

/// How many times the view `x` occurs in the sequence.
pub open spec fn seq_mult<V>(s: Seq<V>, x: V) -> int
    decreases s.len(),
{
    if s.len() == 0 {
        0
    } else {
        seq_mult(s.drop_last(), x) + if s.last() == x { 1int } else { 0int }
    }
}

/// Occurrence counts are nonnegative and bounded by the length.
pub proof fn lemma_seq_mult_bounds<V>(s: Seq<V>, x: V)
    ensures
        0 <= seq_mult(s, x) <= s.len(),
    decreases s.len(),
{
    if s.len() > 0 {
        lemma_seq_mult_bounds(s.drop_last(), x);
    }
}

/// A threshold set: counts, for each element, in how many of the added
/// collections it occurred, and answers which elements reached a threshold.
pub struct TSet<T: Actor> {
    /// The number of collections added.
    pub set_count: u64,
    /// Element-count pairs, elements distinct.
    pub occurrences: Vec<(T, u64)>,
}

impl<T: Actor> TSet<T> {
    /// The mapping from element views to occurrence counts.
    pub open spec fn view_map(&self) -> Map<<T as DeepView>::V, u64> {
        kv_map(self.occurrences@)
    }

    /// The occurrence count of an element view, zero when absent.
    pub open spec fn spec_count(&self, x: <T as DeepView>::V) -> int {
        if self.view_map().dom().contains(x) {
            self.view_map()[x] as int
        } else {
            0
        }
    }

    /// Elements are distinct.
    pub open spec fn inv(&self) -> bool {
        kv_unique(self.occurrences@)
    }

    /// Returns a new `TSet` instance.
    pub fn new() -> (r: Self)
        ensures
            r.inv(),
            r.set_count == 0,
            r.occurrences@.len() == 0,
    {
        TSet { set_count: 0, occurrences: Vec::new() }
    }

    /// Adds one occurrence of a single element.
    fn add_elem(&mut self, elem: &T)
        requires
            old(self).inv(),
            old(self).spec_count(elem.deep_view()) + 1 <= u64::MAX,
        ensures
            final(self).inv(),
            final(self).set_count == old(self).set_count,
            final(self).view_map() == old(self).view_map().insert(
                elem.deep_view(),
                ((old(self).spec_count(elem.deep_view()) + 1) as u64),
            ),
    {
        let ghost s0 = self.occurrences@;
        match kv_find(&self.occurrences, elem) {
            Some(i) => {
                proof {
                    lemma_kv_map_index::<T, u64>(s0, i as int);
                }
                let c = self.occurrences[i].1;
                let key = self.occurrences[i].0.actor_clone();
                self.occurrences.set(i, (key, c + 1));
                proof {
                    assert(self.occurrences@ =~= s0.update(i as int, (key, (c + 1) as u64)));
                    lemma_kv_map_update::<T, u64>(s0, i as int, (key, (c + 1) as u64));
                }
            }
            None => {
                proof {
                    lemma_kv_map_domain::<T, u64>(s0);
                    if kv_map(s0).dom().contains(elem.deep_view()) {
                        let j = choose|j: int| 0 <= j < s0.len()
                            && (#[trigger] s0[j]).0.deep_view() == elem.deep_view();
                    }
                }
                let key = elem.actor_clone();
                self.occurrences.push((key, 1));
                proof {
                    lemma_kv_map_push::<T, u64>(s0, key, 1);
                    assert(self.occurrences@.drop_last() =~= s0);
                }
            }
        }
    }

    /// Adds a collection of elements: the set count grows by one and each
    /// element's occurrence count grows by its multiplicity in the list.
    #[verifier::loop_isolation(false)]
    pub fn add(&mut self, elems: Vec<T>)
        requires
            old(self).inv(),
            old(self).set_count < u64::MAX,
            forall|x: <T as DeepView>::V|
                #[trigger] old(self).spec_count(x) + elems@.len() <= u64::MAX,
        ensures
            final(self).inv(),
            final(self).set_count == old(self).set_count + 1,
            forall|x: <T as DeepView>::V| #[trigger] final(self).spec_count(x)
                == old(self).spec_count(x) + seq_mult(elems@.map_values(|t: T| t.deep_view()), x),
    {
        let ghost views = elems@.map_values(|t: T| t.deep_view());
        self.set_count = self.set_count + 1;
        let mut i: usize = 0;
        while i < elems.len()
            invariant
                i <= elems@.len(),
                self.inv(),
                self.set_count == old(self).set_count + 1,
                forall|x: <T as DeepView>::V| #[trigger] self.spec_count(x)
                    == old(self).spec_count(x) + seq_mult(views.take(i as int), x),
            decreases elems@.len() - i,
        {
            proof {
                assert forall|x: <T as DeepView>::V|
                    #[trigger] seq_mult(views.take(i as int), x) >= 0
                        && seq_mult(views.take(i as int), x) <= i by {
                    lemma_seq_mult_bounds(views.take(i as int), x);
                }
                assert(self.spec_count(elems@[i as int].deep_view()) + 1 <= u64::MAX) by {
                    assert(old(self).spec_count(elems@[i as int].deep_view())
                        + elems@.len() <= u64::MAX);
                }
            }
            let ghost before = *self;
            self.add_elem(&elems[i]);
            proof {
                assert forall|x: <T as DeepView>::V| #[trigger] self.spec_count(x)
                    == old(self).spec_count(x) + seq_mult(views.take(i as int + 1), x) by {
                    assert(views.take(i as int + 1).drop_last() =~= views.take(i as int));
                    assert(views.take(i as int + 1).last() == views[i as int]);
                    assert(views[i as int] == elems@[i as int].deep_view());
                    if x == elems@[i as int].deep_view() {
                        assert(self.spec_count(x) == before.spec_count(x) + 1);
                    } else {
                        assert(self.spec_count(x) == before.spec_count(x));
                    }
                }
            }
            i = i + 1;
        }
        proof {
            assert(views.take(views.len() as int) =~= views);
        }
    }

    /// Returns the number of collections added.
    pub fn set_count(&self) -> (r: u64)
        ensures
            r == self.set_count,
    {
        self.set_count
    }

    /// Returns the number of occurrences of an element.
    pub fn count(&self, elem: &T) -> (r: u64)
        requires
            self.inv(),
        ensures
            r == self.spec_count(elem.deep_view()),
    {
        match kv_find(&self.occurrences, elem) {
            Some(i) => {
                proof {
                    lemma_kv_map_index::<T, u64>(self.occurrences@, i as int);
                }
                self.occurrences[i].1
            }
            None => {
                proof {
                    lemma_kv_map_domain::<T, u64>(self.occurrences@);
                    if self.view_map().dom().contains(elem.deep_view()) {
                        let j = choose|j: int| 0 <= j < self.occurrences@.len()
                            && (#[trigger] self.occurrences@[j]).0.deep_view()
                                == elem.deep_view();
                    }
                }
                0
            }
        }
    }

    /// The elements whose occurrence count reaches the threshold.
    #[verifier::loop_isolation(false)]
    pub fn threshold_union(&self, threshold: u64) -> (r: Vec<T>)
        requires
            self.inv(),
        ensures
            forall|x: <T as DeepView>::V| #[trigger] has_view(r@, x)
                <==> self.view_map().dom().contains(x)
                    && self.view_map()[x] >= threshold,
    {
        proof {
            lemma_kv_map_domain::<T, u64>(self.occurrences@);
        }
        let mut out: Vec<T> = Vec::new();
        let mut i: usize = 0;
        while i < self.occurrences.len()
            invariant
                i <= self.occurrences@.len(),
                forall|x: <T as DeepView>::V| #[trigger] has_view(out@, x)
                    <==> exists|j: int| 0 <= j < i
                        && (#[trigger] self.occurrences@[j]).0.deep_view() == x
                        && self.occurrences@[j].1 >= threshold,
            decreases self.occurrences@.len() - i,
        {
            let c = self.occurrences[i].1;
            if c >= threshold {
                let ghost out0 = out@;
                let key = self.occurrences[i].0.actor_clone();
                out.push(key);
                proof {
                    assert forall|x: <T as DeepView>::V| #[trigger] has_view(out@, x)
                        implies exists|j: int| 0 <= j < i + 1
                            && (#[trigger] self.occurrences@[j]).0.deep_view() == x
                            && self.occurrences@[j].1 >= threshold by {
                        let q = choose|q: int| 0 <= q < out@.len()
                            && (#[trigger] out@[q]).deep_view() == x;
                        if q < out0.len() {
                            assert(out0[q].deep_view() == x);
                            assert(has_view(out0, x));
                        } else {
                            assert(self.occurrences@[i as int].0.deep_view() == x);
                        }
                    }
                    assert forall|x: <T as DeepView>::V|
                        (exists|j: int| 0 <= j < i + 1
                            && (#[trigger] self.occurrences@[j]).0.deep_view() == x
                            && self.occurrences@[j].1 >= threshold)
                        implies #[trigger] has_view(out@, x) by {
                        let j = choose|j: int| 0 <= j < i + 1
                            && (#[trigger] self.occurrences@[j]).0.deep_view() == x
                            && self.occurrences@[j].1 >= threshold;
                        if j < i {
                            assert(has_view(out0, x));
                            let q = choose|q: int| 0 <= q < out0.len()
                                && (#[trigger] out0[q]).deep_view() == x;
                            assert(out@[q].deep_view() == x);
                        } else {
                            assert(out@[out0.len() as int].deep_view() == x);
                        }
                    }
                }
            } else {
                proof {
                    assert forall|x: <T as DeepView>::V|
                        (exists|j: int| 0 <= j < i + 1
                            && (#[trigger] self.occurrences@[j]).0.deep_view() == x
                            && self.occurrences@[j].1 >= threshold)
                        implies #[trigger] has_view(out@, x) by {
                        let j = choose|j: int| 0 <= j < i + 1
                            && (#[trigger] self.occurrences@[j]).0.deep_view() == x
                            && self.occurrences@[j].1 >= threshold;
                        assert(j < i);
                    }
                }
            }
            i = i + 1;
        }
        proof {
            assert forall|x: <T as DeepView>::V| #[trigger] has_view(out@, x)
                == (self.view_map().dom().contains(x)
                    && self.view_map()[x] >= threshold) by {
                if exists|j: int| 0 <= j < self.occurrences@.len()
                    && (#[trigger] self.occurrences@[j]).0.deep_view() == x
                    && self.occurrences@[j].1 >= threshold {
                    let j = choose|j: int| 0 <= j < self.occurrences@.len()
                        && (#[trigger] self.occurrences@[j]).0.deep_view() == x
                        && self.occurrences@[j].1 >= threshold;
                    lemma_kv_map_index::<T, u64>(self.occurrences@, j);
                }
                if self.view_map().dom().contains(x) && self.view_map()[x] >= threshold {
                    let j = choose|j: int| 0 <= j < self.occurrences@.len()
                        && (#[trigger] self.occurrences@[j]).0.deep_view() == x;
                    lemma_kv_map_index::<T, u64>(self.occurrences@, j);
                }
            }
        }
        out
    }

    /// The elements in the threshold-union, as a list.
    pub fn threshold_union_iter(&self, threshold: u64) -> (r: Vec<T>)
        requires
            self.inv(),
        ensures
            forall|x: <T as DeepView>::V| #[trigger] has_view(r@, x)
                <==> self.view_map().dom().contains(x)
                    && self.view_map()[x] >= threshold,
    {
        self.threshold_union(threshold)
    }

    /// The elements that occur in at least one added collection.
    pub fn union(&self) -> (r: Vec<T>)
        requires
            self.inv(),
        ensures
            forall|x: <T as DeepView>::V| #[trigger] has_view(r@, x)
                <==> self.view_map().dom().contains(x) && self.view_map()[x] >= 1,
    {
        self.threshold_union(1)
    }

    /// The elements that occur in every added collection.
    pub fn intersection(&self) -> (r: Vec<T>)
        requires
            self.inv(),
        ensures
            forall|x: <T as DeepView>::V| #[trigger] has_view(r@, x)
                <==> self.view_map().dom().contains(x)
                    && self.view_map()[x] >= self.set_count,
    {
        self.threshold_union(self.set_count)
    }
}

} // verus!
