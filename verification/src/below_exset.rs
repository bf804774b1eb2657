use vstd::prelude::*;

use crate::seqtools::{clone_vec_u64, sort_dedup, sorted_insert, sorted_remove, vec_contains};
use crate::traits::{set_range, seq_to_set, strictly_sorted, EventSet};

verus! {

broadcast use vstd::seq_lib::group_seq_properties;

/// An event set stored as the highest event seen plus the set of *exceptions*:
/// events below the highest that are not in the set.  The set is
/// `{1..max} \ exs`.  Ideal when the set is nearly contiguous.
#[derive(Clone, PartialEq, Eq, Debug)]
pub struct BelowExSet {
    pub max: u64,
    /// Exceptions, strictly increasing, each in `1..max`.
    pub exs: Vec<u64>,
}

impl BelowExSet {
    /// Creates a new instance from the highest event and a list of exceptions
    /// (in any order, duplicates allowed), each strictly between 0 and `max`.
    pub fn from(max: u64, exs: Vec<u64>) -> (r: Self)
        requires
            forall|i: int| 0 <= i < exs@.len() ==> 1 <= #[trigger] exs@[i] < max,
        ensures
            r.inv(),
            r.max == max,
            r.view_set() == set_range(1, max).difference(seq_to_set(exs@)),
    {
        let sorted = sort_dedup(&exs);
        let r = BelowExSet { max, exs: sorted };
        proof {
            assert forall|x: u64| #[trigger] r.exs@.contains(x) implies 1 <= x < max by {
                assert(seq_to_set(r.exs@).contains(x));
                assert(seq_to_set(exs@).contains(x));
                let i = choose|i: int| 0 <= i < exs@.len() && #[trigger] exs@[i] == x;
            }
            assert forall|i: int| 0 <= i < r.exs@.len()
                implies 1 <= #[trigger] r.exs@[i] < max by {
                assert(r.exs@.contains(r.exs@[i]));
            }
            assert(r.view_set() =~= set_range(1, max).difference(seq_to_set(exs@)));
        }
        r
    }

}

impl EventSet for BelowExSet {
    open spec fn view_set(&self) -> Set<u64> {
        set_range(1, self.max).difference(seq_to_set(self.exs@))
    }

    open spec fn inv(&self) -> bool {
        &&& strictly_sorted(self.exs@)
        &&& forall|i: int| 0 <= i < self.exs@.len() ==> 1 <= #[trigger] self.exs@[i] < self.max
    }

    open spec fn added(e: u64) -> Set<u64> {
        if e >= 1 {
            Set::empty().insert(e)
        } else {
            Set::empty()
        }
    }

    open spec fn added_range(start: u64, end: u64) -> Set<u64> {
        set_range(start, end)
    }

    open spec fn exact() -> bool {
        true
    }

    open spec fn can_next(&self) -> bool {
        self.exs@.len() == 0 && self.max < u64::MAX
    }

    open spec fn meet_defined() -> bool {
        false
    }

    open spec fn votes_exact() -> bool {
        true
    }

    open spec fn no_negatives() -> bool {
        false
    }

    open spec fn events_max(&self) -> u64 {
        self.max
    }

    open spec fn events_over(&self) -> Set<u64> {
        seq_to_set(self.exs@)
    }

    open spec fn frontier_spec(&self) -> u64 {
        if self.exs@.len() == 0 {
            self.max
        } else {
            (self.exs@[0] - 1) as u64
        }
    }

    proof fn lemma_inv(&self) {
        assert forall|x: u64| self.events_over().contains(x) implies 1 <= x by {
            let i = choose|i: int| 0 <= i < self.exs@.len() && #[trigger] self.exs@[i] == x;
        }
    }

    proof fn lemma_added(e: u64) {
    }

    proof fn lemma_added_range(start: u64, end: u64) {
    }

    proof fn lemma_votes(&self, e: u64) {
        if self.events_over().contains(e) {
            let i = choose|i: int| 0 <= i < self.exs@.len() && #[trigger] self.exs@[i] == e;
        }
    }

    fn new() -> (r: Self) {
        let r = BelowExSet { max: 0, exs: Vec::new() };
        proof {
            assert(r.view_set() =~= Set::<u64>::empty());
        }
        r
    }

    fn from_event(event: u64) -> (r: Self) {
        let mut r = Self::new();
        r.add_event(event);
        proof {
            assert(r.view_set() =~= Self::added(event));
        }
        r
    }

    fn from_event_range(start: u64, end: u64) -> (r: Self) {
        let mut r = Self::new();
        r.add_event_range(start, end);
        proof {
            assert(r.view_set() =~= Self::added_range(start, end));
        }
        r
    }

    fn from_events(events: Vec<u64>) -> (r: Self) {
        let mut r = Self::new();
        proof {
            assert(r.view_set() =~= Set::<u64>::empty());
        }
        let mut i: usize = 0;
        while i < events.len()
            invariant
                i <= events.len(),
                r.inv(),
                forall|j: int, x: u64|
                    0 <= j < i && #[trigger] Self::added(events@[j]).contains(x)
                        ==> r.view_set().contains(x),
                forall|x: u64| #[trigger] r.view_set().contains(x)
                    ==> exists|j: int| 0 <= j < i
                        && #[trigger] Self::added(events@[j]).contains(x),
            decreases events.len() - i,
        {
            r.add_event(events[i]);
            i = i + 1;
        }
        r
    }

    fn next_event(&mut self) -> (r: u64) {
        self.max = self.max + 1;
        let r = self.max;
        proof {
            assert forall|x: u64| final(self).view_set().contains(x)
                implies 1 <= x <= r by {}
            assert forall|x: u64| 1 <= x <= r
                implies final(self).view_set().contains(x) by {}
        }
        r
    }

    #[verifier::loop_isolation(false)]
    fn add_event(&mut self, event: u64) -> (r: bool) {
        let ghost before = *old(self);
        if event > self.max {
            let ghost max0 = self.max;
            let mut k: u64 = self.max + 1;
            while k < event
                invariant
                    max0 < k <= event,
                    self.max == max0,
                    strictly_sorted(self.exs@),
                    forall|i: int| 0 <= i < self.exs@.len()
                        ==> 1 <= #[trigger] self.exs@[i] < event,
                    seq_to_set(self.exs@)
                        == seq_to_set(before.exs@) + set_range((max0 + 1) as u64, (k - 1) as u64),
                decreases event - k,
            {
                proof {
                    assert forall|i: int| 0 <= i < self.exs@.len()
                        implies #[trigger] self.exs@[i] != k by {
                        assert(self.exs@.contains(self.exs@[i]));
                        assert(seq_to_set(self.exs@).contains(self.exs@[i]));
                    }
                }
                sorted_insert(&mut self.exs, k);
                proof {
                    assert(seq_to_set(self.exs@) =~= seq_to_set(before.exs@)
                        + set_range((max0 + 1) as u64, k));
                    assert forall|i: int| 0 <= i < self.exs@.len()
                        implies 1 <= #[trigger] self.exs@[i] < event by {
                        assert(self.exs@.contains(self.exs@[i]));
                    }
                }
                k = k + 1;
            }
            self.max = event;
            proof {
                assert(final(self).view_set() =~= before.view_set() + Self::added(event));
            }
            true
        } else if event == self.max {
            proof {
                if self.max >= 1 {
                    assert(!seq_to_set(self.exs@).contains(event)) by {
                        if self.exs@.contains(event) {
                            let i = choose|i: int|
                                0 <= i < self.exs@.len() && #[trigger] self.exs@[i] == event;
                        }
                    }
                    assert(before.view_set().contains(event));
                }
                assert(final(self).view_set() =~= before.view_set() + Self::added(event));
            }
            false
        } else {
            let r = sorted_remove(&mut self.exs, event);
            proof {
                assert forall|i: int| 0 <= i < self.exs@.len()
                    implies 1 <= #[trigger] self.exs@[i] < self.max by {
                    assert(self.exs@.contains(self.exs@[i]));
                    let j = choose|j: int|
                        0 <= j < before.exs@.len() && #[trigger] before.exs@[j] == self.exs@[i];
                }
                assert(final(self).view_set() =~= before.view_set() + Self::added(event));
                if event >= 1 {
                    assert(r == !before.view_set().contains(event));
                }
            }
            r
        }
    }

    #[verifier::loop_isolation(false)]
    fn add_event_range(&mut self, start: u64, end: u64) -> (r: bool) {
        let ghost before = *old(self);
        let mut res = false;
        let mut cur = start;
        while cur < end
            invariant
                start <= cur <= end,
                self.inv(),
                self.view_set() == before.view_set() + set_range(start, (cur - 1) as u64),
                res == exists|x: u64|
                    start <= x < cur && !(#[trigger] before.view_set().contains(x)),
            decreases end - cur,
        {
            let ghost mid = *self;
            let added = self.add_event(cur);
            proof {
                assert(self.view_set() =~= before.view_set() + set_range(start, cur));
                if added {
                    assert(!before.view_set().contains(cur));
                } else {
                    assert(mid.view_set().contains(cur));
                    if !before.view_set().contains(cur) {
                        assert(set_range(start, (cur - 1) as u64).contains(cur));
                        assert(false);
                    }
                }
            }
            res = res || added;
            cur = cur + 1;
        }
        let ghost mid = *self;
        let added = self.add_event(end);
        let r = res || added;
        proof {
            assert(final(self).view_set()
                =~= before.view_set() + Self::added_range(start, end));
            if added {
                assert(!before.view_set().contains(end));
            } else {
                assert(mid.view_set().contains(end));
                if !before.view_set().contains(end) {
                    assert(set_range(start, (end - 1) as u64).contains(end));
                    assert(false);
                }
            }
            if r {
                if added {
                    assert(Self::added_range(start, end).contains(end)
                        && !before.view_set().contains(end));
                } else {
                    let x = choose|x: u64|
                        start <= x < end && !(#[trigger] before.view_set().contains(x));
                    assert(Self::added_range(start, end).contains(x));
                }
            } else {
                assert forall|x: u64|
                    Self::added_range(start, end).contains(x)
                    implies before.view_set().contains(x) by {
                    if x < end {
                        assert(start <= x < end);
                    }
                }
            }
        }
        r
    }

    fn duplicate(&self) -> (r: Self) {
        BelowExSet { max: self.max, exs: clone_vec_u64(&self.exs) }
    }

    fn is_event(&self, event: u64) -> (r: bool) {
        if 1 <= event && event <= self.max {
            !vec_contains(&self.exs, event)
        } else {
            proof {
                if self.view_set().contains(event) {
                    assert(false);
                }
            }
            false
        }
    }

    fn events(&self) -> (r: (u64, Vec<u64>)) {
        (self.max, clone_vec_u64(&self.exs))
    }

    fn frontier(&self) -> (r: u64) {
        if self.exs.len() == 0 {
            self.max
        } else {
            let r = self.exs[0] - 1;
            proof {
                assert forall|x: u64| 1 <= x <= r
                    implies self.view_set().contains(x) by {
                    if self.exs@.contains(x) {
                        let i = choose|i: int|
                            0 <= i < self.exs@.len() && #[trigger] self.exs@[i] == x;
                        assert(self.exs@[0] <= self.exs@[i]);
                        assert(false);
                    }
                }
                assert(self.exs@.contains(self.exs@[0]));
                assert(!self.view_set().contains((r + 1) as u64));
            }
            r
        }
    }

    #[verifier::loop_isolation(false)]
    fn join(&mut self, other: &Self) {
        let ghost a = *old(self);
        let ghost b = *other;

        // keep the local exceptions that are not events of `other`
        let mut kept: Vec<u64> = Vec::new();
        let mut i: usize = 0;
        while i < self.exs.len()
            invariant
                i <= self.exs@.len(),
                self.exs@ == a.exs@,
                self.max == a.max,
                strictly_sorted(kept@),
                forall|x: u64| #[trigger] kept@.contains(x)
                    <==> a.exs@.take(i as int).contains(x) && !b.view_set().contains(x),
            decreases self.exs@.len() - i,
        {
            let x = self.exs[i];
            let ghost take0 = a.exs@.take(i as int);
            proof {
                assert(a.exs@.take(i as int + 1) =~= take0.push(x));
                assert forall|y: u64| a.exs@.take(i as int + 1).contains(y)
                    == (take0.contains(y) || y == x) by {
                    vstd::seq_lib::lemma_seq_contains_after_push(take0, x, y);
                }
            }
            if !other.is_event(x) {
                proof {
                    assert forall|k: int| 0 <= k < kept@.len()
                        implies kept@[k] < x by {
                        assert(kept@.contains(kept@[k]));
                        let j = choose|j: int|
                            0 <= j < take0.len() && #[trigger] take0[j] == kept@[k];
                        assert(a.exs@[j] == kept@[k]);
                    }
                }
                let ghost kept0 = kept@;
                kept.push(x);
                proof {
                    assert forall|y: u64| #[trigger] kept@.contains(y)
                        == (kept0.contains(y) || y == x) by {
                        vstd::seq_lib::lemma_seq_contains_after_push(kept0, x, y);
                    }
                }
            }
            i = i + 1;
        }
        proof {
            assert(a.exs@.take(a.exs@.len() as int) =~= a.exs@);
        }

        // add the remote exceptions that are not events of `self` (as it was)
        let mut j: usize = 0;
        while j < other.exs.len()
            invariant
                j <= other.exs@.len(),
                strictly_sorted(kept@),
                forall|x: u64| #[trigger] kept@.contains(x)
                    <==> (a.exs@.contains(x) && !b.view_set().contains(x))
                        || (b.exs@.take(j as int).contains(x) && !a.view_set().contains(x)),
            decreases other.exs@.len() - j,
        {
            let y = other.exs[j];
            let ghost take0 = b.exs@.take(j as int);
            proof {
                assert(b.exs@.take(j as int + 1) =~= take0.push(y));
                assert forall|z: u64| b.exs@.take(j as int + 1).contains(z)
                    == (take0.contains(z) || z == y) by {
                    vstd::seq_lib::lemma_seq_contains_after_push(take0, y, z);
                }
            }
            let not_local = {
                // membership in the snapshot `a`: `self` still holds `a`'s fields
                if 1 <= y && y <= self.max {
                    vec_contains(&self.exs, y)
                } else {
                    proof {
                        if a.view_set().contains(y) {
                            assert(false);
                        }
                    }
                    true
                }
            };
            proof {
                assert(not_local == !a.view_set().contains(y));
                assert(b.exs@.contains(y)) by {
                    assert(b.exs@[j as int] == y);
                }
            }
            if not_local {
                let ghost kept0 = kept@;
                sorted_insert(&mut kept, y);
                proof {
                    assert forall|x: u64| #[trigger] kept@.contains(x)
                        == (kept0.contains(x) || x == y) by {
                        assert(seq_to_set(kept@).contains(x)
                            == seq_to_set(kept0).insert(y).contains(x));
                    }
                }
            }
            j = j + 1;
        }
        proof {
            assert(b.exs@.take(b.exs@.len() as int) =~= b.exs@);
        }

        let new_max = if other.max > self.max { other.max } else { self.max };
        self.exs = kept;
        self.max = new_max;

        proof {
            assert forall|k: int| 0 <= k < final(self).exs@.len()
                implies 1 <= #[trigger] final(self).exs@[k] < final(self).max by {
                let x = final(self).exs@[k];
                assert(final(self).exs@.contains(x));
                if a.exs@.contains(x) && !b.view_set().contains(x) {
                    let t = choose|t: int| 0 <= t < a.exs@.len() && #[trigger] a.exs@[t] == x;
                } else {
                    let t = choose|t: int| 0 <= t < b.exs@.len() && #[trigger] b.exs@[t] == x;
                }
            }
            assert forall|x: u64| final(self).view_set().contains(x)
                == (a.view_set() + b.view_set()).contains(x) by {
                if a.exs@.contains(x) {
                    let t = choose|t: int| 0 <= t < a.exs@.len() && #[trigger] a.exs@[t] == x;
                }
                if b.exs@.contains(x) {
                    let t = choose|t: int| 0 <= t < b.exs@.len() && #[trigger] b.exs@[t] == x;
                }
            }
            assert(final(self).view_set() =~= a.view_set() + b.view_set());
        }
    }

    fn meet(&mut self, _other: &Self) {
        // set intersection is not available for this representation
    }

    #[verifier::loop_isolation(false)]
    fn event_iter(self) -> (r: Vec<u64>) {
        let mut out: Vec<u64> = Vec::new();
        let mut e: u64 = 0;
        while e < self.max
            invariant
                e <= self.max,
                strictly_sorted(out@),
                forall|k: int| 0 <= k < out@.len() ==> #[trigger] out@[k] <= e,
                forall|x: u64| #[trigger] out@.contains(x)
                    <==> 1 <= x <= e && !seq_to_set(self.exs@).contains(x),
            decreases self.max - e,
        {
            e = e + 1;
            if !vec_contains(&self.exs, e) {
                let ghost out0 = out@;
                out.push(e);
                proof {
                    assert forall|y: u64| #[trigger] out@.contains(y)
                        == (out0.contains(y) || y == e) by {
                        vstd::seq_lib::lemma_seq_contains_after_push(out0, e, y);
                    }
                    assert forall|k: int| 0 <= k < out@.len()
                        implies #[trigger] out@[k] <= e by {
                        assert(out@.contains(out@[k]));
                    }
                }
            }
        }
        proof {
            assert(seq_to_set(out@) =~= self.view_set());
        }
        out
    }

    #[verifier::loop_isolation(false)]
    fn subtracted(&self, other: &Self) -> (r: Vec<u64>) {
        let mut out: Vec<u64> = Vec::new();
        let mut e: u64 = 0;
        while e < self.max
            invariant
                e <= self.max,
                strictly_sorted(out@),
                forall|k: int| 0 <= k < out@.len() ==> #[trigger] out@[k] <= e,
                forall|x: u64| #[trigger] out@.contains(x)
                    <==> 1 <= x <= e && !seq_to_set(self.exs@).contains(x)
                        && !other.view_set().contains(x),
            decreases self.max - e,
        {
            e = e + 1;
            if !vec_contains(&self.exs, e) && !other.is_event(e) {
                let ghost out0 = out@;
                out.push(e);
                proof {
                    assert forall|y: u64| #[trigger] out@.contains(y)
                        == (out0.contains(y) || y == e) by {
                        vstd::seq_lib::lemma_seq_contains_after_push(out0, e, y);
                    }
                    assert forall|k: int| 0 <= k < out@.len()
                        implies #[trigger] out@[k] <= e by {
                        assert(out@.contains(out@[k]));
                    }
                }
            }
        }
        proof {
            assert(seq_to_set(out@) =~= self.view_set().difference(other.view_set()));
        }
        out
    }
}

} // verus!
