use vstd::prelude::*;

use crate::seqtools::{clone_vec_u64, sort_dedup, sorted_insert, sorted_remove, vec_contains};
use crate::traits::{set_range, seq_to_set, strictly_sorted, EventSet};

verus! {

broadcast use vstd::seq_lib::group_seq_properties;

/// An event set stored as the highest *contiguous* event plus a set of
/// *extras*: scattered events above the contiguous prefix.  The set is
/// `{1..max} + exs`.  Ideal when the set has a solid prefix and a sparse tail.
#[derive(Clone, PartialEq, Eq, Debug)]
pub struct AboveExSet {
    pub max: u64,
    /// Extra events, strictly increasing, each at least `max + 2` (eager
    /// compression: nothing in the extras borders the contiguous prefix).
    pub exs: Vec<u64>,
}

impl AboveExSet {
    /// Creates a new instance from the highest contiguous event and a list of
    /// extra events (any order, duplicates allowed), each above `max`.
    pub fn from(max: u64, exs: Vec<u64>) -> (r: Self)
        requires
            forall|i: int| 0 <= i < exs@.len() ==> max < #[trigger] exs@[i],
        ensures
            r.inv(),
            r.view_set() == set_range(1, max) + seq_to_set(exs@),
    {
        let sorted = sort_dedup(&exs);
        let mut r = AboveExSet { max, exs: sorted };
        proof {
            assert forall|i: int| 0 <= i < r.exs@.len()
                implies 1 <= #[trigger] r.exs@[i] by {
                assert(r.exs@.contains(r.exs@[i]));
                assert(seq_to_set(exs@).contains(r.exs@[i]));
                let j = choose|j: int| 0 <= j < exs@.len() && #[trigger] exs@[j] == r.exs@[i];
            }
        }
        let ghost v0 = r.view_set();
        r.try_compress();
        proof {
            assert(v0 =~= set_range(1, max) + seq_to_set(exs@));
        }
        r
    }

    /// Folds extras that border or fall under the contiguous prefix into it,
    /// restoring the compression invariant without changing the set.
    #[verifier::loop_isolation(false)]
    fn try_compress(&mut self)
        requires
            strictly_sorted(old(self).exs@),
            forall|i: int| 0 <= i < old(self).exs@.len() ==> 1 <= #[trigger] old(self).exs@[i],
        ensures
            final(self).inv(),
            final(self).view_set() == old(self).view_set(),
    {
        let ghost v0 = self.view_set();
        while self.exs.len() > 0 && (self.exs[0] <= self.max
            || (self.max < u64::MAX && self.exs[0] == self.max + 1))
            invariant
                strictly_sorted(self.exs@),
                forall|i: int| 0 <= i < self.exs@.len() ==> 1 <= #[trigger] self.exs@[i],
                self.view_set() == v0,
            decreases self.exs@.len(),
        {
            let x = self.exs[0];
            let ghost mid = *self;
            proof {
                assert(self.exs@.contains(x));
            }
            if self.max < u64::MAX && x == self.max + 1 {
                self.max = self.max + 1;
            }
            sorted_remove(&mut self.exs, x);
            proof {
                assert forall|i: int| 0 <= i < self.exs@.len()
                    implies 1 <= #[trigger] self.exs@[i] by {
                    assert(self.exs@.contains(self.exs@[i]));
                    let j = choose|j: int|
                        0 <= j < mid.exs@.len() && #[trigger] mid.exs@[j] == self.exs@[i];
                }
                assert(self.view_set() =~= v0) by {
                    assert(x <= self.max);
                    assert forall|y: u64| mid.view_set().contains(y)
                        == self.view_set().contains(y) by {
                        if y == x {
                            assert(self.view_set().contains(y));
                        }
                    }
                }
            }
        }
        proof {
            assert forall|i: int| 0 <= i < self.exs@.len()
                implies self.max + 2 <= #[trigger] self.exs@[i] by {
                assert(self.exs@[0] <= self.exs@[i]);
            }
        }
    }
}

impl EventSet for AboveExSet {
    open spec fn view_set(&self) -> Set<u64> {
        set_range(1, self.max) + seq_to_set(self.exs@)
    }

    open spec fn inv(&self) -> bool {
        &&& strictly_sorted(self.exs@)
        &&& forall|i: int| 0 <= i < self.exs@.len()
            ==> self.max + 2 <= #[trigger] self.exs@[i]
    }

    open spec fn added(e: u64) -> Set<u64> {
        if e >= 1 {
            Set::empty().insert(e)
        } else {
            Set::empty()
        }
    }

    open spec fn added_range(start: u64, end: u64) -> Set<u64> {
        set_range(start, end)
    }

    open spec fn exact() -> bool {
        true
    }

    open spec fn can_next(&self) -> bool {
        self.exs@.len() == 0 && self.max < u64::MAX
    }

    open spec fn meet_defined() -> bool {
        true
    }

    open spec fn votes_exact() -> bool {
        false
    }

    open spec fn no_negatives() -> bool {
        false
    }

    open spec fn events_max(&self) -> u64 {
        self.max
    }

    open spec fn events_over(&self) -> Set<u64> {
        seq_to_set(self.exs@)
    }

    open spec fn frontier_spec(&self) -> u64 {
        self.max
    }

    proof fn lemma_inv(&self) {
        assert forall|x: u64| self.view_set().contains(x) implies 1 <= x by {
            if seq_to_set(self.exs@).contains(x) {
                let i = choose|i: int| 0 <= i < self.exs@.len() && #[trigger] self.exs@[i] == x;
            }
        }
        assert forall|x: u64| self.events_over().contains(x) implies 1 <= x by {
            let i = choose|i: int| 0 <= i < self.exs@.len() && #[trigger] self.exs@[i] == x;
        }
    }

    proof fn lemma_added(e: u64) {
    }

    proof fn lemma_added_range(start: u64, end: u64) {
    }

    proof fn lemma_votes(&self, e: u64) {
        // the overflow list of this representation does not read as votes
    }

    fn new() -> (r: Self) {
        let r = AboveExSet { max: 0, exs: Vec::new() };
        proof {
            assert(r.view_set() =~= Set::<u64>::empty());
        }
        r
    }

    fn from_event(event: u64) -> (r: Self) {
        let mut r = Self::new();
        r.add_event(event);
        proof {
            assert(r.view_set() =~= Self::added(event));
        }
        r
    }

    fn from_event_range(start: u64, end: u64) -> (r: Self) {
        let mut r = Self::new();
        r.add_event_range(start, end);
        proof {
            assert(r.view_set() =~= Self::added_range(start, end));
        }
        r
    }

    fn from_events(events: Vec<u64>) -> (r: Self) {
        let mut r = Self::new();
        proof {
            assert(r.view_set() =~= Set::<u64>::empty());
        }
        let mut i: usize = 0;
        while i < events.len()
            invariant
                i <= events.len(),
                r.inv(),
                forall|j: int, x: u64|
                    0 <= j < i && #[trigger] Self::added(events@[j]).contains(x)
                        ==> r.view_set().contains(x),
                forall|x: u64| #[trigger] r.view_set().contains(x)
                    ==> exists|j: int| 0 <= j < i
                        && #[trigger] Self::added(events@[j]).contains(x),
            decreases events.len() - i,
        {
            r.add_event(events[i]);
            i = i + 1;
        }
        r
    }

    fn next_event(&mut self) -> (r: u64) {
        self.max = self.max + 1;
        let r = self.max;
        proof {
            assert forall|x: u64| final(self).view_set().contains(x)
                implies 1 <= x <= r by {}
            assert forall|x: u64| 1 <= x <= r
                implies final(self).view_set().contains(x) by {}
        }
        r
    }

    #[verifier::loop_isolation(false)]
    fn add_event(&mut self, event: u64) -> (r: bool) {
        let ghost before = *old(self);
        if event <= self.max {
            proof {
                if event >= 1 {
                    assert(before.view_set().contains(event));
                }
                assert(final(self).view_set() =~= before.view_set() + Self::added(event));
            }
            false
        } else if event == self.max + 1 {
            self.max = event;
            let ghost mid = *self;
            self.try_compress();
            proof {
                assert(mid.view_set() =~= before.view_set() + Self::added(event));
                assert(!before.view_set().contains(event)) by {
                    if seq_to_set(before.exs@).contains(event) {
                        let i = choose|i: int|
                            0 <= i < before.exs@.len() && #[trigger] before.exs@[i] == event;
                    }
                }
            }
            true
        } else {
            let r = sorted_insert(&mut self.exs, event);
            proof {
                assert forall|i: int| 0 <= i < self.exs@.len()
                    implies self.max + 2 <= #[trigger] self.exs@[i] by {
                    assert(self.exs@.contains(self.exs@[i]));
                    if before.exs@.contains(self.exs@[i]) {
                        let j = choose|j: int|
                            0 <= j < before.exs@.len()
                            && #[trigger] before.exs@[j] == self.exs@[i];
                    }
                }
                assert(final(self).view_set() =~= before.view_set() + Self::added(event));
                assert(r == !before.view_set().contains(event)) by {
                    if seq_to_set(before.exs@).contains(event) {
                        assert(before.exs@.contains(event));
                    }
                }
            }
            r
        }
    }

    #[verifier::loop_isolation(false)]
    fn add_event_range(&mut self, start: u64, end: u64) -> (r: bool) {
        let ghost before = *old(self);
        if end <= self.max {
            proof {
                assert forall|x: u64| Self::added_range(start, end).contains(x)
                    implies before.view_set().contains(x) by {}
                assert(final(self).view_set()
                    =~= before.view_set() + Self::added_range(start, end));
            }
            false
        } else if start <= self.max + 1 {
            // `end > max`: the whole prefix up to `end` becomes contiguous
            let ghost gap = (self.max + 1) as u64;
            self.max = end;
            let ghost mid = *self;
            self.try_compress();
            proof {
                assert(mid.view_set()
                    =~= before.view_set() + Self::added_range(start, end));
                assert(Self::added_range(start, end).contains(gap));
                assert(!before.view_set().contains(gap)) by {
                    if seq_to_set(before.exs@).contains(gap) {
                        let i = choose|i: int|
                            0 <= i < before.exs@.len() && #[trigger] before.exs@[i] == gap;
                    }
                }
            }
            true
        } else {
            // `start > max + 1`: every event of the range goes to the extras
            let mut res = false;
            let mut cur = start;
            while cur < end
                invariant
                    start <= cur <= end,
                    self.max == before.max,
                    start > self.max + 1,
                    strictly_sorted(self.exs@),
                    forall|i: int| 0 <= i < self.exs@.len()
                        ==> self.max + 2 <= #[trigger] self.exs@[i],
                    seq_to_set(self.exs@)
                        == seq_to_set(before.exs@) + set_range(start, (cur - 1) as u64),
                    res == exists|x: u64|
                        start <= x < cur && !(#[trigger] before.view_set().contains(x)),
                decreases end - cur,
            {
                let ghost mid_exs = self.exs@;
                let added = sorted_insert(&mut self.exs, cur);
                proof {
                    assert forall|i: int| 0 <= i < self.exs@.len()
                        implies self.max + 2 <= #[trigger] self.exs@[i] by {
                        assert(self.exs@.contains(self.exs@[i]));
                        assert(seq_to_set(mid_exs).insert(cur).contains(self.exs@[i]));
                        if mid_exs.contains(self.exs@[i]) {
                            let t = choose|t: int|
                                0 <= t < mid_exs.len()
                                && #[trigger] mid_exs[t] == self.exs@[i];
                        }
                    }
                    assert(seq_to_set(self.exs@)
                        =~= seq_to_set(before.exs@) + set_range(start, cur));
                    assert(added == !before.view_set().contains(cur)) by {
                        assert(mid_exs.contains(cur) == seq_to_set(mid_exs).contains(cur));
                        assert(before.view_set().contains(cur)
                            == seq_to_set(before.exs@).contains(cur));
                    }
                }
                res = res || added;
                cur = cur + 1;
            }
            let ghost mid_exs = self.exs@;
            let added = sorted_insert(&mut self.exs, end);
            let r = res || added;
            proof {
                assert forall|i: int| 0 <= i < self.exs@.len()
                    implies self.max + 2 <= #[trigger] self.exs@[i] by {
                    assert(self.exs@.contains(self.exs@[i]));
                    assert(seq_to_set(mid_exs).insert(end).contains(self.exs@[i]));
                    if mid_exs.contains(self.exs@[i]) {
                        let t = choose|t: int|
                            0 <= t < mid_exs.len()
                            && #[trigger] mid_exs[t] == self.exs@[i];
                    }
                }
                assert(added == !before.view_set().contains(end)) by {
                    assert(mid_exs.contains(end) == seq_to_set(mid_exs).contains(end));
                    assert(before.view_set().contains(end)
                        == seq_to_set(before.exs@).contains(end));
                }
                assert(seq_to_set(final(self).exs@)
                    =~= seq_to_set(before.exs@) + set_range(start, end));
                assert(final(self).view_set()
                    =~= before.view_set() + Self::added_range(start, end));
                if r {
                    if added {
                        assert(Self::added_range(start, end).contains(end)
                            && !before.view_set().contains(end));
                    } else {
                        let x = choose|x: u64|
                            start <= x < end && !(#[trigger] before.view_set().contains(x));
                        assert(Self::added_range(start, end).contains(x));
                    }
                } else {
                    assert forall|x: u64|
                        Self::added_range(start, end).contains(x)
                        implies before.view_set().contains(x) by {
                        if x < end {
                            assert(start <= x < end);
                        }
                    }
                }
            }
            r
        }
    }

    fn duplicate(&self) -> (r: Self) {
        AboveExSet { max: self.max, exs: clone_vec_u64(&self.exs) }
    }

    fn is_event(&self, event: u64) -> (r: bool) {
        if 1 <= event && event <= self.max {
            true
        } else {
            let r = vec_contains(&self.exs, event);
            proof {
                if !r && self.view_set().contains(event) {
                    assert(seq_to_set(self.exs@).contains(event));
                }
            }
            r
        }
    }

    fn events(&self) -> (r: (u64, Vec<u64>)) {
        (self.max, clone_vec_u64(&self.exs))
    }

    fn frontier(&self) -> (r: u64) {
        proof {
            if self.max < u64::MAX && self.view_set().contains((self.max + 1) as u64) {
                assert(seq_to_set(self.exs@).contains((self.max + 1) as u64));
                let i = choose|i: int|
                    0 <= i < self.exs@.len()
                    && #[trigger] self.exs@[i] == (self.max + 1) as u64;
            }
        }
        self.max
    }

    #[verifier::loop_isolation(false)]
    fn join(&mut self, other: &Self) {
        let ghost a = *old(self);
        let ghost b = *other;
        if other.max > self.max {
            self.max = other.max;
        }
        let mut j: usize = 0;
        while j < other.exs.len()
            invariant
                j <= other.exs@.len(),
                self.max == if b.max > a.max { b.max } else { a.max },
                strictly_sorted(self.exs@),
                forall|i: int| 0 <= i < self.exs@.len() ==> 1 <= #[trigger] self.exs@[i],
                seq_to_set(self.exs@)
                    == seq_to_set(a.exs@) + seq_to_set(b.exs@.take(j as int)),
            decreases other.exs@.len() - j,
        {
            let y = other.exs[j];
            let ghost take0 = b.exs@.take(j as int);
            proof {
                assert(b.exs@.take(j as int + 1) =~= take0.push(y));
                assert forall|z: u64| b.exs@.take(j as int + 1).contains(z)
                    == (take0.contains(z) || z == y) by {
                    vstd::seq_lib::lemma_seq_contains_after_push(take0, y, z);
                }
            }
            let ghost mid_exs = self.exs@;
            sorted_insert(&mut self.exs, y);
            proof {
                assert(b.exs@.contains(y)) by {
                    assert(b.exs@[j as int] == y);
                }
                assert(seq_to_set(self.exs@)
                    =~= seq_to_set(a.exs@) + seq_to_set(b.exs@.take(j as int + 1)));
                assert forall|i: int| 0 <= i < self.exs@.len()
                    implies 1 <= #[trigger] self.exs@[i] by {
                    assert(self.exs@.contains(self.exs@[i]));
                    if mid_exs.contains(self.exs@[i]) {
                        let t = choose|t: int|
                            0 <= t < mid_exs.len() && #[trigger] mid_exs[t] == self.exs@[i];
                    }
                }
            }
            j = j + 1;
        }
        proof {
            assert(b.exs@.take(b.exs@.len() as int) =~= b.exs@);
        }
        let ghost mid = *self;
        self.try_compress();
        proof {
            assert(mid.view_set() =~= a.view_set() + b.view_set());
        }
    }

    #[verifier::loop_isolation(false)]
    fn meet(&mut self, other: &Self) {
        let ghost a = *old(self);
        let ghost b = *other;

        // extras of the intersection: own extras that are events of `other`,
        // plus the other's extras that fall in the own contiguous prefix
        let mut extras: Vec<u64> = Vec::new();
        let mut i: usize = 0;
        while i < self.exs.len()
            invariant
                i <= self.exs@.len(),
                *self == a,
                other.inv(),
                strictly_sorted(extras@),
                forall|x: u64| #[trigger] extras@.contains(x)
                    <==> a.exs@.take(i as int).contains(x) && b.view_set().contains(x),
            decreases self.exs@.len() - i,
        {
            let x = self.exs[i];
            let ghost take0 = a.exs@.take(i as int);
            proof {
                assert(a.exs@.take(i as int + 1) =~= take0.push(x));
                assert forall|z: u64| a.exs@.take(i as int + 1).contains(z)
                    == (take0.contains(z) || z == x) by {
                    vstd::seq_lib::lemma_seq_contains_after_push(take0, x, z);
                }
            }
            if other.is_event(x) {
                let ghost e0 = extras@;
                sorted_insert(&mut extras, x);
                proof {
                    assert forall|z: u64| #[trigger] extras@.contains(z)
                        == (e0.contains(z) || z == x) by {
                        assert(seq_to_set(extras@).contains(z)
                            == seq_to_set(e0).insert(x).contains(z));
                    }
                }
            }
            i = i + 1;
        }
        proof {
            assert(a.exs@.take(a.exs@.len() as int) =~= a.exs@);
        }

        let mut j: usize = 0;
        while j < other.exs.len()
            invariant
                j <= other.exs@.len(),
                *self == a,
                other.inv(),
                strictly_sorted(extras@),
                forall|x: u64| #[trigger] extras@.contains(x)
                    <==> (a.exs@.contains(x) && b.view_set().contains(x))
                        || (b.exs@.take(j as int).contains(x) && set_range(1, a.max).contains(x)),
            decreases other.exs@.len() - j,
        {
            let y = other.exs[j];
            let ghost take0 = b.exs@.take(j as int);
            proof {
                assert(b.exs@.take(j as int + 1) =~= take0.push(y));
                assert forall|z: u64| b.exs@.take(j as int + 1).contains(z)
                    == (take0.contains(z) || z == y) by {
                    vstd::seq_lib::lemma_seq_contains_after_push(take0, y, z);
                }
                assert(b.exs@.contains(y)) by {
                    assert(b.exs@[j as int] == y);
                }
            }
            if 1 <= y && y <= self.max {
                let ghost e0 = extras@;
                sorted_insert(&mut extras, y);
                proof {
                    assert forall|z: u64| #[trigger] extras@.contains(z)
                        == (e0.contains(z) || z == y) by {
                        assert(seq_to_set(extras@).contains(z)
                            == seq_to_set(e0).insert(y).contains(z));
                    }
                }
            }
            j = j + 1;
        }
        proof {
            assert(b.exs@.take(b.exs@.len() as int) =~= b.exs@);
        }

        let new_max = if other.max < self.max { other.max } else { self.max };
        self.max = new_max;
        self.exs = extras;
        let ghost mid = *self;
        proof {
            assert forall|k: int| 0 <= k < mid.exs@.len()
                implies 1 <= #[trigger] mid.exs@[k] by {
                let x = mid.exs@[k];
                assert(mid.exs@.contains(x));
                if a.exs@.contains(x) {
                    let t = choose|t: int| 0 <= t < a.exs@.len() && #[trigger] a.exs@[t] == x;
                }
            }
        }
        self.try_compress();
        proof {
            assert forall|x: u64| mid.view_set().contains(x)
                == a.view_set().intersect(b.view_set()).contains(x) by {
                if a.exs@.contains(x) {
                    let t = choose|t: int| 0 <= t < a.exs@.len() && #[trigger] a.exs@[t] == x;
                }
                if b.exs@.contains(x) {
                    let t = choose|t: int| 0 <= t < b.exs@.len() && #[trigger] b.exs@[t] == x;
                }
            }
            assert(mid.view_set() =~= a.view_set().intersect(b.view_set()));
        }
    }

    #[verifier::loop_isolation(false)]
    fn event_iter(self) -> (r: Vec<u64>) {
        let mut out: Vec<u64> = Vec::new();
        let mut e: u64 = 0;
        while e < self.max
            invariant
                e <= self.max,
                strictly_sorted(out@),
                out@.len() == e,
                forall|i: int| 0 <= i < out@.len() ==> out@[i] == i + 1,
            decreases self.max - e,
        {
            e = e + 1;
            out.push(e);
        }
        let ghost prefix = out@;
        proof {
            assert forall|x: u64| prefix.contains(x) implies 1 <= x <= self.max by {
                let i = choose|i: int| 0 <= i < prefix.len() && #[trigger] prefix[i] == x;
            }
            assert forall|x: u64| 1 <= x <= self.max implies prefix.contains(x) by {
                assert(prefix[x - 1] == x);
            }
        }
        let mut i: usize = 0;
        while i < self.exs.len()
            invariant
                i <= self.exs@.len(),
                self.inv(),
                strictly_sorted(out@),
                forall|x: u64| #[trigger] out@.contains(x)
                    <==> prefix.contains(x) || self.exs@.take(i as int).contains(x),
            decreases self.exs@.len() - i,
        {
            let x = self.exs[i];
            let ghost take0 = self.exs@.take(i as int);
            proof {
                assert(self.exs@.take(i as int + 1) =~= take0.push(x));
                assert forall|z: u64| self.exs@.take(i as int + 1).contains(z)
                    == (take0.contains(z) || z == x) by {
                    vstd::seq_lib::lemma_seq_contains_after_push(take0, x, z);
                }
                assert forall|k: int| 0 <= k < out@.len() implies out@[k] < x by {
                    assert(out@.contains(out@[k]));
                    if take0.contains(out@[k]) {
                        let t = choose|t: int|
                            0 <= t < take0.len() && #[trigger] take0[t] == out@[k];
                        assert(self.exs@[t] == out@[k]);
                    }
                }
            }
            let ghost out0 = out@;
            out.push(x);
            proof {
                assert forall|z: u64| #[trigger] out@.contains(z)
                    == (out0.contains(z) || z == x) by {
                    vstd::seq_lib::lemma_seq_contains_after_push(out0, x, z);
                }
            }
            i = i + 1;
        }
        proof {
            assert(self.exs@.take(self.exs@.len() as int) =~= self.exs@);
            assert(seq_to_set(out@) =~= self.view_set());
        }
        out
    }

    #[verifier::loop_isolation(false)]
    fn subtracted(&self, other: &Self) -> (r: Vec<u64>) {
        let mut out: Vec<u64> = Vec::new();
        let mut e: u64 = 0;
        while e < self.max
            invariant
                e <= self.max,
                other.inv(),
                strictly_sorted(out@),
                forall|k: int| 0 <= k < out@.len() ==> #[trigger] out@[k] <= e,
                forall|x: u64| #[trigger] out@.contains(x)
                    <==> 1 <= x <= e && !other.view_set().contains(x),
            decreases self.max - e,
        {
            e = e + 1;
            if !other.is_event(e) {
                let ghost out0 = out@;
                out.push(e);
                proof {
                    assert forall|y: u64| #[trigger] out@.contains(y)
                        == (out0.contains(y) || y == e) by {
                        vstd::seq_lib::lemma_seq_contains_after_push(out0, e, y);
                    }
                    assert forall|k: int| 0 <= k < out@.len()
                        implies #[trigger] out@[k] <= e by {
                        assert(out@.contains(out@[k]));
                    }
                }
            }
        }
        let ghost prefix_done = out@;
        let mut i: usize = 0;
        while i < self.exs.len()
            invariant
                i <= self.exs@.len(),
                self.inv(),
                other.inv(),
                strictly_sorted(out@),
                forall|x: u64| #[trigger] out@.contains(x)
                    <==> prefix_done.contains(x)
                        || (self.exs@.take(i as int).contains(x) && !other.view_set().contains(x)),
            decreases self.exs@.len() - i,
        {
            let x = self.exs[i];
            let ghost take0 = self.exs@.take(i as int);
            proof {
                assert(self.exs@.take(i as int + 1) =~= take0.push(x));
                assert forall|z: u64| self.exs@.take(i as int + 1).contains(z)
                    == (take0.contains(z) || z == x) by {
                    vstd::seq_lib::lemma_seq_contains_after_push(take0, x, z);
                }
            }
            if !other.is_event(x) {
                proof {
                    assert forall|k: int| 0 <= k < out@.len() implies out@[k] < x by {
                        assert(out@.contains(out@[k]));
                        if prefix_done.contains(out@[k]) {
                        } else {
                            let t = choose|t: int|
                                0 <= t < take0.len() && #[trigger] take0[t] == out@[k];
                            assert(self.exs@[t] == out@[k]);
                        }
                    }
                }
                let ghost out0 = out@;
                out.push(x);
                proof {
                    assert forall|z: u64| #[trigger] out@.contains(z)
                        == (out0.contains(z) || z == x) by {
                        vstd::seq_lib::lemma_seq_contains_after_push(out0, x, z);
                    }
                }
            }
            i = i + 1;
        }
        proof {
            assert(self.exs@.take(self.exs@.len() as int) =~= self.exs@);
            assert(seq_to_set(out@) =~= self.view_set().difference(other.view_set()));
        }
        out
    }
}

} // verus!
