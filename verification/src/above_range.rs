use vstd::prelude::*;

use crate::seqtools::sort_dedup;
use crate::traits::{set_range, seq_to_set, strictly_sorted, EventSet};

verus! {

broadcast use vstd::seq_lib::group_seq_properties;

/// Whether `x` falls in the closed range `p`.
pub open spec fn in_rng(p: (u64, u64), x: u64) -> bool {
    p.0 <= x <= p.1
}

/// The set of events covered by a list of closed ranges.
pub open spec fn rng_set(s: Seq<(u64, u64)>) -> Set<u64> {
    Set::new(|x: u64| exists|i: int| 0 <= i < s.len() && in_rng(#[trigger] s[i], x))
}

/// Ranges are well formed: each is nonempty and starts at 1 or above, and
/// they are disjoint and listed in ascending order.
pub open spec fn rng_sorted(s: Seq<(u64, u64)>) -> bool {
    &&& forall|i: int| 0 <= i < s.len() ==> 1 <= (#[trigger] s[i]).0 <= s[i].1
    &&& forall|i: int, j: int| 0 <= i < j < s.len() ==> (#[trigger] s[i]).1 < (#[trigger] s[j]).0
}

/// A set of events stored as disjoint closed ranges, ascending.
#[derive(Clone, PartialEq, Eq, Debug)]
pub struct Ranges {
    pub ranges: Vec<(u64, u64)>,
}

impl Ranges {
    /// The covered set, as a spec-level view.
    pub open spec fn view_set(&self) -> Set<u64> {
        rng_set(self.ranges@)
    }

    /// Structural invariant.
    pub open spec fn inv(&self) -> bool {
        rng_sorted(self.ranges@)
    }

    /// Creates an empty range list.
    pub fn new() -> (r: Self)
        ensures
            r.inv(),
            r.ranges@.len() == 0,
            r.view_set() == Set::<u64>::empty(),
    {
        let r = Ranges { ranges: Vec::new() };
        proof {
            assert(r.view_set() =~= Set::<u64>::empty());
        }
        r
    }

    /// Whether no range is stored.
    pub fn is_empty(&self) -> (r: bool)
        requires
            self.inv(),
        ensures
            r == (self.ranges@.len() == 0),
    {
        self.ranges.len() == 0
    }

    /// Whether the event is covered by any range.
    pub fn contains(&self, event: u64) -> (r: bool)
        ensures
            r == self.view_set().contains(event),
    {
        let mut i: usize = 0;
        while i < self.ranges.len()
            invariant
                i <= self.ranges@.len(),
                forall|j: int| 0 <= j < i ==> !in_rng(#[trigger] self.ranges@[j], event),
            decreases self.ranges@.len() - i,
        {
            if self.ranges[i].0 <= event && event <= self.ranges[i].1 {
                proof {
                    assert(in_rng(self.ranges@[i as int], event));
                }
                return true;
            }
            i = i + 1;
        }
        proof {
            if self.view_set().contains(event) {
                let j = choose|j: int|
                    0 <= j < self.ranges@.len() && in_rng(#[trigger] self.ranges@[j], event);
                assert(false);
            }
        }
        false
    }

    /// Adds the closed range `[start, end]`, merging it with any ranges it
    /// overlaps or touches, so that the list stays disjoint and ascending.
    #[verifier::loop_isolation(false)]
    pub fn add(&mut self, start: u64, end: u64)
        requires
            old(self).inv(),
            1 <= start <= end,
        ensures
            final(self).inv(),
            final(self).view_set() == old(self).view_set() + set_range(start, end),
    {
        let ghost v = old(self).ranges@;
        let mut out: Vec<(u64, u64)> = Vec::new();
        let mut ns = start;
        let mut ne = end;
        let mut placed = false;
        let mut i: usize = 0;
        while i < self.ranges.len()
            invariant
                i <= v.len(),
                self.ranges@ == v,
                rng_sorted(out@),
                1 <= ns <= start,
                end <= ne,
                ns <= ne,
                !placed ==> forall|k: int| 0 <= k < out@.len()
                    ==> (#[trigger] out@[k]).1 < ns,
                !placed ==> rng_set(out@) + set_range(ns, ne)
                    == rng_set(v.take(i as int)) + set_range(start, end),
                placed ==> rng_set(out@) == rng_set(v.take(i as int)) + set_range(start, end),
                i < v.len() ==> forall|k: int| 0 <= k < out@.len()
                    ==> (#[trigger] out@[k]).1 < v[i as int].0,
            decreases v.len() - i,
        {
            let a = self.ranges[i].0;
            let b = self.ranges[i].1;
            let ghost out0 = out@;
            let ghost take0 = v.take(i as int);
            proof {
                assert(v.take(i as int + 1) =~= take0.push((a, b)));
                assert forall|x: u64| rng_set(v.take(i as int + 1)).contains(x)
                    == (rng_set(take0).contains(x) || in_rng((a, b), x)) by {
                    if rng_set(v.take(i as int + 1)).contains(x) {
                        let t = choose|t: int| 0 <= t < i + 1
                            && in_rng(#[trigger] v.take(i as int + 1)[t], x);
                        if t < i {
                            assert(in_rng(take0[t], x));
                        }
                    }
                    if rng_set(take0).contains(x) {
                        let t = choose|t: int| 0 <= t < i && in_rng(#[trigger] take0[t], x);
                        assert(in_rng(v.take(i as int + 1)[t], x));
                    }
                    if in_rng((a, b), x) {
                        assert(in_rng(v.take(i as int + 1)[i as int], x));
                    }
                }
            }
            if placed {
                out.push((a, b));
                proof {
                    assert forall|x: u64| rng_set(out@).contains(x)
                        == (rng_set(out0).contains(x) || in_rng((a, b), x)) by {
                        if rng_set(out@).contains(x) {
                            let t = choose|t: int| 0 <= t < out@.len()
                                && in_rng(#[trigger] out@[t], x);
                            if t < out0.len() {
                                assert(in_rng(out0[t], x));
                            }
                        }
                        if rng_set(out0).contains(x) {
                            let t = choose|t: int| 0 <= t < out0.len()
                                && in_rng(#[trigger] out0[t], x);
                            assert(in_rng(out@[t], x));
                        }
                        if in_rng((a, b), x) {
                            assert(in_rng(out@[out0.len() as int], x));
                        }
                    }
                    assert forall|x: u64| rng_set(out@).contains(x)
                        == (rng_set(v.take(i as int + 1)) + set_range(start, end)).contains(x) by {
                        assert(rng_set(out@).contains(x)
                            == (rng_set(out0).contains(x) || in_rng((a, b), x)));
                        assert(rng_set(out0).contains(x)
                            == (rng_set(take0) + set_range(start, end)).contains(x));
                        assert(rng_set(v.take(i as int + 1)).contains(x)
                            == (rng_set(take0).contains(x) || in_rng((a, b), x)));
                    }
                    assert(rng_set(out@) =~= rng_set(v.take(i as int + 1)) + set_range(start, end));
                }
            } else if b < ns && b < ns - 1 {
                // the stored range lies strictly before the pending window
                out.push((a, b));
                proof {
                    assert forall|x: u64| rng_set(out@).contains(x)
                        == (rng_set(out0).contains(x) || in_rng((a, b), x)) by {
                        if rng_set(out@).contains(x) {
                            let t = choose|t: int| 0 <= t < out@.len()
                                && in_rng(#[trigger] out@[t], x);
                            if t < out0.len() {
                                assert(in_rng(out0[t], x));
                            }
                        }
                        if rng_set(out0).contains(x) {
                            let t = choose|t: int| 0 <= t < out0.len()
                                && in_rng(#[trigger] out0[t], x);
                            assert(in_rng(out@[t], x));
                        }
                        if in_rng((a, b), x) {
                            assert(in_rng(out@[out0.len() as int], x));
                        }
                    }
                    assert forall|x: u64| (rng_set(out@) + set_range(ns, ne)).contains(x)
                        == (rng_set(v.take(i as int + 1)) + set_range(start, end)).contains(x) by {
                        assert(rng_set(out@).contains(x)
                            == (rng_set(out0).contains(x) || in_rng((a, b), x)));
                        assert((rng_set(out0) + set_range(ns, ne)).contains(x)
                            == (rng_set(take0) + set_range(start, end)).contains(x));
                        assert(rng_set(v.take(i as int + 1)).contains(x)
                            == (rng_set(take0).contains(x) || in_rng((a, b), x)));
                    }
                    assert(rng_set(out@) + set_range(ns, ne)
                        =~= rng_set(v.take(i as int + 1)) + set_range(start, end));
                }
            } else if ne < a && ne < a - 1 {
                // the stored range lies strictly after the window: emit the
                // window first, then the stored range
                out.push((ns, ne));
                let ghost out1 = out@;
                out.push((a, b));
                placed = true;
                proof {
                    assert forall|k: int, l: int| 0 <= k < l < out@.len()
                        implies (#[trigger] out@[k]).1 < (#[trigger] out@[l]).0 by {
                        if l < out0.len() {
                        } else if l == out0.len() {
                            assert(out@[l] == (ns, ne));
                        } else {
                            assert(out@[l] == (a, b));
                            if k < out0.len() {
                                assert(out@[k].1 < ns);
                            } else {
                                assert(out@[k] == (ns, ne));
                            }
                        }
                    }
                    assert forall|x: u64| rng_set(out@).contains(x)
                        == (rng_set(out0).contains(x) || in_rng((ns, ne), x)
                            || in_rng((a, b), x)) by {
                        if rng_set(out@).contains(x) {
                            let t = choose|t: int| 0 <= t < out@.len()
                                && in_rng(#[trigger] out@[t], x);
                            if t < out0.len() {
                                assert(in_rng(out0[t], x));
                            }
                        }
                        if rng_set(out0).contains(x) {
                            let t = choose|t: int| 0 <= t < out0.len()
                                && in_rng(#[trigger] out0[t], x);
                            assert(in_rng(out@[t], x));
                        }
                        if in_rng((ns, ne), x) {
                            assert(in_rng(out@[out0.len() as int], x));
                        }
                        if in_rng((a, b), x) {
                            assert(in_rng(out@[out0.len() as int + 1], x));
                        }
                    }
                    assert forall|x: u64| rng_set(out@).contains(x)
                        == (rng_set(v.take(i as int + 1)) + set_range(start, end)).contains(x) by {
                        assert(rng_set(out@).contains(x)
                            == (rng_set(out0).contains(x) || in_rng((ns, ne), x)
                                || in_rng((a, b), x)));
                        assert((rng_set(out0) + set_range(ns, ne)).contains(x)
                            == (rng_set(take0) + set_range(start, end)).contains(x));
                        assert(rng_set(v.take(i as int + 1)).contains(x)
                            == (rng_set(take0).contains(x) || in_rng((a, b), x)));
                    }
                    assert(rng_set(out@)
                        =~= rng_set(v.take(i as int + 1)) + set_range(start, end));
                }
            } else {
                // the stored range overlaps or touches the window: widen it
                let ghost ns0 = ns;
                let ghost ne0 = ne;
                if a < ns {
                    ns = a;
                }
                if b > ne {
                    ne = b;
                }
                proof {
                    assert(set_range(ns, ne)
                        =~= set_range(ns0, ne0) + set_range(a, b));
                    assert forall|x: u64| (rng_set(out@) + set_range(ns, ne)).contains(x)
                        == (rng_set(v.take(i as int + 1)) + set_range(start, end)).contains(x) by {
                        assert(set_range(ns, ne).contains(x)
                            == (set_range(ns0, ne0).contains(x) || in_rng((a, b), x)));
                        assert((rng_set(out0) + set_range(ns0, ne0)).contains(x)
                            == (rng_set(take0) + set_range(start, end)).contains(x));
                        assert(rng_set(v.take(i as int + 1)).contains(x)
                            == (rng_set(take0).contains(x) || in_rng((a, b), x)));
                    }
                    assert(rng_set(out@) + set_range(ns, ne)
                        =~= rng_set(v.take(i as int + 1)) + set_range(start, end));
                }
            }
            i = i + 1;
        }
        proof {
            assert(v.take(v.len() as int) =~= v);
        }
        if !placed {
            let ghost out0 = out@;
            out.push((ns, ne));
            proof {
                assert forall|x: u64| rng_set(out@).contains(x)
                    == (rng_set(out0).contains(x) || in_rng((ns, ne), x)) by {
                    if rng_set(out@).contains(x) {
                        let t = choose|t: int| 0 <= t < out@.len()
                            && in_rng(#[trigger] out@[t], x);
                        if t < out0.len() {
                            assert(in_rng(out0[t], x));
                        }
                    }
                    if rng_set(out0).contains(x) {
                        let t = choose|t: int| 0 <= t < out0.len()
                            && in_rng(#[trigger] out0[t], x);
                        assert(in_rng(out@[t], x));
                    }
                    if in_rng((ns, ne), x) {
                        assert(in_rng(out@[out0.len() as int], x));
                    }
                }
                assert(rng_set(out@) =~= rng_set(v) + set_range(start, end));
            }
        }
        self.ranges = out;
    }

    /// Merges the part of `other` that lies above `bound` into `self`.
    #[verifier::loop_isolation(false)]
    pub fn join(&mut self, other: &Self, bound: u64)
        requires
            old(self).inv(),
            other.inv(),
        ensures
            final(self).inv(),
            final(self).view_set() == old(self).view_set()
                + other.view_set().intersect(Set::new(|x: u64| x > bound)),
    {
        let ghost above = Set::new(|x: u64| x > bound);
        let ghost b = other.ranges@;
        let mut j: usize = 0;
        while j < other.ranges.len()
            invariant
                j <= b.len(),
                other.ranges@ == b,
                self.inv(),
                self.view_set() == old(self).view_set()
                    + rng_set(b.take(j as int)).intersect(above),
            decreases b.len() - j,
        {
            let lo = other.ranges[j].0;
            let hi = other.ranges[j].1;
            let ghost take0 = b.take(j as int);
            proof {
                assert(b.take(j as int + 1) =~= take0.push((lo, hi)));
                assert forall|x: u64| rng_set(b.take(j as int + 1)).contains(x)
                    == (rng_set(take0).contains(x) || in_rng((lo, hi), x)) by {
                    if rng_set(b.take(j as int + 1)).contains(x) {
                        let t = choose|t: int| 0 <= t < j + 1
                            && in_rng(#[trigger] b.take(j as int + 1)[t], x);
                        if t < j {
                            assert(in_rng(take0[t], x));
                        }
                    }
                    if rng_set(take0).contains(x) {
                        let t = choose|t: int| 0 <= t < j && in_rng(#[trigger] take0[t], x);
                        assert(in_rng(b.take(j as int + 1)[t], x));
                    }
                    if in_rng((lo, hi), x) {
                        assert(in_rng(b.take(j as int + 1)[j as int], x));
                    }
                }
            }
            if hi > bound {
                let clipped_lo = if lo > bound { lo } else { bound + 1 };
                self.add(clipped_lo, hi);
                proof {
                    assert(set_range(clipped_lo, hi)
                        =~= set_range(lo, hi).intersect(above));
                    assert forall|x: u64| self.view_set().contains(x)
                        == (old(self).view_set()
                            + rng_set(b.take(j as int + 1)).intersect(above)).contains(x) by {
                        assert(rng_set(b.take(j as int + 1)).contains(x)
                            == (rng_set(take0).contains(x) || in_rng((lo, hi), x)));
                        assert(set_range(clipped_lo, hi).contains(x)
                            == (set_range(lo, hi).contains(x) && x > bound));
                    }
                    assert(self.view_set() =~= old(self).view_set()
                        + rng_set(b.take(j as int + 1)).intersect(above));
                }
            } else {
                proof {
                    assert(self.view_set() =~= old(self).view_set()
                        + rng_set(b.take(j as int + 1)).intersect(above));
                }
            }
            j = j + 1;
        }
        proof {
            assert(b.take(b.len() as int) =~= b);
        }
    }

    /// All covered events, ascending.
    #[verifier::loop_isolation(false)]
    pub fn event_iter(&self) -> (r: Vec<u64>)
        requires
            self.inv(),
        ensures
            strictly_sorted(r@),
            seq_to_set(r@) == self.view_set(),
    {
        let ghost v = self.ranges@;
        let mut out: Vec<u64> = Vec::new();
        let mut i: usize = 0;
        while i < self.ranges.len()
            invariant
                i <= v.len(),
                self.ranges@ == v,
                strictly_sorted(out@),
                forall|x: u64| #[trigger] out@.contains(x) ==> rng_set(v).contains(x),
                forall|k: int| 0 <= k < out@.len() && i < v.len()
                    ==> #[trigger] out@[k] < v[i as int].0,
                forall|x: u64| #[trigger] out@.contains(x)
                    <==> rng_set(v.take(i as int)).contains(x),
            decreases v.len() - i,
        {
            let lo = self.ranges[i].0;
            let hi = self.ranges[i].1;
            let ghost take0 = v.take(i as int);
            proof {
                assert(v.take(i as int + 1) =~= take0.push((lo, hi)));
                assert forall|x: u64| rng_set(v.take(i as int + 1)).contains(x)
                    == (rng_set(take0).contains(x) || in_rng((lo, hi), x)) by {
                    if rng_set(v.take(i as int + 1)).contains(x) {
                        let t = choose|t: int| 0 <= t < i + 1
                            && in_rng(#[trigger] v.take(i as int + 1)[t], x);
                        if t < i {
                            assert(in_rng(take0[t], x));
                        }
                    }
                    if rng_set(take0).contains(x) {
                        let t = choose|t: int| 0 <= t < i && in_rng(#[trigger] take0[t], x);
                        assert(in_rng(v.take(i as int + 1)[t], x));
                    }
                    if in_rng((lo, hi), x) {
                        assert(in_rng(v.take(i as int + 1)[i as int], x));
                    }
                }
            }
            let mut x = lo;
            while x < hi
                invariant
                    lo <= x <= hi,
                    strictly_sorted(out@),
                    forall|k: int| 0 <= k < out@.len() ==> #[trigger] out@[k] < x,
                    forall|y: u64| #[trigger] out@.contains(y)
                        <==> rng_set(take0).contains(y) || lo <= y < x,
                decreases hi - x,
            {
                let ghost out0 = out@;
                out.push(x);
                proof {
                    assert forall|y: u64| #[trigger] out@.contains(y)
                        == (out0.contains(y) || y == x) by {
                        vstd::seq_lib::lemma_seq_contains_after_push(out0, x, y);
                    }
                    assert forall|k: int| 0 <= k < out@.len()
                        implies #[trigger] out@[k] < x + 1 by {
                        assert(out@.contains(out@[k]));
                    }
                }
                x = x + 1;
            }
            let ghost out0 = out@;
            out.push(hi);
            proof {
                assert forall|y: u64| #[trigger] out@.contains(y)
                    == (out0.contains(y) || y == hi) by {
                    vstd::seq_lib::lemma_seq_contains_after_push(out0, hi, y);
                }
                assert forall|k: int| 0 <= k < out@.len() && i + 1 < v.len()
                    implies #[trigger] out@[k] < v[i as int + 1].0 by {
                    assert(out@.contains(out@[k]));
                    assert(v[i as int].1 < v[i as int + 1].0);
                }
                assert forall|y: u64| #[trigger] out@.contains(y)
                    implies rng_set(v).contains(y) by {
                    if rng_set(take0).contains(y) {
                        let t = choose|t: int| 0 <= t < i && in_rng(#[trigger] take0[t], y);
                        assert(in_rng(v[t], y));
                    } else {
                        assert(in_rng(v[i as int], y));
                    }
                }
            }
            i = i + 1;
        }
        proof {
            assert(v.take(v.len() as int) =~= v);
            assert(seq_to_set(out@) =~= self.view_set());
        }
        out
    }

    /// Creates a range list from single events (any order, duplicates
    /// allowed): each event becomes a covered point.
    #[verifier::loop_isolation(false)]
    pub fn from(events: Vec<u64>) -> (r: Self)
        requires
            forall|i: int| 0 <= i < events@.len() ==> 1 <= #[trigger] events@[i],
        ensures
            r.inv(),
            r.view_set() == seq_to_set(events@),
    {
        let sorted = sort_dedup(&events);
        let mut r = Ranges::new();
        let mut i: usize = 0;
        while i < sorted.len()
            invariant
                i <= sorted@.len(),
                strictly_sorted(sorted@),
                seq_to_set(sorted@) == seq_to_set(events@),
                r.inv(),
                r.view_set() == seq_to_set(sorted@.take(i as int)),
            decreases sorted@.len() - i,
        {
            let x = sorted[i];
            proof {
                assert(sorted@.contains(x)) by {
                    assert(sorted@[i as int] == x);
                }
                assert(seq_to_set(events@).contains(x));
                let t = choose|t: int| 0 <= t < events@.len() && #[trigger] events@[t] == x;
                assert(sorted@.take(i as int + 1) =~= sorted@.take(i as int).push(x));
                assert forall|y: u64| sorted@.take(i as int + 1).contains(y)
                    == (sorted@.take(i as int).contains(y) || y == x) by {
                    vstd::seq_lib::lemma_seq_contains_after_push(
                        sorted@.take(i as int), x, y);
                }
            }
            r.add(x, x);
            proof {
                assert(r.view_set() =~= seq_to_set(sorted@.take(i as int + 1)));
            }
            i = i + 1;
        }
        proof {
            assert(sorted@.take(sorted@.len() as int) =~= sorted@);
        }
        r
    }
}

/// An event set with the same semantics as `AboveExSet`, but whose extra
/// events above the contiguous prefix are stored as coalesced closed ranges.
/// The set is `{1..max} + ranges`.
#[derive(Clone, PartialEq, Eq, Debug)]
pub struct AboveRangeSet {
    pub max: u64,
    /// Extra ranges, disjoint and ascending, each starting at `max + 2` or
    /// above (eager compression).
    pub ranges: Ranges,
}

impl Ranges {
    /// Whether every event of `[start, end]` is covered.
    #[verifier::loop_isolation(false)]
    pub fn covers(&self, start: u64, end: u64) -> (r: bool)
        requires
            self.inv(),
            1 <= start <= end,
        ensures
            r == forall|x: u64| start <= x <= end ==> self.view_set().contains(x),
    {
        let mut cursor = start;
        let mut i: usize = 0;
        while i < self.ranges.len()
            invariant
                start <= cursor <= end,
                i <= self.ranges@.len(),
                forall|x: u64| start <= x < cursor ==> self.view_set().contains(x),
                forall|j: int| 0 <= j < i ==> (#[trigger] self.ranges@[j]).1 < cursor,
            decreases self.ranges@.len() - i,
        {
            let a = self.ranges[i].0;
            let b = self.ranges[i].1;
            if b < cursor {
                i = i + 1;
            } else if a > cursor {
                proof {
                    assert(!self.view_set().contains(cursor)) by {
                        if self.view_set().contains(cursor) {
                            let t = choose|t: int| 0 <= t < self.ranges@.len()
                                && in_rng(#[trigger] self.ranges@[t], cursor);
                            if t > i {
                                assert(self.ranges@[i as int].1 < self.ranges@[t].0);
                            }
                        }
                    }
                }
                return false;
            } else {
                if b >= end {
                    proof {
                        assert forall|x: u64| start <= x <= end
                            implies self.view_set().contains(x) by {
                            if cursor <= x {
                                assert(in_rng(self.ranges@[i as int], x));
                            }
                        }
                    }
                    return true;
                }
                let ghost old_cursor = cursor;
                cursor = b + 1;
                proof {
                    assert forall|x: u64| start <= x < cursor
                        implies self.view_set().contains(x) by {
                        if old_cursor <= x {
                            assert(in_rng(self.ranges@[i as int], x));
                        }
                    }
                }
                i = i + 1;
            }
        }
        proof {
            assert(!self.view_set().contains(cursor)) by {
                if self.view_set().contains(cursor) {
                    let t = choose|t: int| 0 <= t < self.ranges@.len()
                        && in_rng(#[trigger] self.ranges@[t], cursor);
                }
            }
        }
        false
    }
}

impl AboveRangeSet {
    /// Creates a new instance from the highest contiguous event and a list of
    /// extra events (any order, duplicates allowed), each above `max`.
    pub fn from(max: u64, extras: Vec<u64>) -> (r: Self)
        requires
            forall|i: int| 0 <= i < extras@.len() ==> max < #[trigger] extras@[i],
        ensures
            r.inv(),
            r.view_set() == set_range(1, max) + seq_to_set(extras@),
    {
        proof {
            assert forall|i: int| 0 <= i < extras@.len()
                implies 1 <= #[trigger] extras@[i] by {}
        }
        let ranges = Ranges::from(extras);
        let mut r = AboveRangeSet { max, ranges };
        let ghost v0 = r.view_set();
        r.try_compress();
        proof {
            assert(v0 =~= set_range(1, max) + seq_to_set(extras@));
        }
        r
    }

    /// Folds ranges that border or fall under the contiguous prefix into it,
    /// restoring the compression invariant without changing the set.
    #[verifier::loop_isolation(false)]
    fn try_compress(&mut self)
        requires
            rng_sorted(old(self).ranges.ranges@),
        ensures
            final(self).inv(),
            final(self).view_set() == old(self).view_set(),
    {
        let ghost v0 = self.view_set();
        while self.ranges.ranges.len() > 0 && (self.ranges.ranges[0].0 <= self.max
            || (self.max < u64::MAX && self.ranges.ranges[0].0 == self.max + 1))
            invariant
                rng_sorted(self.ranges.ranges@),
                self.view_set() == v0,
            decreases self.ranges.ranges@.len(),
        {
            let b = self.ranges.ranges[0].1;
            let ghost mid = *self;
            let ghost w = mid.ranges.ranges@;
            if b > self.max {
                self.max = b;
            }
            self.ranges.ranges.remove(0);
            proof {
                w.remove_ensures(0);
                assert(forall|j: int| 0 <= j < self.ranges.ranges@.len()
                    ==> #[trigger] self.ranges.ranges@[j] == w[j + 1]);
                assert forall|p: int, q: int| 0 <= p < q < self.ranges.ranges@.len()
                    implies (#[trigger] self.ranges.ranges@[p]).1
                        < (#[trigger] self.ranges.ranges@[q]).0 by {
                    assert(self.ranges.ranges@[p] == w[p + 1]);
                    assert(self.ranges.ranges@[q] == w[q + 1]);
                }
                assert forall|x: u64| self.view_set().contains(x) == v0.contains(x) by {
                    assert(v0.contains(x) == mid.view_set().contains(x));
                    if rng_set(self.ranges.ranges@).contains(x) {
                        let t = choose|t: int| 0 <= t < self.ranges.ranges@.len()
                            && in_rng(#[trigger] self.ranges.ranges@[t], x);
                        assert(in_rng(w[t + 1], x));
                    }
                    if rng_set(w).contains(x) {
                        let t = choose|t: int| 0 <= t < w.len()
                            && in_rng(#[trigger] w[t], x);
                        if t > 0 {
                            assert(in_rng(self.ranges.ranges@[t - 1], x));
                        }
                    }
                }
                assert(self.view_set() =~= v0);
            }
        }
        proof {
            assert forall|i: int| 0 <= i < self.ranges.ranges@.len()
                implies self.max + 2 <= (#[trigger] self.ranges.ranges@[i]).0 by {
                if i > 0 {
                    assert(self.ranges.ranges@[0].1 < self.ranges.ranges@[i].0);
                }
            }
        }
    }
}

impl EventSet for AboveRangeSet {
    open spec fn view_set(&self) -> Set<u64> {
        set_range(1, self.max) + rng_set(self.ranges.ranges@)
    }

    open spec fn inv(&self) -> bool {
        &&& rng_sorted(self.ranges.ranges@)
        &&& forall|i: int| 0 <= i < self.ranges.ranges@.len()
            ==> self.max + 2 <= (#[trigger] self.ranges.ranges@[i]).0
    }

    open spec fn added(e: u64) -> Set<u64> {
        if e >= 1 {
            Set::empty().insert(e)
        } else {
            Set::empty()
        }
    }

    open spec fn added_range(start: u64, end: u64) -> Set<u64> {
        set_range(start, end)
    }

    open spec fn exact() -> bool {
        true
    }

    open spec fn can_next(&self) -> bool {
        self.ranges.ranges@.len() == 0 && self.max < u64::MAX
    }

    open spec fn meet_defined() -> bool {
        false
    }

    open spec fn votes_exact() -> bool {
        false
    }

    open spec fn no_negatives() -> bool {
        false
    }

    open spec fn events_max(&self) -> u64 {
        self.max
    }

    open spec fn events_over(&self) -> Set<u64> {
        rng_set(self.ranges.ranges@)
    }

    open spec fn frontier_spec(&self) -> u64 {
        self.max
    }

    proof fn lemma_inv(&self) {
        assert forall|x: u64| self.view_set().contains(x) implies 1 <= x by {
            if rng_set(self.ranges.ranges@).contains(x) {
                let t = choose|t: int| 0 <= t < self.ranges.ranges@.len()
                    && in_rng(#[trigger] self.ranges.ranges@[t], x);
            }
        }
        assert forall|x: u64| self.events_over().contains(x) implies 1 <= x by {
            let t = choose|t: int| 0 <= t < self.ranges.ranges@.len()
                && in_rng(#[trigger] self.ranges.ranges@[t], x);
        }
    }

    proof fn lemma_added(e: u64) {
    }

    proof fn lemma_added_range(start: u64, end: u64) {
    }

    proof fn lemma_votes(&self, e: u64) {
        // the overflow list of this representation does not read as votes
    }

    fn new() -> (r: Self) {
        let r = AboveRangeSet { max: 0, ranges: Ranges::new() };
        proof {
            assert(r.view_set() =~= Set::<u64>::empty());
        }
        r
    }

    fn from_event(event: u64) -> (r: Self) {
        let mut r = Self::new();
        r.add_event(event);
        proof {
            assert(r.view_set() =~= Self::added(event));
        }
        r
    }

    fn from_event_range(start: u64, end: u64) -> (r: Self) {
        let mut r = Self::new();
        r.add_event_range(start, end);
        proof {
            assert(r.view_set() =~= Self::added_range(start, end));
        }
        r
    }

    fn from_events(events: Vec<u64>) -> (r: Self) {
        let mut r = Self::new();
        proof {
            assert(r.view_set() =~= Set::<u64>::empty());
        }
        let mut i: usize = 0;
        while i < events.len()
            invariant
                i <= events.len(),
                r.inv(),
                forall|j: int, x: u64|
                    0 <= j < i && #[trigger] Self::added(events@[j]).contains(x)
                        ==> r.view_set().contains(x),
                forall|x: u64| #[trigger] r.view_set().contains(x)
                    ==> exists|j: int| 0 <= j < i
                        && #[trigger] Self::added(events@[j]).contains(x),
            decreases events.len() - i,
        {
            r.add_event(events[i]);
            i = i + 1;
        }
        r
    }

    fn next_event(&mut self) -> (r: u64) {
        self.max = self.max + 1;
        let r = self.max;
        proof {
            assert forall|x: u64| final(self).view_set().contains(x)
                implies 1 <= x <= r by {}
            assert forall|x: u64| 1 <= x <= r
                implies final(self).view_set().contains(x) by {}
        }
        r
    }

    fn add_event(&mut self, event: u64) -> (r: bool) {
        let ghost before = *old(self);
        if event <= self.max {
            proof {
                if event >= 1 {
                    assert(before.view_set().contains(event));
                }
                assert(final(self).view_set() =~= before.view_set() + Self::added(event));
            }
            false
        } else if event == self.max + 1 {
            self.max = event;
            let ghost mid = *self;
            self.try_compress();
            proof {
                assert(mid.view_set() =~= before.view_set() + Self::added(event));
                assert(!before.view_set().contains(event)) by {
                    if rng_set(before.ranges.ranges@).contains(event) {
                        let t = choose|t: int| 0 <= t < before.ranges.ranges@.len()
                            && in_rng(#[trigger] before.ranges.ranges@[t], event);
                    }
                }
            }
            true
        } else {
            let was = self.ranges.contains(event);
            if !was {
                self.ranges.add(event, event);
            }
            proof {
                assert(before.view_set().contains(event) == was);
                assert forall|i: int| 0 <= i < self.ranges.ranges@.len()
                    implies self.max + 2 <= (#[trigger] self.ranges.ranges@[i]).0 by {
                    let p = self.ranges.ranges@[i];
                    assert(in_rng(p, p.0));
                    assert(rng_set(self.ranges.ranges@).contains(p.0));
                    if rng_set(before.ranges.ranges@).contains(p.0) {
                        let t = choose|t: int| 0 <= t < before.ranges.ranges@.len()
                            && in_rng(#[trigger] before.ranges.ranges@[t], p.0);
                    }
                }
                assert(final(self).view_set() =~= before.view_set() + Self::added(event));
            }
            !was
        }
    }

    #[verifier::loop_isolation(false)]
    fn add_event_range(&mut self, start: u64, end: u64) -> (r: bool) {
        let ghost before = *old(self);
        if end <= self.max {
            proof {
                assert forall|x: u64| Self::added_range(start, end).contains(x)
                    implies before.view_set().contains(x) by {}
                assert(final(self).view_set()
                    =~= before.view_set() + Self::added_range(start, end));
            }
            false
        } else if start <= self.max + 1 {
            // `end > max`: the whole prefix up to `end` becomes contiguous
            let ghost gap = (self.max + 1) as u64;
            self.max = end;
            let ghost mid = *self;
            self.try_compress();
            proof {
                assert(mid.view_set()
                    =~= before.view_set() + Self::added_range(start, end));
                assert(Self::added_range(start, end).contains(gap));
                assert(!before.view_set().contains(gap)) by {
                    if rng_set(before.ranges.ranges@).contains(gap) {
                        let t = choose|t: int| 0 <= t < before.ranges.ranges@.len()
                            && in_rng(#[trigger] before.ranges.ranges@[t], gap);
                    }
                }
            }
            true
        } else {
            // `start > max + 1`: the whole range goes to the extras
            let covered = self.ranges.covers(start, end);
            self.ranges.add(start, end);
            proof {
                assert forall|i: int| 0 <= i < self.ranges.ranges@.len()
                    implies self.max + 2 <= (#[trigger] self.ranges.ranges@[i]).0 by {
                    let p = self.ranges.ranges@[i];
                    assert(in_rng(p, p.0));
                    assert(rng_set(self.ranges.ranges@).contains(p.0));
                    if rng_set(before.ranges.ranges@).contains(p.0) {
                        let t = choose|t: int| 0 <= t < before.ranges.ranges@.len()
                            && in_rng(#[trigger] before.ranges.ranges@[t], p.0);
                    }
                }
                assert(final(self).view_set()
                    =~= before.view_set() + Self::added_range(start, end));
                if covered {
                    assert forall|x: u64| Self::added_range(start, end).contains(x)
                        implies before.view_set().contains(x) by {
                        assert(rng_set(before.ranges.ranges@).contains(x));
                    }
                } else {
                    let x = choose|x: u64|
                        !(start <= x <= end ==> rng_set(before.ranges.ranges@).contains(x));
                    assert(Self::added_range(start, end).contains(x)
                        && !before.view_set().contains(x));
                }
            }
            !covered
        }
    }

    fn duplicate(&self) -> (r: Self) {
        let mut rs: Vec<(u64, u64)> = Vec::new();
        let mut i: usize = 0;
        while i < self.ranges.ranges.len()
            invariant
                i <= self.ranges.ranges@.len(),
                rs@ == self.ranges.ranges@.take(i as int),
            decreases self.ranges.ranges@.len() - i,
        {
            rs.push(self.ranges.ranges[i]);
            proof {
                assert(rs@ =~= self.ranges.ranges@.take(i as int + 1));
            }
            i = i + 1;
        }
        proof {
            assert(self.ranges.ranges@.take(self.ranges.ranges@.len() as int)
                =~= self.ranges.ranges@);
        }
        AboveRangeSet { max: self.max, ranges: Ranges { ranges: rs } }
    }

    fn is_event(&self, event: u64) -> (r: bool) {
        if 1 <= event && event <= self.max {
            true
        } else {
            let r = self.ranges.contains(event);
            proof {
                if !r && self.view_set().contains(event) {
                    assert(rng_set(self.ranges.ranges@).contains(event));
                }
            }
            r
        }
    }

    fn events(&self) -> (r: (u64, Vec<u64>)) {
        (self.max, self.ranges.event_iter())
    }

    fn frontier(&self) -> (r: u64) {
        proof {
            if self.max < u64::MAX && self.view_set().contains((self.max + 1) as u64) {
                assert(rng_set(self.ranges.ranges@).contains((self.max + 1) as u64));
                let t = choose|t: int| 0 <= t < self.ranges.ranges@.len()
                    && in_rng(#[trigger] self.ranges.ranges@[t], (self.max + 1) as u64);
            }
        }
        self.max
    }

    fn join(&mut self, other: &Self) {
        let ghost a = *old(self);
        let ghost b = *other;
        if other.max > self.max {
            self.max = other.max;
        }
        let bound = self.max;
        self.ranges.join(&other.ranges, bound);
        let ghost mid = *self;
        self.try_compress();
        proof {
            assert forall|x: u64| mid.view_set().contains(x)
                == (a.view_set() + b.view_set()).contains(x) by {
                if x <= bound && b.view_set().contains(x) {
                    assert(set_range(1, mid.max).contains(x)) by {
                        if rng_set(b.ranges.ranges@).contains(x) {
                            let t = choose|t: int| 0 <= t < b.ranges.ranges@.len()
                                && in_rng(#[trigger] b.ranges.ranges@[t], x);
                        }
                    }
                }
            }
            assert(mid.view_set() =~= a.view_set() + b.view_set());
        }
    }

    fn meet(&mut self, _other: &Self) {
        // set intersection is not available for this representation
    }

    #[verifier::loop_isolation(false)]
    fn event_iter(self) -> (r: Vec<u64>) {
        let mut out: Vec<u64> = Vec::new();
        let mut e: u64 = 0;
        while e < self.max
            invariant
                e <= self.max,
                strictly_sorted(out@),
                out@.len() == e,
                forall|i: int| 0 <= i < out@.len() ==> out@[i] == i + 1,
            decreases self.max - e,
        {
            e = e + 1;
            out.push(e);
        }
        let ghost prefix = out@;
        proof {
            assert forall|x: u64| prefix.contains(x) implies 1 <= x <= self.max by {
                let i = choose|i: int| 0 <= i < prefix.len() && #[trigger] prefix[i] == x;
            }
            assert forall|x: u64| 1 <= x <= self.max implies prefix.contains(x) by {
                assert(prefix[x - 1] == x);
            }
        }
        let extras = self.ranges.event_iter();
        let mut i: usize = 0;
        while i < extras.len()
            invariant
                i <= extras@.len(),
                self.inv(),
                strictly_sorted(extras@),
                seq_to_set(extras@) == rng_set(self.ranges.ranges@),
                strictly_sorted(out@),
                forall|x: u64| #[trigger] out@.contains(x)
                    <==> prefix.contains(x) || extras@.take(i as int).contains(x),
            decreases extras@.len() - i,
        {
            let x = extras[i];
            let ghost take0 = extras@.take(i as int);
            proof {
                assert(extras@.take(i as int + 1) =~= take0.push(x));
                assert forall|z: u64| extras@.take(i as int + 1).contains(z)
                    == (take0.contains(z) || z == x) by {
                    vstd::seq_lib::lemma_seq_contains_after_push(take0, x, z);
                }
                assert(extras@.contains(x)) by {
                    assert(extras@[i as int] == x);
                }
                assert(rng_set(self.ranges.ranges@).contains(x));
                assert(self.max < x) by {
                    let t = choose|t: int| 0 <= t < self.ranges.ranges@.len()
                        && in_rng(#[trigger] self.ranges.ranges@[t], x);
                }
                assert forall|k: int| 0 <= k < out@.len() implies out@[k] < x by {
                    assert(out@.contains(out@[k]));
                    if take0.contains(out@[k]) {
                        let t = choose|t: int|
                            0 <= t < take0.len() && #[trigger] take0[t] == out@[k];
                        assert(extras@[t] == out@[k]);
                    }
                }
            }
            let ghost out0 = out@;
            out.push(x);
            proof {
                assert forall|z: u64| #[trigger] out@.contains(z)
                    == (out0.contains(z) || z == x) by {
                    vstd::seq_lib::lemma_seq_contains_after_push(out0, x, z);
                }
            }
            i = i + 1;
        }
        proof {
            assert(extras@.take(extras@.len() as int) =~= extras@);
            assert(seq_to_set(out@) =~= self.view_set());
        }
        out
    }

    #[verifier::loop_isolation(false)]
    fn subtracted(&self, other: &Self) -> (r: Vec<u64>) {
        let mut out: Vec<u64> = Vec::new();
        let mut e: u64 = 0;
        while e < self.max
            invariant
                e <= self.max,
                other.inv(),
                strictly_sorted(out@),
                forall|k: int| 0 <= k < out@.len() ==> #[trigger] out@[k] <= e,
                forall|x: u64| #[trigger] out@.contains(x)
                    <==> 1 <= x <= e && !other.view_set().contains(x),
            decreases self.max - e,
        {
            e = e + 1;
            if !other.is_event(e) {
                let ghost out0 = out@;
                out.push(e);
                proof {
                    assert forall|y: u64| #[trigger] out@.contains(y)
                        == (out0.contains(y) || y == e) by {
                        vstd::seq_lib::lemma_seq_contains_after_push(out0, e, y);
                    }
                    assert forall|k: int| 0 <= k < out@.len()
                        implies #[trigger] out@[k] <= e by {
                        assert(out@.contains(out@[k]));
                    }
                }
            }
        }
        let ghost prefix_done = out@;
        let extras = self.ranges.event_iter();
        let mut i: usize = 0;
        while i < extras.len()
            invariant
                i <= extras@.len(),
                self.inv(),
                other.inv(),
                strictly_sorted(extras@),
                seq_to_set(extras@) == rng_set(self.ranges.ranges@),
                strictly_sorted(out@),
                forall|x: u64| #[trigger] out@.contains(x)
                    <==> prefix_done.contains(x)
                        || (extras@.take(i as int).contains(x)
                            && !other.view_set().contains(x)),
            decreases extras@.len() - i,
        {
            let x = extras[i];
            let ghost take0 = extras@.take(i as int);
            proof {
                assert(extras@.take(i as int + 1) =~= take0.push(x));
                assert forall|z: u64| extras@.take(i as int + 1).contains(z)
                    == (take0.contains(z) || z == x) by {
                    vstd::seq_lib::lemma_seq_contains_after_push(take0, x, z);
                }
                assert(extras@.contains(x)) by {
                    assert(extras@[i as int] == x);
                }
                assert(rng_set(self.ranges.ranges@).contains(x));
                assert(self.max < x) by {
                    let t = choose|t: int| 0 <= t < self.ranges.ranges@.len()
                        && in_rng(#[trigger] self.ranges.ranges@[t], x);
                }
            }
            if !other.is_event(x) {
                proof {
                    assert forall|k: int| 0 <= k < out@.len() implies out@[k] < x by {
                        assert(out@.contains(out@[k]));
                        if prefix_done.contains(out@[k]) {
                        } else {
                            let t = choose|t: int|
                                0 <= t < take0.len() && #[trigger] take0[t] == out@[k];
                            assert(extras@[t] == out@[k]);
                        }
                    }
                }
                let ghost out0 = out@;
                out.push(x);
                proof {
                    assert forall|z: u64| #[trigger] out@.contains(z)
                        == (out0.contains(z) || z == x) by {
                        vstd::seq_lib::lemma_seq_contains_after_push(out0, x, z);
                    }
                }
            }
            i = i + 1;
        }
        proof {
            assert(extras@.take(extras@.len() as int) =~= extras@);
            assert(seq_to_set(out@) =~= self.view_set().difference(other.view_set()));
        }
        out
    }
}

} // verus!
