use vstd::prelude::*;

use crate::traits::{set_range, seq_to_set, strictly_sorted, EventSet};

verus! {

/// An event set stored as a single integer: the set is `{1..max}`.  Compact
/// but imprecise: adding event `e` also observes every event below it.
#[derive(Clone, Copy, PartialEq, Eq, Structural, Debug)]
pub struct MaxSet {
    pub max: u64,
}

impl MaxSet {
    /// Creates a `MaxSet` from the highest event.
    pub fn from(max: u64) -> (r: Self)
        ensures
            r.inv(),
            r.view_set() == set_range(1, max),
            r.events_max() == max,
    {
        MaxSet { max }
    }
}

impl EventSet for MaxSet {
    open spec fn view_set(&self) -> Set<u64> {
        set_range(1, self.max)
    }

    open spec fn inv(&self) -> bool {
        true
    }

    open spec fn added(e: u64) -> Set<u64> {
        set_range(1, e)
    }

    open spec fn added_range(start: u64, end: u64) -> Set<u64> {
        set_range(1, end)
    }

    open spec fn exact() -> bool {
        false
    }

    open spec fn can_next(&self) -> bool {
        self.max < u64::MAX
    }

    open spec fn meet_defined() -> bool {
        true
    }

    open spec fn votes_exact() -> bool {
        true
    }

    open spec fn no_negatives() -> bool {
        true
    }

    open spec fn events_max(&self) -> u64 {
        self.max
    }

    open spec fn events_over(&self) -> Set<u64> {
        Set::empty()
    }

    open spec fn frontier_spec(&self) -> u64 {
        self.max
    }

    proof fn lemma_inv(&self) {
    }

    proof fn lemma_added(e: u64) {
    }

    proof fn lemma_added_range(start: u64, end: u64) {
    }

    proof fn lemma_votes(&self, e: u64) {
    }

    fn new() -> (r: Self) {
        let r = MaxSet { max: 0 };
        proof {
            assert(r.view_set() =~= Set::<u64>::empty());
        }
        r
    }

    fn from_event(event: u64) -> (r: Self) {
        MaxSet { max: event }
    }

    fn from_event_range(start: u64, end: u64) -> (r: Self) {
        MaxSet { max: end }
    }

    fn from_events(events: Vec<u64>) -> (r: Self) {
        let mut r = MaxSet { max: 0 };
        proof {
            assert(r.view_set() =~= Set::<u64>::empty());
        }
        let mut i: usize = 0;
        while i < events.len()
            invariant
                i <= events.len(),
                r.inv(),
                forall|j: int, x: u64|
                    0 <= j < i && #[trigger] Self::added(events@[j]).contains(x)
                        ==> r.view_set().contains(x),
                forall|x: u64| #[trigger] r.view_set().contains(x)
                    ==> exists|j: int| 0 <= j < i
                        && #[trigger] Self::added(events@[j]).contains(x),
            decreases events.len() - i,
        {
            r.add_event(events[i]);
            i = i + 1;
        }
        r
    }

    fn next_event(&mut self) -> (r: u64) {
        self.max = self.max + 1;
        self.max
    }

    fn add_event(&mut self, event: u64) -> (r: bool) {
        let ghost before = *self;
        let r = if event <= self.max {
            false
        } else {
            self.max = event;
            true
        };
        proof {
            assert(final(self).view_set() =~= before.view_set() + Self::added(event));
        }
        r
    }

    fn add_event_range(&mut self, start: u64, end: u64) -> (r: bool) {
        let ghost before = *self;
        let r = self.add_event(end);
        proof {
            assert(final(self).view_set() =~= before.view_set() + Self::added_range(start, end));
            if r {
                assert(Self::added_range(start, end).contains(end));
            } else {
                assert forall|x: u64|
                    Self::added_range(start, end).contains(x)
                    implies before.view_set().contains(x) by {}
            }
        }
        r
    }

    fn duplicate(&self) -> (r: Self) {
        MaxSet { max: self.max }
    }

    fn is_event(&self, event: u64) -> (r: bool) {
        1 <= event && event <= self.max
    }

    fn events(&self) -> (r: (u64, Vec<u64>)) {
        let over: Vec<u64> = Vec::new();
        proof {
            assert(seq_to_set(over@) =~= Set::<u64>::empty());
        }
        (self.max, over)
    }

    fn frontier(&self) -> (r: u64) {
        self.max
    }

    fn join(&mut self, other: &Self) {
        let ghost before = *self;
        if other.max > self.max {
            self.max = other.max;
        }
        proof {
            assert(final(self).view_set() =~= before.view_set() + other.view_set());
        }
    }

    fn meet(&mut self, other: &Self) {
        let ghost before = *self;
        if other.max < self.max {
            self.max = other.max;
        }
        proof {
            assert(final(self).view_set() =~= before.view_set().intersect(other.view_set()));
        }
    }

    fn event_iter(self) -> (r: Vec<u64>) {
        let mut out: Vec<u64> = Vec::new();
        let mut e: u64 = 0;
        while e < self.max
            invariant
                e <= self.max,
                strictly_sorted(out@),
                out@.len() == e,
                forall|i: int| 0 <= i < out@.len() ==> out@[i] == i + 1,
            decreases self.max - e,
        {
            e = e + 1;
            out.push(e);
        }
        proof {
            assert forall|x: u64| seq_to_set(out@).contains(x)
                implies self.view_set().contains(x) by {
                let i = choose|i: int| 0 <= i < out@.len() && out@[i] == x;
            }
            assert forall|x: u64| self.view_set().contains(x)
                implies seq_to_set(out@).contains(x) by {
                assert(out@[x - 1] == x);
            }
            assert(seq_to_set(out@) =~= self.view_set());
        }
        out
    }

    fn subtracted(&self, other: &Self) -> (r: Vec<u64>) {
        let mut out: Vec<u64> = Vec::new();
        if self.max > other.max {
            let mut e: u64 = other.max;
            while e < self.max
                invariant
                    other.max <= e <= self.max,
                    strictly_sorted(out@),
                    out@.len() == e - other.max,
                    forall|i: int| 0 <= i < out@.len() ==> out@[i] == other.max + i + 1,
                decreases self.max - e,
            {
                e = e + 1;
                out.push(e);
            }
        }
        proof {
            assert forall|x: u64| seq_to_set(out@).contains(x)
                implies self.view_set().difference(other.view_set()).contains(x) by {
                let i = choose|i: int| 0 <= i < out@.len() && out@[i] == x;
            }
            assert forall|x: u64| self.view_set().difference(other.view_set()).contains(x)
                implies seq_to_set(out@).contains(x) by {
                assert(out@[x - other.max - 1] == x);
            }
            assert(seq_to_set(out@) =~= self.view_set().difference(other.view_set()));
        }
        out
    }
}

} // verus!
