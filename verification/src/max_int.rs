use vstd::prelude::*;

use crate::traits::set_range;

verus! {

/// A minimal compact event set: a single integer standing for the set
/// `{1..event}`.
#[derive(Clone, Copy, PartialEq, Eq, Structural, Debug)]
pub struct MaxInt {
    pub event: u64,
}

impl MaxInt {
    /// The set this value stands for.
    pub open spec fn view_set(&self) -> Set<u64> {
        set_range(1, self.event)
    }

    /// Returns a new, empty `MaxInt` instance.
    pub fn new() -> (r: Self)
        ensures
            r.event == 0,
            r.view_set() == Set::<u64>::empty(),
    {
        let r = MaxInt { event: 0 };
        proof {
            assert(r.view_set() =~= Set::<u64>::empty());
        }
        r
    }

    /// Creates a new instance holding `{1..event}`.
    pub fn from_event(event: u64) -> (r: Self)
        ensures
            r.event == event,
            r.view_set() == set_range(1, event),
    {
        MaxInt { event }
    }

    /// Generates the next event.
    pub fn next_event(&mut self) -> (r: u64)
        requires
            old(self).event < u64::MAX,
        ensures
            r == old(self).event + 1,
            final(self).event == r,
            final(self).view_set() == old(self).view_set().insert(r),
    {
        self.event = self.event + 1;
        let r = self.event;
        proof {
            assert(final(self).view_set() =~= old(self).view_set().insert(r));
        }
        r
    }

    /// Adds an event to the set: every event up to it becomes present.
    pub fn add_event(&mut self, event: u64)
        ensures
            final(self).event == (if event > old(self).event { event } else { old(self).event }),
            final(self).view_set() == old(self).view_set() + set_range(1, event),
    {
        if event > self.event {
            self.event = event;
        }
        proof {
            assert(final(self).view_set() =~= old(self).view_set() + set_range(1, event));
        }
    }

    /// Checks if an event is part of the set.
    pub fn is_event(&self, event: &u64) -> (r: bool)
        ensures
            r == self.view_set().contains(*event),
    {
        1 <= *event && *event <= self.event
    }

    /// Returns all events seen as a pair of the highest event and an empty
    /// overflow list.
    pub fn events(&self) -> (r: (u64, Vec<u64>))
        ensures
            r.0 == self.event,
            r.1@.len() == 0,
    {
        (self.event, Vec::new())
    }

    /// Merges `other` into `self`: the result is the set union.
    pub fn join(&mut self, other: &Self)
        ensures
            final(self).view_set() == old(self).view_set() + other.view_set(),
    {
        self.add_event(other.event);
        proof {
            assert(final(self).view_set() =~= old(self).view_set() + other.view_set());
        }
    }
}

} // verus!
