use vstd::prelude::*;

use crate::kvlist::{kv_find, kv_map, kv_unique, lemma_kv_map_domain, lemma_kv_map_index,
    lemma_kv_map_push, lemma_kv_map_update};
use crate::maxset::MaxSet;
use crate::above_exset::AboveExSet;
use crate::above_range::AboveRangeSet;
use crate::below_exset::BelowExSet;
use crate::traits::{strictly_sorted, seq_to_set, Actor, EventSet};

verus! {

/// A vector clock: a `Clock` whose per-actor sets are `MaxSet`s.
pub type VClock<A> = Clock<A, MaxSet>;

/// A `Clock` whose per-actor sets are `AboveExSet`s.
pub type AEClock<A> = Clock<A, AboveExSet>;

/// A `Clock` whose per-actor sets are `AboveRangeSet`s.
pub type ARClock<A> = Clock<A, AboveRangeSet>;

/// A `Clock` whose per-actor sets are `BelowExSet`s.
pub type BEClock<A> = Clock<A, BelowExSet>;

/// A pair of an actor and one of its event numbers: a compact witness that a
/// particular event has been observed.
#[derive(Clone, PartialEq, Eq, Debug)]
pub struct Dot<A: Actor> {
    pub actor: A,
    pub seq: u64,
}

impl<A: Actor> Dot<A> {
    /// Returns a new `Dot` instance.
    pub fn new(actor: &A, seq: u64) -> (r: Self)
        ensures
            r.actor.deep_view() == actor.deep_view(),
            r.seq == seq,
    {
        Dot { actor: actor.actor_clone(), seq }
    }
}

/// The number of listed actors whose frontier is at least `k`.
pub open spec fn count_frontier_ge<A: Actor, E: EventSet>(s: Seq<(A, E)>, k: u64) -> int
    decreases s.len(),
{
    if s.len() == 0 {
        0
    } else {
        count_frontier_ge(s.drop_last(), k)
            + if s.last().1.frontier_spec() >= k { 1int } else { 0int }
    }
}

/// Bounds and emptiness facts about the frontier count.
pub proof fn lemma_count_frontier_facts<A: Actor, E: EventSet>(s: Seq<(A, E)>, k: u64)
    ensures
        0 <= count_frontier_ge(s, k) <= s.len(),
        count_frontier_ge(s, k) == 0
            ==> forall|j: int| 0 <= j < s.len()
                ==> (#[trigger] s[j]).1.frontier_spec() < k,
        (exists|j: int| 0 <= j < s.len() && (#[trigger] s[j]).1.frontier_spec() >= k)
            ==> count_frontier_ge(s, k) >= 1,
    decreases s.len(),
{
    if s.len() == 0 {
    } else {
        lemma_count_frontier_facts::<A, E>(s.drop_last(), k);
        assert(forall|j: int| 0 <= j < s.len() - 1 ==> s[j] == s.drop_last()[j]);
        if exists|j: int| 0 <= j < s.len() && (#[trigger] s[j]).1.frontier_spec() >= k {
            let j = choose|j: int| 0 <= j < s.len()
                && (#[trigger] s[j]).1.frontier_spec() >= k;
            if j < s.len() - 1 {
                assert(s.drop_last()[j].1.frontier_spec() >= k);
            }
        }
    }
}

/// If every frontier at or above `k1` is also at or above `k2`, the count at
/// `k1` is no larger than the count at `k2`.
pub proof fn lemma_count_frontier_subset<A: Actor, E: EventSet>(
    s: Seq<(A, E)>,
    k1: u64,
    k2: u64,
)
    requires
        forall|j: int| 0 <= j < s.len()
            ==> ((#[trigger] s[j]).1.frontier_spec() >= k1 ==> s[j].1.frontier_spec() >= k2),
    ensures
        count_frontier_ge(s, k1) <= count_frontier_ge(s, k2),
    decreases s.len(),
{
    if s.len() == 0 {
    } else {
        assert(forall|j: int| 0 <= j < s.len() - 1 ==> s[j] == s.drop_last()[j]);
        lemma_count_frontier_subset::<A, E>(s.drop_last(), k1, k2);
        assert(s[s.len() - 1] == s.last());
    }
}

/// Among the actors whose frontier is at least `k`, there is one with the
/// smallest such frontier.
pub proof fn lemma_min_frontier_candidate<A: Actor, E: EventSet>(s: Seq<(A, E)>, k: u64)
    requires
        count_frontier_ge(s, k) >= 1,
    ensures
        exists|i: int| 0 <= i < s.len()
            && (#[trigger] s[i]).1.frontier_spec() >= k
            && forall|j: int| 0 <= j < s.len()
                ==> ((#[trigger] s[j]).1.frontier_spec() >= k
                    ==> s[j].1.frontier_spec() >= s[i].1.frontier_spec()),
    decreases s.len(),
{
    assert(forall|j: int| 0 <= j < s.len() - 1 ==> s[j] == s.drop_last()[j]);
    let last_in = s.last().1.frontier_spec() >= k;
    if count_frontier_ge(s.drop_last(), k) == 0 {
        assert(last_in);
        lemma_count_frontier_facts::<A, E>(s.drop_last(), k);
        let i = s.len() - 1;
        assert(s[i].1.frontier_spec() >= k);
        assert forall|j: int| 0 <= j < s.len()
            implies ((#[trigger] s[j]).1.frontier_spec() >= k
                ==> s[j].1.frontier_spec() >= s[i].1.frontier_spec()) by {
            if j < s.len() - 1 {
                assert(s.drop_last()[j].1.frontier_spec() < k);
            }
        }
    } else {
        lemma_min_frontier_candidate::<A, E>(s.drop_last(), k);
        let m = choose|m: int| 0 <= m < s.drop_last().len()
            && (#[trigger] s.drop_last()[m]).1.frontier_spec() >= k
            && forall|j: int| 0 <= j < s.drop_last().len()
                ==> ((#[trigger] s.drop_last()[j]).1.frontier_spec() >= k
                    ==> s.drop_last()[j].1.frontier_spec()
                        >= s.drop_last()[m].1.frontier_spec());
        if last_in && s.last().1.frontier_spec() < s[m].1.frontier_spec() {
            let i = s.len() - 1;
            assert(s[i].1.frontier_spec() >= k);
            assert forall|j: int| 0 <= j < s.len()
                implies ((#[trigger] s[j]).1.frontier_spec() >= k
                    ==> s[j].1.frontier_spec() >= s[i].1.frontier_spec()) by {
                if j < s.len() - 1 && s[j].1.frontier_spec() >= k {
                    assert(s.drop_last()[j].1.frontier_spec()
                        >= s.drop_last()[m].1.frontier_spec());
                }
            }
        } else {
            assert(s[m].1.frontier_spec() >= k);
            assert forall|j: int| 0 <= j < s.len()
                implies ((#[trigger] s[j]).1.frontier_spec() >= k
                    ==> s[j].1.frontier_spec() >= s[m].1.frontier_spec()) by {
                if j < s.len() - 1 && s[j].1.frontier_spec() >= k {
                    assert(s.drop_last()[j].1.frontier_spec()
                        >= s.drop_last()[m].1.frontier_spec());
                }
            }
        }
    }
}

/// Whether one of the first `j` listed entries carries the actor `a`.
pub open spec fn key_in_prefix<A: Actor, E>(s: Seq<(A, E)>, j: int, a: <A as DeepView>::V) -> bool {
    exists|t: int| 0 <= t < j && (#[trigger] s[t]).0.deep_view() == a
}

/// A causal-history summary: a mapping from actor identifier to an event set.
/// A missing actor is equivalent to an actor mapped to the empty set.
#[derive(Clone, PartialEq, Eq, Debug)]
pub struct Clock<A: Actor, E: EventSet> {
    /// Actor-set pairs, actors distinct (by deep view).
    pub entries: Vec<(A, E)>,
}

impl<A: Actor, E: EventSet> Clock<A, E> {
    /// The mapping from actor views to event sets.
    pub open spec fn view_map(&self) -> Map<<A as DeepView>::V, E> {
        kv_map(self.entries@)
    }

    /// The set of events recorded for an actor; empty when absent.
    pub open spec fn actor_set(&self, a: <A as DeepView>::V) -> Set<u64> {
        if self.view_map().dom().contains(a) {
            self.view_map()[a].view_set()
        } else {
            Set::empty()
        }
    }

    /// Whether the clock holds the event `seq` for the actor.
    pub open spec fn spec_contains(&self, a: <A as DeepView>::V, seq: u64) -> bool {
        self.actor_set(a).contains(seq)
    }

    /// Whether `next` may be called for the actor: its entry, if any, must be
    /// a contiguous prefix with room to grow.
    pub open spec fn can_next_actor(&self, a: <A as DeepView>::V) -> bool {
        self.view_map().dom().contains(a) ==> self.view_map()[a].can_next()
    }

    /// Actors are distinct and every entry satisfies its representation
    /// invariant.
    pub open spec fn inv(&self) -> bool {
        &&& kv_unique(self.entries@)
        &&& forall|i: int| 0 <= i < self.entries@.len()
            ==> (#[trigger] self.entries@[i]).1.inv()
    }

    /// Returns a new `Clock` instance with no actors.
    pub fn new() -> (r: Self)
        ensures
            r.inv(),
            r.entries@.len() == 0,
            r.view_map() == Map::<<A as DeepView>::V, E>::empty(),
    {
        Clock { entries: Vec::new() }
    }

    /// Returns a new `Clock` mapping each listed actor to a bottom entry.
    #[verifier::loop_isolation(false)]
    pub fn with(actors: Vec<A>) -> (r: Self)
        requires
            forall|i: int, j: int| 0 <= i < j < actors@.len()
                ==> (#[trigger] actors@[i]).deep_view()
                    != (#[trigger] actors@[j]).deep_view(),
        ensures
            r.inv(),
            forall|i: int| 0 <= i < actors@.len()
                ==> r.view_map().dom().contains((#[trigger] actors@[i]).deep_view())
                    && r.actor_set(actors@[i].deep_view()) =~= Set::<u64>::empty(),
            forall|a: <A as DeepView>::V| #[trigger] r.view_map().dom().contains(a)
                ==> exists|i: int| 0 <= i < actors@.len()
                    && (#[trigger] actors@[i]).deep_view() == a,
    {
        let mut r = Self::new();
        let mut i: usize = 0;
        while i < actors.len()
            invariant
                i <= actors@.len(),
                r.inv(),
                forall|j: int| 0 <= j < i
                    ==> r.view_map().dom().contains((#[trigger] actors@[j]).deep_view())
                        && r.actor_set(actors@[j].deep_view()) =~= Set::<u64>::empty(),
                forall|a: <A as DeepView>::V| #[trigger] r.view_map().dom().contains(a)
                    ==> exists|j: int| 0 <= j < i
                        && (#[trigger] actors@[j]).deep_view() == a,
                forall|t: int| 0 <= t < r.entries@.len()
                    ==> exists|j: int| 0 <= j < i
                        && (#[trigger] r.entries@[t]).0.deep_view()
                            == (#[trigger] actors@[j]).deep_view(),
            decreases actors@.len() - i,
        {
            let ghost s0 = r.entries@;
            let a = actors[i].actor_clone();
            let e = E::new();
            proof {
                assert forall|t: int| 0 <= t < s0.len()
                    implies (#[trigger] s0[t]).0.deep_view()
                        != actors@[i as int].deep_view() by {
                    let j = choose|j: int| 0 <= j < i
                        && (#[trigger] s0[t]).0.deep_view()
                            == (#[trigger] actors@[j]).deep_view();
                }
            }
            r.entries.push((a, e));
            proof {
                lemma_kv_map_push::<A, E>(s0, a, e);
                assert(r.entries@.drop_last() =~= s0);
                lemma_kv_map_domain::<A, E>(r.entries@);
            }
            i = i + 1;
        }
        r
    }

    /// Creates a `Clock` from a list of actor-set pairs with distinct actors.
    #[verifier::loop_isolation(false)]
    pub fn from(pairs: Vec<(A, E)>) -> (r: Self)
        requires
            kv_unique(pairs@),
            forall|i: int| 0 <= i < pairs@.len() ==> (#[trigger] pairs@[i]).1.inv(),
        ensures
            r.inv(),
            r.entries@ == pairs@,
            r.view_map() == kv_map(pairs@),
    {
        Clock { entries: pairs }
    }

    /// Creates a `Clock` from a list of actor-set pairs with distinct actors.
    pub fn from_vec(pairs: Vec<(A, E)>) -> (r: Self)
        requires
            kv_unique(pairs@),
            forall|i: int| 0 <= i < pairs@.len() ==> (#[trigger] pairs@[i]).1.inv(),
        ensures
            r.inv(),
            r.entries@ == pairs@,
            r.view_map() == kv_map(pairs@),
    {
        Self::from(pairs)
    }

    /// Returns the number of actors in the clock.
    pub fn len(&self) -> (r: usize)
        ensures
            r == self.entries@.len(),
    {
        self.entries.len()
    }

    /// Checks that the clock holds no actor.
    pub fn is_empty(&self) -> (r: bool)
        ensures
            r == (self.entries@.len() == 0),
    {
        self.entries.len() == 0
    }

    /// Retrieves the event set associated with an actor.
    pub fn get(&self, actor: &A) -> (r: Option<&E>)
        requires
            self.inv(),
        ensures
            match r {
                Some(e) => self.view_map().dom().contains(actor.deep_view())
                    && *e == self.view_map()[actor.deep_view()],
                None => !self.view_map().dom().contains(actor.deep_view()),
            },
    {
        match kv_find(&self.entries, actor) {
            Some(i) => {
                proof {
                    lemma_kv_map_index::<A, E>(self.entries@, i as int);
                }
                Some(&self.entries[i].1)
            }
            None => {
                proof {
                    lemma_kv_map_domain::<A, E>(self.entries@);
                    if self.view_map().dom().contains(actor.deep_view()) {
                        let j = choose|j: int| 0 <= j < self.entries@.len()
                            && (#[trigger] self.entries@[j]).0.deep_view()
                                == actor.deep_view();
                    }
                }
                None
            }
        }
    }

    /// Returns the next event for the actor while updating its entry.
    pub fn next(&mut self, actor: &A) -> (r: u64)
        requires
            old(self).inv(),
            old(self).can_next_actor(actor.deep_view()),
        ensures
            final(self).inv(),
            1 <= r,
            !old(self).spec_contains(actor.deep_view(), r),
            forall|x: u64| final(self).spec_contains(actor.deep_view(), x) <==> 1 <= x <= r,
            final(self).view_map().dom()
                =~= old(self).view_map().dom().insert(actor.deep_view()),
            forall|b: <A as DeepView>::V| b != actor.deep_view()
                ==> final(self).actor_set(b) =~= old(self).actor_set(b),
    {
        let ghost s0 = self.entries@;
        proof {
            lemma_kv_map_domain::<A, E>(s0);
        }
        match kv_find(&self.entries, actor) {
            Some(i) => {
                proof {
                    lemma_kv_map_index::<A, E>(s0, i as int);
                }
                let mut eset = self.entries[i].1.duplicate();
                let r = eset.next_event();
                let key = self.entries[i].0.actor_clone();
                self.entries.set(i, (key, eset));
                proof {
                    assert(self.entries@ =~= s0.update(i as int, (key, eset)));
                    lemma_kv_map_update::<A, E>(s0, i as int, (key, eset));
                    assert forall|t: int| 0 <= t < self.entries@.len()
                        implies (#[trigger] self.entries@[t]).1.inv() by {
                        if t != i {
                            assert(self.entries@[t] == s0[t]);
                        }
                    }
                    lemma_kv_map_domain::<A, E>(self.entries@);
                    assert forall|b: <A as DeepView>::V| b != actor.deep_view()
                        implies final(self).actor_set(b) =~= old(self).actor_set(b) by {}
                }
                r
            }
            None => {
                proof {
                    if self.view_map().dom().contains(actor.deep_view()) {
                        let j = choose|j: int| 0 <= j < s0.len()
                            && (#[trigger] s0[j]).0.deep_view() == actor.deep_view();
                    }
                }
                let e = E::from_event(1);
                let key = actor.actor_clone();
                proof {
                    E::lemma_added(1);
                }
                self.entries.push((key, e));
                proof {
                    lemma_kv_map_push::<A, E>(s0, key, e);
                    assert(self.entries@.drop_last() =~= s0);
                    assert forall|t: int| 0 <= t < self.entries@.len()
                        implies (#[trigger] self.entries@[t]).1.inv() by {
                        if t < s0.len() {
                            assert(self.entries@[t] == s0[t]);
                        }
                    }
                    assert forall|x: u64| final(self).spec_contains(actor.deep_view(), x)
                        implies 1 <= x <= 1 by {}
                }
                1
            }
        }
    }

    /// Adds an event to the clock; returns whether the event was new.
    pub fn add(&mut self, actor: &A, seq: u64) -> (r: bool)
        requires
            old(self).inv(),
        ensures
            final(self).inv(),
            final(self).view_map().dom()
                =~= old(self).view_map().dom().insert(actor.deep_view()),
            final(self).actor_set(actor.deep_view())
                =~= old(self).actor_set(actor.deep_view()) + E::added(seq),
            forall|b: <A as DeepView>::V| b != actor.deep_view()
                ==> final(self).actor_set(b) =~= old(self).actor_set(b),
            r == (seq >= 1 && !old(self).spec_contains(actor.deep_view(), seq)),
    {
        let ghost s0 = self.entries@;
        proof {
            lemma_kv_map_domain::<A, E>(s0);
            E::lemma_added(seq);
        }
        match kv_find(&self.entries, actor) {
            Some(i) => {
                proof {
                    lemma_kv_map_index::<A, E>(s0, i as int);
                }
                let mut eset = self.entries[i].1.duplicate();
                let r = eset.add_event(seq);
                let key = self.entries[i].0.actor_clone();
                self.entries.set(i, (key, eset));
                proof {
                    assert(self.entries@ =~= s0.update(i as int, (key, eset)));
                    lemma_kv_map_update::<A, E>(s0, i as int, (key, eset));
                    assert forall|t: int| 0 <= t < self.entries@.len()
                        implies (#[trigger] self.entries@[t]).1.inv() by {
                        if t != i {
                            assert(self.entries@[t] == s0[t]);
                        }
                    }
                    lemma_kv_map_domain::<A, E>(self.entries@);
                }
                r
            }
            None => {
                proof {
                    if self.view_map().dom().contains(actor.deep_view()) {
                        let j = choose|j: int| 0 <= j < s0.len()
                            && (#[trigger] s0[j]).0.deep_view() == actor.deep_view();
                    }
                }
                let e = E::from_event(seq);
                let key = actor.actor_clone();
                self.entries.push((key, e));
                proof {
                    lemma_kv_map_push::<A, E>(s0, key, e);
                    assert(self.entries@.drop_last() =~= s0);
                    assert forall|t: int| 0 <= t < self.entries@.len()
                        implies (#[trigger] self.entries@[t]).1.inv() by {
                        if t < s0.len() {
                            assert(self.entries@[t] == s0[t]);
                        }
                    }
                }
                seq >= 1
            }
        }
    }

    /// Adds a range of events to the clock; returns whether any was new.
    pub fn add_range(&mut self, actor: &A, start: u64, end: u64) -> (r: bool)
        requires
            old(self).inv(),
            1 <= start <= end,
        ensures
            final(self).inv(),
            final(self).view_map().dom()
                =~= old(self).view_map().dom().insert(actor.deep_view()),
            final(self).actor_set(actor.deep_view())
                =~= old(self).actor_set(actor.deep_view()) + E::added_range(start, end),
            forall|b: <A as DeepView>::V| b != actor.deep_view()
                ==> final(self).actor_set(b) =~= old(self).actor_set(b),
            r == exists|x: u64|
                E::added_range(start, end).contains(x)
                && !old(self).spec_contains(actor.deep_view(), x),
    {
        let ghost s0 = self.entries@;
        proof {
            lemma_kv_map_domain::<A, E>(s0);
            E::lemma_added_range(start, end);
        }
        match kv_find(&self.entries, actor) {
            Some(i) => {
                proof {
                    lemma_kv_map_index::<A, E>(s0, i as int);
                }
                let mut eset = self.entries[i].1.duplicate();
                let r = eset.add_event_range(start, end);
                let key = self.entries[i].0.actor_clone();
                self.entries.set(i, (key, eset));
                proof {
                    assert(self.entries@ =~= s0.update(i as int, (key, eset)));
                    lemma_kv_map_update::<A, E>(s0, i as int, (key, eset));
                    assert forall|t: int| 0 <= t < self.entries@.len()
                        implies (#[trigger] self.entries@[t]).1.inv() by {
                        if t != i {
                            assert(self.entries@[t] == s0[t]);
                        }
                    }
                    lemma_kv_map_domain::<A, E>(self.entries@);
                }
                r
            }
            None => {
                proof {
                    if self.view_map().dom().contains(actor.deep_view()) {
                        let j = choose|j: int| 0 <= j < s0.len()
                            && (#[trigger] s0[j]).0.deep_view() == actor.deep_view();
                    }
                }
                let e = E::from_event_range(start, end);
                let key = actor.actor_clone();
                self.entries.push((key, e));
                proof {
                    lemma_kv_map_push::<A, E>(s0, key, e);
                    assert(self.entries@.drop_last() =~= s0);
                    assert forall|t: int| 0 <= t < self.entries@.len()
                        implies (#[trigger] self.entries@[t]).1.inv() by {
                        if t < s0.len() {
                            assert(self.entries@[t] == s0[t]);
                        }
                    }
                    assert(E::added_range(start, end).contains(start));
                }
                true
            }
        }
    }

    /// The actor-set pairs, in the clock's iteration order.
    pub fn iter(&self) -> (r: &Vec<(A, E)>)
        ensures
            r@ == self.entries@,
    {
        &self.entries
    }

    /// Checks if an event is part of the clock.
    pub fn contains(&self, actor: &A, seq: u64) -> (r: bool)
        requires
            self.inv(),
        ensures
            r == self.spec_contains(actor.deep_view(), seq),
    {
        match kv_find(&self.entries, actor) {
            Some(i) => {
                proof {
                    lemma_kv_map_index::<A, E>(self.entries@, i as int);
                }
                self.entries[i].1.is_event(seq)
            }
            None => {
                proof {
                    lemma_kv_map_domain::<A, E>(self.entries@);
                    if self.view_map().dom().contains(actor.deep_view()) {
                        let j = choose|j: int| 0 <= j < self.entries@.len()
                            && (#[trigger] self.entries@[j]).0.deep_view()
                                == actor.deep_view();
                    }
                }
                false
            }
        }
    }
}

impl<A: Actor, E: EventSet> Clock<A, E> {
    /// Returns the clock frontier: a vector clock mapping each actor to its
    /// event set's highest contiguous event.
    #[verifier::loop_isolation(false)]
    pub fn frontier(&self) -> (r: VClock<A>)
        requires
            self.inv(),
        ensures
            r.inv(),
            r.entries@.len() == self.entries@.len(),
            forall|i: int| 0 <= i < self.entries@.len()
                ==> (#[trigger] r.entries@[i]).0.deep_view()
                        == self.entries@[i].0.deep_view()
                    && r.entries@[i].1.max == self.entries@[i].1.frontier_spec(),
    {
        let mut out: Vec<(A, MaxSet)> = Vec::new();
        let mut i: usize = 0;
        while i < self.entries.len()
            invariant
                i <= self.entries@.len(),
                out@.len() == i,
                forall|j: int| 0 <= j < i
                    ==> (#[trigger] out@[j]).0.deep_view()
                            == self.entries@[j].0.deep_view()
                        && out@[j].1.max == self.entries@[j].1.frontier_spec(),
            decreases self.entries@.len() - i,
        {
            let key = self.entries[i].0.actor_clone();
            let f = self.entries[i].1.frontier();
            out.push((key, MaxSet::from(f)));
            i = i + 1;
        }
        proof {
            assert(kv_unique(out@));
        }
        Clock { entries: out }
    }

    /// The number of actors whose frontier is at least `k`.
    #[verifier::loop_isolation(false)]
    fn count_frontiers_ge(&self, k: u64) -> (r: usize)
        requires
            self.inv(),
        ensures
            r == count_frontier_ge(self.entries@, k),
    {
        proof {
            lemma_count_frontier_facts::<A, E>(self.entries@, k);
        }
        let mut count: usize = 0;
        let mut i: usize = 0;
        while i < self.entries.len()
            invariant
                i <= self.entries@.len(),
                count == count_frontier_ge(self.entries@.take(i as int), k),
                count <= i,
            decreases self.entries@.len() - i,
        {
            proof {
                assert(self.entries@.take(i as int + 1).drop_last()
                    =~= self.entries@.take(i as int));
                assert(self.entries@.take(i as int + 1).last() == self.entries@[i as int]);
                lemma_count_frontier_facts::<A, E>(self.entries@.take(i as int), k);
            }
            let f = self.entries[i].1.frontier();
            if f >= k {
                count = count + 1;
            }
            i = i + 1;
        }
        proof {
            assert(self.entries@.take(self.entries@.len() as int) =~= self.entries@);
        }
        count
    }

    /// The largest event whose frontier has been reached by at least
    /// `threshold` of the clock's actors; `None` when the clock has fewer
    /// actors than `threshold`.
    #[verifier::loop_isolation(false)]
    pub fn frontier_threshold(&self, threshold: usize) -> (r: Option<u64>)
        requires
            self.inv(),
            threshold >= 1,
        ensures
            match r {
                Some(v) => threshold <= self.entries@.len()
                    && count_frontier_ge(self.entries@, v) >= threshold
                    && forall|k: u64| k > v
                        ==> count_frontier_ge(self.entries@, k) < threshold,
                None => threshold > self.entries@.len(),
            },
    {
        let n = self.entries.len();
        if threshold > n {
            return None;
        }
        let mut best: u64 = 0;
        let mut found = false;
        let mut i: usize = 0;
        while i < n
            invariant
                i <= n,
                n == self.entries@.len(),
                found ==> exists|j: int| 0 <= j < i
                    && (#[trigger] self.entries@[j]).1.frontier_spec() == best
                    && count_frontier_ge(self.entries@, best) >= threshold,
                forall|j: int| 0 <= j < i
                    ==> (count_frontier_ge(
                            self.entries@,
                            (#[trigger] self.entries@[j]).1.frontier_spec(),
                        ) >= threshold
                        ==> found && self.entries@[j].1.frontier_spec() <= best),
            decreases n - i,
        {
            let f = self.entries[i].1.frontier();
            let c = self.count_frontiers_ge(f);
            if c >= threshold && (!found || f > best) {
                best = f;
                found = true;
                proof {
                    assert(self.entries@[i as int].1.frontier_spec() == best);
                }
            }
            i = i + 1;
        }
        proof {
            if !found {
                // with `threshold <= n` the smallest frontier always passes
                assert(count_frontier_ge(self.entries@, 0) >= threshold) by {
                    lemma_count_frontier_subset::<A, E>(self.entries@, 0, 0);
                    lemma_count_all(self.entries@);
                }
                lemma_min_frontier_candidate::<A, E>(self.entries@, 0);
                let m = choose|m: int| 0 <= m < self.entries@.len()
                    && (#[trigger] self.entries@[m]).1.frontier_spec() >= 0
                    && forall|j: int| 0 <= j < self.entries@.len()
                        ==> ((#[trigger] self.entries@[j]).1.frontier_spec() >= 0
                            ==> self.entries@[j].1.frontier_spec()
                                >= self.entries@[m].1.frontier_spec());
                lemma_count_frontier_subset::<A, E>(
                    self.entries@,
                    0,
                    self.entries@[m].1.frontier_spec(),
                );
                lemma_count_all(self.entries@);
                assert(count_frontier_ge(
                    self.entries@, self.entries@[m].1.frontier_spec()) >= threshold);
                assert(false);
            }
            assert forall|k: u64| k > best
                implies count_frontier_ge(self.entries@, k) < threshold by {
                if count_frontier_ge(self.entries@, k) >= threshold {
                    lemma_min_frontier_candidate::<A, E>(self.entries@, k);
                    let m = choose|m: int| 0 <= m < self.entries@.len()
                        && (#[trigger] self.entries@[m]).1.frontier_spec() >= k
                        && forall|j: int| 0 <= j < self.entries@.len()
                            ==> ((#[trigger] self.entries@[j]).1.frontier_spec() >= k
                                ==> self.entries@[j].1.frontier_spec()
                                    >= self.entries@[m].1.frontier_spec());
                    lemma_count_frontier_subset::<A, E>(
                        self.entries@,
                        k,
                        self.entries@[m].1.frontier_spec(),
                    );
                    assert(count_frontier_ge(
                        self.entries@, self.entries@[m].1.frontier_spec()) >= threshold);
                    assert(self.entries@[m].1.frontier_spec() > best);
                    assert(false);
                }
            }
        }
        Some(best)
    }

    /// Merges clock `other` into `self`: afterwards every actor holds the
    /// union of both event sets, and every event of `other` is in `self`.
    #[verifier::loop_isolation(false)]
    pub fn join(&mut self, other: &Self)
        requires
            old(self).inv(),
            other.inv(),
        ensures
            final(self).inv(),
            forall|a: <A as DeepView>::V| #[trigger] final(self).view_map().dom().contains(a)
                <==> old(self).view_map().dom().contains(a)
                    || other.view_map().dom().contains(a),
            forall|a: <A as DeepView>::V| #[trigger] final(self).actor_set(a)
                =~= old(self).actor_set(a) + other.actor_set(a),
    {
        let ghost a0 = *old(self);
        let ghost b = *other;
        proof {
            lemma_kv_map_domain::<A, E>(b.entries@);
        }
        let mut j: usize = 0;
        while j < other.entries.len()
            invariant
                j <= b.entries@.len(),
                self.inv(),
                other.inv(),
                *other == b,
                forall|a: <A as DeepView>::V| key_in_prefix::<A, E>(b.entries@, j as int, a)
                    ==> #[trigger] self.actor_set(a) =~= a0.actor_set(a) + b.actor_set(a),
                forall|a: <A as DeepView>::V| key_in_prefix::<A, E>(b.entries@, j as int, a)
                    ==> #[trigger] self.view_map().dom().contains(a),
                forall|a: <A as DeepView>::V| !key_in_prefix::<A, E>(b.entries@, j as int, a)
                    ==> #[trigger] self.actor_set(a) == a0.actor_set(a)
                        && (self.view_map().dom().contains(a)
                            == a0.view_map().dom().contains(a)),
            decreases b.entries@.len() - j,
        {
            let ghost bkey = b.entries@[j as int].0.deep_view();
            let ghost self0 = *self;
            let ghost s0 = self.entries@;
            proof {
                lemma_kv_map_index::<A, E>(b.entries@, j as int);
                assert(b.actor_set(bkey) == b.entries@[j as int].1.view_set());
                // this key has not been processed yet: the keys of `other`
                // are distinct
                assert(!key_in_prefix::<A, E>(b.entries@, j as int, bkey)) by {
                    if key_in_prefix::<A, E>(b.entries@, j as int, bkey) {
                        let t = choose|t: int| 0 <= t < j
                            && (#[trigger] b.entries@[t]).0.deep_view() == bkey;
                    }
                }
                assert(self0.actor_set(bkey) == a0.actor_set(bkey));
            }
            match kv_find(&self.entries, &other.entries[j].0) {
                Some(i) => {
                    proof {
                        lemma_kv_map_index::<A, E>(s0, i as int);
                    }
                    let mut eset = self.entries[i].1.duplicate();
                    eset.join(&other.entries[j].1);
                    let key = self.entries[i].0.actor_clone();
                    self.entries.set(i, (key, eset));
                    proof {
                        assert(self.entries@ =~= s0.update(i as int, (key, eset)));
                        lemma_kv_map_update::<A, E>(s0, i as int, (key, eset));
                        assert forall|t: int| 0 <= t < self.entries@.len()
                            implies (#[trigger] self.entries@[t]).1.inv() by {
                            if t != i {
                                assert(self.entries@[t] == s0[t]);
                            }
                        }
                        assert(self.view_map().dom()
                            =~= self0.view_map().dom().insert(bkey));
                        assert(self.actor_set(bkey)
                            =~= a0.actor_set(bkey) + b.actor_set(bkey));
                    }
                }
                None => {
                    proof {
                        lemma_kv_map_domain::<A, E>(s0);
                        if self0.view_map().dom().contains(bkey) {
                            let t = choose|t: int| 0 <= t < s0.len()
                                && (#[trigger] s0[t]).0.deep_view() == bkey;
                        }
                        assert(a0.actor_set(bkey) =~= Set::<u64>::empty());
                    }
                    let eset = other.entries[j].1.duplicate();
                    let key = other.entries[j].0.actor_clone();
                    self.entries.push((key, eset));
                    proof {
                        lemma_kv_map_push::<A, E>(s0, key, eset);
                        assert(self.entries@.drop_last() =~= s0);
                        assert forall|t: int| 0 <= t < self.entries@.len()
                            implies (#[trigger] self.entries@[t]).1.inv() by {
                            if t < s0.len() {
                                assert(self.entries@[t] == s0[t]);
                            }
                        }
                        assert(self.view_map().dom()
                            =~= self0.view_map().dom().insert(bkey));
                        assert(self.actor_set(bkey)
                            =~= a0.actor_set(bkey) + b.actor_set(bkey));
                    }
                }
            }
            proof {
                assert forall|a: <A as DeepView>::V|
                    key_in_prefix::<A, E>(b.entries@, j as int + 1, a)
                    implies #[trigger] self.actor_set(a)
                        =~= a0.actor_set(a) + b.actor_set(a) by {
                    let t = choose|t: int| 0 <= t < j + 1
                        && (#[trigger] b.entries@[t]).0.deep_view() == a;
                    if t < j {
                        assert(key_in_prefix::<A, E>(b.entries@, j as int, a));
                        if a != bkey {
                            assert(self0.actor_set(a)
                                =~= a0.actor_set(a) + b.actor_set(a));
                            assert(self.actor_set(a) == self0.actor_set(a));
                        }
                    } else {
                        assert(a == bkey);
                    }
                }
                assert forall|a: <A as DeepView>::V|
                    key_in_prefix::<A, E>(b.entries@, j as int + 1, a)
                    implies #[trigger] self.view_map().dom().contains(a) by {
                    let t = choose|t: int| 0 <= t < j + 1
                        && (#[trigger] b.entries@[t]).0.deep_view() == a;
                    if t < j {
                        assert(key_in_prefix::<A, E>(b.entries@, j as int, a));
                        assert(self0.view_map().dom().contains(a));
                    } else {
                        assert(a == bkey);
                    }
                }
                assert forall|a: <A as DeepView>::V|
                    !key_in_prefix::<A, E>(b.entries@, j as int + 1, a)
                    implies #[trigger] self.actor_set(a) == a0.actor_set(a)
                        && (self.view_map().dom().contains(a)
                            == a0.view_map().dom().contains(a)) by {
                    assert(a != bkey) by {
                        if a == bkey {
                            assert(b.entries@[j as int].0.deep_view() == a);
                            assert(key_in_prefix::<A, E>(b.entries@, j as int + 1, a));
                        }
                    }
                    assert(!key_in_prefix::<A, E>(b.entries@, j as int, a)) by {
                        if key_in_prefix::<A, E>(b.entries@, j as int, a) {
                            let t = choose|t: int| 0 <= t < j
                                && (#[trigger] b.entries@[t]).0.deep_view() == a;
                            assert(key_in_prefix::<A, E>(b.entries@, j as int + 1, a));
                        }
                    }
                    assert(self.actor_set(a) == self0.actor_set(a));
                    assert(self.view_map().dom().contains(a)
                        == self0.view_map().dom().contains(a));
                }
            }
            j = j + 1;
        }
        proof {
            assert forall|a: <A as DeepView>::V| #[trigger] self.actor_set(a)
                =~= a0.actor_set(a) + b.actor_set(a) by {
                if key_in_prefix::<A, E>(b.entries@, b.entries@.len() as int, a) {
                } else {
                    assert(!b.view_map().dom().contains(a)) by {
                        if b.view_map().dom().contains(a) {
                            let t = choose|t: int| 0 <= t < b.entries@.len()
                                && (#[trigger] b.entries@[t]).0.deep_view() == a;
                            assert(key_in_prefix::<A, E>(
                                b.entries@, b.entries@.len() as int, a));
                        }
                    }
                    assert(b.actor_set(a) =~= Set::<u64>::empty());
                    assert(self.actor_set(a) == a0.actor_set(a));
                }
            }
            assert forall|a: <A as DeepView>::V|
                #[trigger] self.view_map().dom().contains(a)
                == (a0.view_map().dom().contains(a)
                    || b.view_map().dom().contains(a)) by {
                if key_in_prefix::<A, E>(b.entries@, b.entries@.len() as int, a) {
                    let t = choose|t: int| 0 <= t < b.entries@.len()
                        && (#[trigger] b.entries@[t]).0.deep_view() == a;
                    assert(b.view_map().dom().contains(a));
                    assert(self.view_map().dom().contains(a));
                } else {
                    assert(!b.view_map().dom().contains(a)) by {
                        if b.view_map().dom().contains(a) {
                            let t = choose|t: int| 0 <= t < b.entries@.len()
                                && (#[trigger] b.entries@[t]).0.deep_view() == a;
                            assert(key_in_prefix::<A, E>(
                                b.entries@, b.entries@.len() as int, a));
                        }
                    }
                    assert(self.actor_set(a) == a0.actor_set(a));
                    assert(self.view_map().dom().contains(a)
                        == a0.view_map().dom().contains(a));
                }
            }
        }
    }


    /// Intersects clock `other` with `self`: afterwards each actor holds the
    /// intersection of both event sets, and actors missing from `other` are
    /// dropped.
    #[verifier::loop_isolation(false)]
    pub fn meet(&mut self, other: &Self)
        requires
            old(self).inv(),
            other.inv(),
            E::meet_defined(),
        ensures
            final(self).inv(),
            forall|a: <A as DeepView>::V| #[trigger] final(self).view_map().dom().contains(a)
                <==> old(self).view_map().dom().contains(a)
                    && other.view_map().dom().contains(a),
            forall|a: <A as DeepView>::V| #[trigger] final(self).actor_set(a)
                =~= old(self).actor_set(a).intersect(other.actor_set(a)),
    {
        let ghost a0 = *old(self);
        let ghost b = *other;
        proof {
            lemma_kv_map_domain::<A, E>(a0.entries@);
            lemma_kv_map_domain::<A, E>(b.entries@);
        }
        let mut out: Vec<(A, E)> = Vec::new();
        let mut i: usize = 0;
        while i < self.entries.len()
            invariant
                i <= a0.entries@.len(),
                *self == a0,
                other.inv(),
                *other == b,
                kv_unique(out@),
                forall|t: int| 0 <= t < out@.len()
                    ==> (#[trigger] out@[t]).1.inv(),
                forall|a: <A as DeepView>::V| #[trigger] kv_map(out@).dom().contains(a)
                    <==> (exists|t: int| 0 <= t < i
                            && (#[trigger] a0.entries@[t]).0.deep_view() == a)
                        && b.view_map().dom().contains(a),
                forall|a: <A as DeepView>::V| #[trigger] kv_map(out@).dom().contains(a)
                    ==> kv_map(out@)[a].view_set()
                        =~= a0.actor_set(a).intersect(b.actor_set(a)),
            decreases a0.entries@.len() - i,
        {
            let ghost akey = a0.entries@[i as int].0.deep_view();
            proof {
                lemma_kv_map_index::<A, E>(a0.entries@, i as int);
            }
            match kv_find(&other.entries, &self.entries[i].0) {
                Some(j) => {
                    proof {
                        lemma_kv_map_index::<A, E>(b.entries@, j as int);
                    }
                    let mut eset = self.entries[i].1.duplicate();
                    eset.meet(&other.entries[j].1);
                    let key = self.entries[i].0.actor_clone();
                    let ghost out0 = out@;
                    proof {
                        lemma_kv_map_domain::<A, E>(out0);
                        assert forall|t: int| 0 <= t < out0.len()
                            implies (#[trigger] out0[t]).0.deep_view() != akey by {
                            if out0[t].0.deep_view() == akey {
                                assert(kv_map(out0).dom().contains(akey));
                                let u = choose|u: int| 0 <= u < i
                                    && (#[trigger] a0.entries@[u]).0.deep_view() == akey;
                            }
                        }
                    }
                    out.push((key, eset));
                    proof {
                        lemma_kv_map_push::<A, E>(out0, key, eset);
                        assert(out@.drop_last() =~= out0);
                        assert forall|t: int| 0 <= t < out@.len()
                            implies (#[trigger] out@[t]).1.inv() by {
                            if t < out0.len() {
                                assert(out@[t] == out0[t]);
                            }
                        }
                        lemma_kv_map_domain::<A, E>(out@);
                        assert forall|a: <A as DeepView>::V|
                            #[trigger] kv_map(out@).dom().contains(a)
                            implies kv_map(out@)[a].view_set()
                                =~= a0.actor_set(a).intersect(b.actor_set(a)) by {
                            if a != akey {
                                assert(kv_map(out@)[a] == kv_map(out0)[a]);
                            }
                        }
                    }
                }
                None => {
                    proof {
                        if b.view_map().dom().contains(akey) {
                            let t = choose|t: int| 0 <= t < b.entries@.len()
                                && (#[trigger] b.entries@[t]).0.deep_view() == akey;
                        }
                    }
                }
            }
            i = i + 1;
        }
        self.entries = out;
        proof {
            lemma_kv_map_domain::<A, E>(a0.entries@);
            assert forall|a: <A as DeepView>::V|
                #[trigger] final(self).view_map().dom().contains(a)
                == (a0.view_map().dom().contains(a)
                    && b.view_map().dom().contains(a)) by {
                if a0.view_map().dom().contains(a) {
                    let t = choose|t: int| 0 <= t < a0.entries@.len()
                        && (#[trigger] a0.entries@[t]).0.deep_view() == a;
                }
            }
            assert forall|a: <A as DeepView>::V| #[trigger] final(self).actor_set(a)
                =~= a0.actor_set(a).intersect(b.actor_set(a)) by {
                if !final(self).view_map().dom().contains(a) {
                    if !a0.view_map().dom().contains(a) {
                        assert(a0.actor_set(a) =~= Set::<u64>::empty());
                    } else {
                        assert(!b.view_map().dom().contains(a));
                        assert(b.actor_set(a) =~= Set::<u64>::empty());
                    }
                }
            }
        }
    }

    /// For each actor of `self`, the events that `other` has not seen,
    /// ascending: the per-actor set difference.
    #[verifier::loop_isolation(false)]
    pub fn subtracted(&self, other: &Self) -> (r: Vec<(A, Vec<u64>)>)
        requires
            self.inv(),
            other.inv(),
        ensures
            r@.len() == self.entries@.len(),
            forall|i: int| 0 <= i < r@.len()
                ==> (#[trigger] r@[i]).0.deep_view() == self.entries@[i].0.deep_view()
                    && strictly_sorted(r@[i].1@)
                    && seq_to_set(r@[i].1@) =~= self.actor_set(self.entries@[i].0.deep_view())
                        .difference(other.actor_set(self.entries@[i].0.deep_view())),
    {
        proof {
            lemma_kv_map_domain::<A, E>(other.entries@);
        }
        let mut out: Vec<(A, Vec<u64>)> = Vec::new();
        let mut i: usize = 0;
        while i < self.entries.len()
            invariant
                i <= self.entries@.len(),
                self.inv(),
                other.inv(),
                out@.len() == i,
                forall|j: int| 0 <= j < i
                    ==> (#[trigger] out@[j]).0.deep_view() == self.entries@[j].0.deep_view()
                        && strictly_sorted(out@[j].1@)
                        && seq_to_set(out@[j].1@)
                            =~= self.actor_set(self.entries@[j].0.deep_view())
                                .difference(other.actor_set(self.entries@[j].0.deep_view())),
            decreases self.entries@.len() - i,
        {
            let ghost akey = self.entries@[i as int].0.deep_view();
            proof {
                lemma_kv_map_index::<A, E>(self.entries@, i as int);
            }
            let key = self.entries[i].0.actor_clone();
            let diff = match kv_find(&other.entries, &self.entries[i].0) {
                Some(j) => {
                    proof {
                        lemma_kv_map_index::<A, E>(other.entries@, j as int);
                    }
                    self.entries[i].1.subtracted(&other.entries[j].1)
                }
                None => {
                    proof {
                        if other.view_map().dom().contains(akey) {
                            let t = choose|t: int| 0 <= t < other.entries@.len()
                                && (#[trigger] other.entries@[t]).0.deep_view() == akey;
                        }
                        assert(other.actor_set(akey) =~= Set::<u64>::empty());
                    }
                    let evs = self.entries[i].1.duplicate().event_iter();
                    proof {
                        assert(seq_to_set(evs@) =~= self.actor_set(akey)
                            .difference(other.actor_set(akey)));
                    }
                    evs
                }
            };
            out.push((key, diff));
            i = i + 1;
        }
        out
    }

    /// Returns a new `Dot` for the actor while updating the clock.
    pub fn next_dot(&mut self, actor: &A) -> (r: Dot<A>)
        requires
            old(self).inv(),
            old(self).can_next_actor(actor.deep_view()),
        ensures
            final(self).inv(),
            r.actor.deep_view() == actor.deep_view(),
            1 <= r.seq,
            final(self).spec_contains(actor.deep_view(), r.seq),
            !old(self).spec_contains(actor.deep_view(), r.seq),
            forall|x: u64| final(self).spec_contains(actor.deep_view(), x)
                <==> 1 <= x <= r.seq,
            forall|b: <A as DeepView>::V| b != actor.deep_view()
                ==> final(self).actor_set(b) =~= old(self).actor_set(b),
    {
        let seq = self.next(actor);
        Dot::new(actor, seq)
    }

    /// Adds a `Dot` to the clock.
    pub fn add_dot(&mut self, dot: &Dot<A>)
        requires
            old(self).inv(),
        ensures
            final(self).inv(),
            final(self).actor_set(dot.actor.deep_view())
                =~= old(self).actor_set(dot.actor.deep_view()) + E::added(dot.seq),
            forall|b: <A as DeepView>::V| b != dot.actor.deep_view()
                ==> final(self).actor_set(b) =~= old(self).actor_set(b),
    {
        self.add(&dot.actor, dot.seq);
    }

    /// Checks if a `Dot` is part of the clock.
    pub fn is_element(&self, dot: &Dot<A>) -> (r: bool)
        requires
            self.inv(),
        ensures
            r == self.spec_contains(dot.actor.deep_view(), dot.seq),
    {
        self.contains(&dot.actor, dot.seq)
    }
}

/// The total frontier count of a clock at zero: every actor counts.
pub proof fn lemma_count_all<A: Actor, E: EventSet>(s: Seq<(A, E)>)
    ensures
        count_frontier_ge(s, 0) == s.len(),
    decreases s.len(),
{
    if s.len() > 0 {
        lemma_count_all::<A, E>(s.drop_last());
    }
}

/// Creates a new vector clock from a list of sequences, with `u64` actor
/// identifiers `0, 1, ...` assigned in order.
#[verifier::loop_isolation(false)]
pub fn vclock_from_seqs(seqs: Vec<u64>) -> (r: VClock<u64>)
    ensures
        r.inv(),
        r.entries@.len() == seqs@.len(),
        forall|i: int| 0 <= i < seqs@.len()
            ==> (#[trigger] r.entries@[i]).0 == i as u64
                && r.entries@[i].1.max == seqs@[i],
{
    let mut out: Vec<(u64, MaxSet)> = Vec::new();
    let mut i: usize = 0;
    while i < seqs.len()
        invariant
            i <= seqs@.len(),
            out@.len() == i,
            forall|j: int| 0 <= j < i
                ==> (#[trigger] out@[j]).0 == j as u64
                    && out@[j].1.max == seqs@[j],
        decreases seqs@.len() - i,
    {
        out.push((i as u64, MaxSet::from(seqs[i])));
        i = i + 1;
    }
    proof {
        assert(kv_unique(out@));
    }
    Clock { entries: out }
}

} // verus!
