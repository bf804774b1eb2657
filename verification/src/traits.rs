use vstd::prelude::*;

verus! {

/// The set `{x : lo <= x <= hi}`; empty when `hi < lo`.
pub open spec fn set_range(lo: u64, hi: u64) -> Set<u64> {
    Set::new(|x: u64| lo <= x <= hi)
}

/// The set of elements of a sequence.
pub open spec fn seq_to_set(s: Seq<u64>) -> Set<u64> {
    Set::new(|x: u64| s.contains(x))
}

/// The sequence is strictly increasing.
pub open spec fn strictly_sorted(s: Seq<u64>) -> bool {
    forall|i: int, j: int| 0 <= i < j < s.len() ==> s[i] < s[j]
}

/// An actor identifier: a value that can be cloned and compared for equality,
/// with both operations pinned down against its deep view.
pub trait Actor: Sized + DeepView {
    fn actor_eq(&self, other: &Self) -> (r: bool)
        ensures
            r == (self.deep_view() == other.deep_view()),
    ;

    fn actor_clone(&self) -> (r: Self)
        ensures
            r.deep_view() == self.deep_view(),
    ;
}

impl Actor for u64 {
    fn actor_eq(&self, other: &Self) -> (r: bool) {
        *self == *other
    }

    fn actor_clone(&self) -> (r: Self) {
        *self
    }
}

impl Actor for String {
    fn actor_eq(&self, other: &Self) -> (r: bool) {
        String::eq(self, other)
    }

    fn actor_clone(&self) -> (r: Self) {
        self.clone()
    }
}

/// An abelian accumulator used as the multiplicity of a multi-set entry.
pub trait Count: Sized {
    /// The neutral element.
    spec fn count_zero() -> Self;

    /// Whether adding `other` stays within the machine bounds.
    spec fn count_can_add(self, other: Self) -> bool;

    /// The sum.
    spec fn count_add(self, other: Self) -> Self;

    fn zero() -> (r: Self)
        ensures
            r == Self::count_zero(),
    ;

    fn add(&mut self, other: Self)
        requires
            old(self).count_can_add(other),
        ensures
            *final(self) == old(self).count_add(other),
    ;
}

impl Count for u64 {
    open spec fn count_zero() -> Self {
        0
    }

    open spec fn count_can_add(self, other: Self) -> bool {
        self + other <= u64::MAX
    }

    open spec fn count_add(self, other: Self) -> Self {
        (self + other) as u64
    }

    fn zero() -> (r: Self) {
        0
    }

    fn add(&mut self, other: Self) {
        *self = *self + other;
    }
}

impl Count for (u64, u64) {
    open spec fn count_zero() -> Self {
        (0, 0)
    }

    open spec fn count_can_add(self, other: Self) -> bool {
        self.0 + other.0 <= u64::MAX && self.1 + other.1 <= u64::MAX
    }

    open spec fn count_add(self, other: Self) -> Self {
        ((self.0 + other.0) as u64, (self.1 + other.1) as u64)
    }

    fn zero() -> (r: Self) {
        (0, 0)
    }

    fn add(&mut self, other: Self) {
        *self = (self.0 + other.0, self.1 + other.1);
    }
}

/// The common interface of the event-set representations.  An event set stands
/// for a set of strictly positive 64-bit event identifiers; `view_set` is that
/// mathematical set, and every operation is specified against it.
pub trait EventSet: Sized {
    /// The mathematical set of events this value stands for.
    spec fn view_set(&self) -> Set<u64>;

    /// Structural invariant of the representation.
    spec fn inv(&self) -> bool;

    /// The events that `add_event(e)` puts into the set: `{e}` for the exact
    /// representations, `{1..e}` for `MaxSet`, and empty when `e == 0`.
    spec fn added(e: u64) -> Set<u64>;

    /// The events that `add_event_range(start, end)` puts into the set:
    /// `{start..end}` for the exact representations, `{1..end}` for `MaxSet`.
    spec fn added_range(start: u64, end: u64) -> Set<u64>;

    /// Whether the representation is exact: adding an event adds that event
    /// and nothing else.
    spec fn exact() -> bool;

    /// Whether `next_event` may be called: the set must be a contiguous
    /// prefix `{1..max}` with room to grow.
    spec fn can_next(&self) -> bool;

    /// Whether `meet` (set intersection) is available for this representation.
    spec fn meet_defined() -> bool;

    /// Whether the pair returned by `events` reads as votes, that is
    /// `[e <= max] - [e in overflow] == [e in set]` for every `e >= 1`.
    /// Holds for `MaxSet` and `BelowExSet`; fails for the above-style sets,
    /// whose overflow elements are extra positive events.
    spec fn votes_exact() -> bool;

    /// Whether the overflow list of `events()` is always empty, so the
    /// representation never casts negative votes.
    spec fn no_negatives() -> bool;

    /// The first component of `events()`.
    spec fn events_max(&self) -> u64;

    /// The elements of the second component of `events()`.
    spec fn events_over(&self) -> Set<u64>;

    /// The value that `frontier()` returns.
    spec fn frontier_spec(&self) -> u64;

    proof fn lemma_inv(&self)
        requires
            self.inv(),
        ensures
            forall|x: u64| self.view_set().contains(x) ==> 1 <= x,
            forall|x: u64| self.events_over().contains(x) ==> 1 <= x,
            Self::no_negatives() ==> self.events_over() =~= Set::<u64>::empty(),
    ;

    proof fn lemma_added(e: u64)
        ensures
            e >= 1 ==> Self::added(e).contains(e),
            forall|x: u64| Self::added(e).contains(x) ==> 1 <= x <= e,
            e == 0 ==> Self::added(e) =~= Set::<u64>::empty(),
            Self::exact() ==> Self::added(e) =~= (
                if e >= 1 { Set::<u64>::empty().insert(e) } else { Set::<u64>::empty() }
            ),
    ;

    proof fn lemma_added_range(start: u64, end: u64)
        requires
            1 <= start <= end,
        ensures
            forall|x: u64| start <= x <= end ==> Self::added_range(start, end).contains(x),
            forall|x: u64| Self::added_range(start, end).contains(x) ==> 1 <= x <= end,
            Self::exact() ==> Self::added_range(start, end) =~= set_range(start, end),
    ;

    proof fn lemma_votes(&self, e: u64)
        requires
            self.inv(),
            Self::votes_exact(),
            1 <= e,
        ensures
            (if self.view_set().contains(e) { 1int } else { 0int })
            == (if e <= self.events_max() { 1int } else { 0int })
             - (if self.events_over().contains(e) { 1int } else { 0int }),
    ;

    /// Returns the empty set.
    fn new() -> (r: Self)
        ensures
            r.inv(),
            r.view_set() == Set::<u64>::empty(),
    ;

    /// Creates a set holding `added(event)`.
    fn from_event(event: u64) -> (r: Self)
        ensures
            r.inv(),
            r.view_set() == Self::added(event),
    ;

    /// Creates a set holding `added_range(start, end)`.
    fn from_event_range(start: u64, end: u64) -> (r: Self)
        requires
            1 <= start <= end,
        ensures
            r.inv(),
            r.view_set() == Self::added_range(start, end),
    ;

    /// Creates a set by adding every listed event to an empty set: the result
    /// is the union of `added(e)` over the listed events.
    fn from_events(events: Vec<u64>) -> (r: Self)
        ensures
            r.inv(),
            forall|i: int, x: u64|
                0 <= i < events@.len() && #[trigger] Self::added(events@[i]).contains(x)
                    ==> r.view_set().contains(x),
            forall|x: u64| #[trigger] r.view_set().contains(x)
                ==> exists|i: int| 0 <= i < events@.len()
                    && #[trigger] Self::added(events@[i]).contains(x),
    ;

    /// Generates the successor of the frontier and incorporates it.
    fn next_event(&mut self) -> (r: u64)
        requires
            old(self).inv(),
            old(self).can_next(),
        ensures
            final(self).inv(),
            1 <= r,
            !old(self).view_set().contains(r),
            forall|x: u64| final(self).view_set().contains(x) <==> 1 <= x <= r,
            final(self).can_next() || r == u64::MAX,
    ;

    /// Adds an event; returns whether the event was new.
    fn add_event(&mut self, event: u64) -> (r: bool)
        requires
            old(self).inv(),
        ensures
            final(self).inv(),
            final(self).view_set() == old(self).view_set() + Self::added(event),
            r == (event >= 1 && !old(self).view_set().contains(event)),
    ;

    /// Adds a range of events; returns whether at least one event was new.
    fn add_event_range(&mut self, start: u64, end: u64) -> (r: bool)
        requires
            old(self).inv(),
            1 <= start <= end,
        ensures
            final(self).inv(),
            final(self).view_set() == old(self).view_set() + Self::added_range(start, end),
            r == exists|x: u64|
                Self::added_range(start, end).contains(x)
                && !old(self).view_set().contains(x),
    ;

    /// Copies the set: the copy denotes the same events and reports the same
    /// representation values.
    fn duplicate(&self) -> (r: Self)
        requires
            self.inv(),
        ensures
            r.inv(),
            r.view_set() == self.view_set(),
            r.frontier_spec() == self.frontier_spec(),
            r.events_max() == self.events_max(),
            r.events_over() == self.events_over(),
            r.can_next() == self.can_next(),
    ;

    /// Membership test.
    fn is_event(&self, event: u64) -> (r: bool)
        requires
            self.inv(),
        ensures
            r == self.view_set().contains(event),
    ;

    /// Returns the representation as a pair: a compact maximum and the
    /// overflow list, sorted ascending.
    fn events(&self) -> (r: (u64, Vec<u64>))
        requires
            self.inv(),
        ensures
            r.0 == self.events_max(),
            strictly_sorted(r.1@),
            seq_to_set(r.1@) == self.events_over(),
    ;

    /// The highest contiguous event: the largest `r` with `{1..r}` contained
    /// in the set (`0` for a set with no `1`).
    fn frontier(&self) -> (r: u64)
        requires
            self.inv(),
        ensures
            r == self.frontier_spec(),
            forall|x: u64| 1 <= x <= r ==> self.view_set().contains(x),
            r < u64::MAX ==> !self.view_set().contains((r + 1) as u64),
    ;

    /// In-place set union.
    fn join(&mut self, other: &Self)
        requires
            old(self).inv(),
            other.inv(),
        ensures
            final(self).inv(),
            final(self).view_set() == old(self).view_set() + other.view_set(),
    ;

    /// In-place set intersection, where the representation supports it.
    fn meet(&mut self, other: &Self)
        requires
            old(self).inv(),
            other.inv(),
            Self::meet_defined(),
        ensures
            final(self).inv(),
            final(self).view_set() == old(self).view_set().intersect(other.view_set()),
    ;

    /// All events of the set, ascending.
    fn event_iter(self) -> (r: Vec<u64>)
        requires
            self.inv(),
        ensures
            strictly_sorted(r@),
            seq_to_set(r@) == self.view_set(),
    ;

    /// All events in `self` that are not in `other`, ascending.
    fn subtracted(&self, other: &Self) -> (r: Vec<u64>)
        requires
            self.inv(),
            other.inv(),
        ensures
            strictly_sorted(r@),
            seq_to_set(r@) == self.view_set().difference(other.view_set()),
    ;
}

/// The postcondition of `from_events`: `s` is the union of `added(e)` over
/// the listed events.
pub open spec fn built_from<E: EventSet>(s: Set<u64>, events: Seq<u64>) -> bool {
    &&& forall|i: int, x: u64|
        0 <= i < events.len() && #[trigger] E::added(events[i]).contains(x)
            ==> s.contains(x)
    &&& forall|x: u64| #[trigger] s.contains(x)
            ==> exists|i: int| 0 <= i < events.len()
                && #[trigger] E::added(events[i]).contains(x)
}

/// Membership after building: the set built from `es` holds every strictly
/// positive event listed in `es`.
pub proof fn lemma_from_events_is_event<E: EventSet>(s: Set<u64>, events: Seq<u64>, e: u64)
    requires
        built_from::<E>(s, events),
        events.contains(e),
        e >= 1,
    ensures
        s.contains(e),
{
    let i = choose|i: int| 0 <= i < events.len() && #[trigger] events[i] == e;
    E::lemma_added(e);
    assert(E::added(events[i]).contains(e));
}

/// For an exact representation, the set built from `es` is exactly the set of
/// nonzero elements of `es`: together with `event_iter`'s postcondition this
/// says that iterating `from_events(es)` returns `es` sorted, deduplicated and
/// with `0` removed.
pub proof fn lemma_from_events_exact<E: EventSet>(s: Set<u64>, events: Seq<u64>)
    requires
        built_from::<E>(s, events),
        E::exact(),
    ensures
        s =~= Set::new(|x: u64| events.contains(x) && x >= 1),
{
    assert forall|x: u64| events.contains(x) && x >= 1 implies s.contains(x) by {
        lemma_from_events_is_event::<E>(s, events, x);
    }
    assert forall|x: u64| s.contains(x) implies events.contains(x) && x >= 1 by {
        let i = choose|i: int| 0 <= i < events.len()
            && #[trigger] E::added(events[i]).contains(x);
        E::lemma_added(events[i]);
    }
}

/// Join on built sets covers both event lists: after joining the sets built
/// from `es_a` and from `es_b`, every strictly positive event of either list
/// is in the union.
pub proof fn lemma_join_covers_both<E: EventSet>(
    a: Set<u64>,
    b: Set<u64>,
    es_a: Seq<u64>,
    es_b: Seq<u64>,
    e: u64,
)
    requires
        built_from::<E>(a, es_a),
        built_from::<E>(b, es_b),
        es_a.contains(e) || es_b.contains(e),
        e >= 1,
    ensures
        (a + b).contains(e),
{
    if es_a.contains(e) {
        lemma_from_events_is_event::<E>(a, es_a, e);
    } else {
        lemma_from_events_is_event::<E>(b, es_b, e);
    }
}

/// Joining an event set with itself leaves its set of events unchanged
/// (`join` is idempotent on the view).
pub proof fn lemma_join_idempotent(s: Set<u64>)
    ensures
        s + s =~= s,
{
}

/// Joining in either order yields the same set of events (`join` is
/// commutative on the view).
pub proof fn lemma_join_commutative(a: Set<u64>, b: Set<u64>)
    ensures
        a + b =~= b + a,
{
}

/// All events of `from`, excluding those of `subtract`, ascending.
pub fn subtract_iter<E: EventSet, S: EventSet>(from: E, subtract: S) -> (r: Vec<u64>)
    requires
        from.inv(),
        subtract.inv(),
    ensures
        strictly_sorted(r@),
        seq_to_set(r@) == from.view_set().difference(subtract.view_set()),
{
    broadcast use vstd::seq_lib::group_seq_properties;

    let ghost from_set = from.view_set();
    let evs = from.event_iter();
    let mut out: Vec<u64> = Vec::new();
    let mut i: usize = 0;
    while i < evs.len()
        invariant
            i <= evs.len(),
            strictly_sorted(evs@),
            seq_to_set(evs@) == from_set,
            subtract.inv(),
            strictly_sorted(out@),
            forall|x: u64| #[trigger] out@.contains(x)
                <==> evs@.take(i as int).contains(x) && !subtract.view_set().contains(x),
        decreases evs.len() - i,
    {
        let ev = evs[i];
        let ghost take0 = evs@.take(i as int);
        proof {
            assert(evs@.take(i as int + 1) =~= take0.push(ev));
        }
        if !subtract.is_event(ev) {
            proof {
                assert forall|k: int| 0 <= k < out@.len() implies out@[k] < ev by {
                    assert(out@.contains(out@[k]));
                    let j = choose|j: int|
                        0 <= j < take0.len() && #[trigger] take0[j] == out@[k];
                    assert(evs@[j] == out@[k]);
                }
            }
            let ghost out0 = out@;
            out.push(ev);
            proof {
                assert forall|x: u64| #[trigger] out@.contains(x)
                    <==> evs@.take(i as int + 1).contains(x)
                        && !subtract.view_set().contains(x) by {
                    vstd::seq_lib::lemma_seq_contains_after_push(out0, ev, x);
                    vstd::seq_lib::lemma_seq_contains_after_push(take0, ev, x);
                    assert(evs@.take(i as int + 1).contains(x) == take0.push(ev).contains(x));
                    assert(out@.contains(x) == out0.push(ev).contains(x));
                }
            }
        } else {
            proof {
                assert forall|x: u64| #[trigger] out@.contains(x)
                    <==> evs@.take(i as int + 1).contains(x)
                        && !subtract.view_set().contains(x) by {
                    vstd::seq_lib::lemma_seq_contains_after_push(take0, ev, x);
                    assert(evs@.take(i as int + 1).contains(x) == take0.push(ev).contains(x));
                }
            }
        }
        i = i + 1;
    }
    proof {
        assert(evs@.take(evs@.len() as int) =~= evs@);
        assert(seq_to_set(out@) =~= from_set.difference(subtract.view_set()));
    }
    out
}

} // verus!
