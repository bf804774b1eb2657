use threshold::{subtract_iter, AboveExSet, AboveRangeSet, BelowExSet, EventSet, MaxInt, MaxSet};

// every listed event is in the set built from the list
fn check_from_events_contains<E: EventSet>() {
    let events = vec![2u64, 9, 4, 4, 7];
    let eset = E::from_events(events.clone());
    for e in events {
        assert!(eset.is_event(e));
    }
}

#[test]
fn from_events_contains_all_variants() {
    check_from_events_contains::<MaxSet>();
    check_from_events_contains::<BelowExSet>();
    check_from_events_contains::<AboveExSet>();
    check_from_events_contains::<AboveRangeSet>();
}

// after a join, every event of either side is in the result
fn check_join_covers<E: EventSet>() {
    let es_a = vec![1u64, 5, 9];
    let es_b = vec![2u64, 5, 12];
    let mut joined = E::from_events(es_a.clone());
    joined.join(&E::from_events(es_b.clone()));
    for e in es_a.into_iter().chain(es_b.into_iter()) {
        assert!(joined.is_event(e));
    }
}

#[test]
fn join_covers_both_sides_all_variants() {
    check_join_covers::<MaxSet>();
    check_join_covers::<BelowExSet>();
    check_join_covers::<AboveExSet>();
    check_join_covers::<AboveRangeSet>();
}

// joining a set with itself leaves it unchanged
fn check_join_idempotent<E: EventSet + Clone + PartialEq + std::fmt::Debug>() {
    let eset = E::from_events(vec![1u64, 3, 8]);
    let mut joined = eset.clone();
    joined.join(&eset);
    assert_eq!(joined, eset);
}

#[test]
fn join_idempotent_all_variants() {
    check_join_idempotent::<MaxSet>();
    check_join_idempotent::<BelowExSet>();
    check_join_idempotent::<AboveExSet>();
    check_join_idempotent::<AboveRangeSet>();
}

// joining in either order yields the same set
fn check_join_commutative<E: EventSet + Clone + PartialEq + std::fmt::Debug>() {
    let a = E::from_events(vec![1u64, 3, 8]);
    let b = E::from_events(vec![2u64, 3, 11]);
    let mut ab = a.clone();
    ab.join(&b);
    let mut ba = b.clone();
    ba.join(&a);
    assert_eq!(ab, ba);
}

#[test]
fn join_commutative_all_variants() {
    check_join_commutative::<MaxSet>();
    check_join_commutative::<BelowExSet>();
    check_join_commutative::<AboveExSet>();
    check_join_commutative::<AboveRangeSet>();
}

// round trip: iterating an exact set built from a list returns the list
// sorted, deduplicated and with zero removed
fn check_round_trip<E: EventSet>() {
    let eset = E::from_events(vec![9u64, 2, 0, 4, 4, 7, 2]);
    assert_eq!(eset.event_iter(), vec![2u64, 4, 7, 9]);
}

#[test]
fn round_trip_exact_variants() {
    check_round_trip::<BelowExSet>();
    check_round_trip::<AboveExSet>();
    check_round_trip::<AboveRangeSet>();
}

// for an exact variant, adding an event reports whether it was new
fn check_add_event_new<E: EventSet>() {
    let mut eset = E::from_events(vec![1u64, 4]);
    assert!(!eset.add_event(4));
    assert!(eset.add_event(3));
    assert!(!eset.add_event(3));
    assert!(!eset.add_event(0));
}

#[test]
fn add_event_reports_new_exact_variants() {
    check_add_event_new::<BelowExSet>();
    check_add_event_new::<AboveExSet>();
    check_add_event_new::<AboveRangeSet>();
}

// the frontier is the largest contiguous prefix
fn check_frontier<E: EventSet>() {
    assert_eq!(E::new().frontier(), 0);
    assert_eq!(E::from_events(vec![1u64, 2, 3, 5, 6]).frontier(), 3);
    assert_eq!(E::from_events(vec![2u64, 3]).frontier(), 0);
}

#[test]
fn frontier_exact_variants() {
    check_frontier::<BelowExSet>();
    check_frontier::<AboveExSet>();
    check_frontier::<AboveRangeSet>();
}

#[test]
fn maxset_basics() {
    let mut maxset = MaxSet::new();
    assert_eq!(maxset.next_event(), 1);
    assert!(maxset.is_event(1));
    assert!(!maxset.is_event(2));

    let other = MaxSet::from_event(3);
    assert!(other.is_event(1));
    assert!(other.is_event(2));
    assert!(other.is_event(3));

    maxset.join(&other);
    assert!(maxset.is_event(3));

    // a max set observes every event below its maximum
    let mut maxset = MaxSet::new();
    assert!(!maxset.is_event(9));
    maxset.add_event(10);
    assert!(maxset.is_event(9));
    assert!(maxset.is_event(10));
    assert_eq!(maxset.events(), (10, vec![]));
    assert_eq!(maxset.frontier(), 10);

    // meet keeps the common prefix
    let mut maxset = MaxSet::from_event(20);
    maxset.meet(&MaxSet::from_event(10));
    assert!(maxset.is_event(10));
    assert!(!maxset.is_event(20));

    // subtraction yields what the other side has not seen
    let a = MaxSet::from_event(5);
    let b = MaxSet::from_event(3);
    assert_eq!(a.subtracted(&b), vec![4, 5]);
    assert_eq!(b.subtracted(&a), Vec::<u64>::new());

    let mut iter_set = MaxSet::new();
    iter_set.add_event(3);
    assert_eq!(iter_set.event_iter(), vec![1, 2, 3]);
}

#[test]
fn below_exset_basics() {
    let mut below_exset = BelowExSet::new();
    assert_eq!(below_exset.next_event(), 1);
    assert!(below_exset.is_event(1));
    assert!(!below_exset.is_event(2));

    let other = BelowExSet::from_event(3);
    assert!(!other.is_event(1));
    assert!(!other.is_event(2));
    assert!(other.is_event(3));

    below_exset.join(&other);
    assert!(below_exset.is_event(1));
    assert!(!below_exset.is_event(2));
    assert!(below_exset.is_event(3));

    // the events pair reports the exceptions
    let mut below_exset = BelowExSet::new();
    below_exset.add_event(1);
    assert_eq!(below_exset.events(), (1, vec![]));
    below_exset.add_event(3);
    assert_eq!(below_exset.events(), (3, vec![2]));
    below_exset.add_event(2);
    assert_eq!(below_exset.events(), (3, vec![]));
    below_exset.add_event(4);
    assert_eq!(below_exset.events(), (4, vec![]));
    below_exset.add_event(6);
    assert_eq!(below_exset.events(), (6, vec![5]));
    assert_eq!(below_exset.frontier(), 4);

    // construction from a maximum and explicit exceptions
    let below_exset = BelowExSet::from(5, vec![1, 3]);
    assert!(!below_exset.is_event(1));
    assert!(below_exset.is_event(2));
    assert!(!below_exset.is_event(3));
    assert!(below_exset.is_event(4));
    assert!(below_exset.is_event(5));
    assert!(!below_exset.is_event(6));
    assert_eq!(below_exset.event_iter(), vec![2, 4, 5]);
}

#[test]
fn below_exset_join_keeps_only_unseen_exceptions() {
    // start with events {1, 3, 4}: max = 4, exceptions {2}
    let mut eset = BelowExSet::from_events(vec![1, 3, 4]);
    assert_eq!(eset.events(), (4, vec![2]));

    // joining {5} (max = 5, exceptions {1..4}) keeps only exception 2,
    // because 1, 3 and 4 are already events on the left side
    eset.join(&BelowExSet::from_event(5));
    assert_eq!(eset.events(), (5, vec![2]));

    // joining {2, 7} fills 2 and leaves 6 as the only exception
    eset.join(&BelowExSet::from_events(vec![2, 7]));
    assert_eq!(eset.events(), (7, vec![6]));
}

#[test]
fn above_exset_basics() {
    let mut above_exset = AboveExSet::new();
    above_exset.add_event(1);
    assert_eq!(above_exset.events(), (1, vec![]));
    above_exset.add_event(3);
    assert_eq!(above_exset.events(), (1, vec![3]));
    above_exset.add_event(2);
    assert_eq!(above_exset.events(), (3, vec![]));
    above_exset.add_event(4);
    assert_eq!(above_exset.events(), (4, vec![]));
    above_exset.add_event(6);
    assert_eq!(above_exset.events(), (4, vec![6]));
    assert_eq!(above_exset.frontier(), 4);

    // construction from a contiguous maximum and extras
    let above_exset = AboveExSet::from(0, vec![2, 4, 5]);
    assert!(!above_exset.is_event(1));
    assert!(above_exset.is_event(2));
    assert!(!above_exset.is_event(3));
    assert!(above_exset.is_event(4));
    assert!(above_exset.is_event(5));
    assert!(!above_exset.is_event(6));
    assert_eq!(above_exset.event_iter(), vec![2, 4, 5]);
}

#[test]
fn above_exset_compression() {
    // adding 3, then 2, then 1 folds the extras into the contiguous prefix
    let mut eset = AboveExSet::new();
    eset.add_event(3);
    assert_eq!(eset.events(), (0, vec![3]));
    eset.add_event(2);
    assert_eq!(eset.events(), (0, vec![2, 3]));
    eset.add_event(1);
    assert_eq!(eset.events(), (3, vec![]));
}

#[test]
fn above_exset_meet() {
    // {1, 2, 3, 7} meet {1, 2, 5, 7} = {1, 2, 7}
    let mut a = AboveExSet::from_events(vec![1, 2, 3, 7]);
    let b = AboveExSet::from_events(vec![1, 2, 5, 7]);
    a.meet(&b);
    assert_eq!(a.event_iter(), vec![1, 2, 7]);
}

#[test]
fn above_range_set_basics() {
    let mut above_range_set = AboveRangeSet::new();
    assert_eq!(above_range_set.next_event(), 1);
    assert!(above_range_set.is_event(1));
    assert!(!above_range_set.is_event(2));

    above_range_set.add_event(3);
    assert_eq!(above_range_set.events(), (1, vec![3]));
    above_range_set.add_event(2);
    assert_eq!(above_range_set.events(), (3, vec![]));
    above_range_set.add_event(6);
    assert_eq!(above_range_set.events(), (3, vec![6]));
    assert_eq!(above_range_set.frontier(), 3);

    // ranges coalesce when added next to each other
    let mut eset = AboveRangeSet::new();
    eset.add_event_range(10, 12);
    eset.add_event_range(13, 20);
    assert!(!eset.is_event(9));
    assert!(eset.is_event(10));
    assert!(eset.is_event(20));
    assert!(!eset.is_event(21));
    eset.add_event_range(1, 9);
    assert_eq!(eset.frontier(), 20);
}

#[test]
fn add_event_range_all_variants() {
    let mut a = BelowExSet::new();
    assert!(a.add_event_range(2, 5));
    assert!(!a.add_event_range(2, 5));
    assert_eq!(a.event_iter(), vec![2, 3, 4, 5]);

    let mut b = AboveExSet::new();
    assert!(b.add_event_range(2, 5));
    assert!(!b.add_event_range(3, 4));
    assert_eq!(b.event_iter(), vec![2, 3, 4, 5]);

    let mut c = AboveRangeSet::new();
    assert!(c.add_event_range(2, 5));
    assert!(!c.add_event_range(3, 4));
    assert_eq!(c.event_iter(), vec![2, 3, 4, 5]);

    let mut d = MaxSet::new();
    assert!(d.add_event_range(2, 5));
    assert!(!d.add_event_range(2, 5));
    assert_eq!(d.event_iter(), vec![1, 2, 3, 4, 5]);
}

#[test]
fn subtract_iter_filters_seen_events() {
    let from = BelowExSet::from_events(vec![1, 2, 3, 5, 6]);
    let subtract = AboveExSet::from_events(vec![2, 5]);
    assert_eq!(subtract_iter(from, subtract), vec![1, 3, 6]);
}

#[test]
fn max_int_basics() {
    let mut max_int = MaxInt::new();
    assert_eq!(max_int.next_event(), 1);
    assert!(max_int.is_event(&1));
    assert!(!max_int.is_event(&2));

    max_int.add_event(3);
    assert!(max_int.is_event(&2));
    assert!(max_int.is_event(&3));
    assert_eq!(max_int.events(), (3, vec![]));

    let mut other = MaxInt::from_event(5);
    other.join(&max_int);
    assert!(other.is_event(&5));
    assert!(!other.is_event(&6));
}
