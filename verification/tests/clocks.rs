use threshold::{
    vclock_from_seqs, AEClock, AboveExSet, BEClock, Clock, Dot, EventSet, MaxSet, VClock,
};

#[test]
fn next_makes_the_event_contained() {
    let actor_a = String::from("A");
    let mut clock: VClock<String> = VClock::new();
    assert_eq!(clock.next(&actor_a), 1);
    assert!(clock.contains(&actor_a, 1));
    assert_eq!(clock.next(&actor_a), 2);
    assert!(clock.contains(&actor_a, 2));
    assert_eq!(clock.next(&actor_a), 3);
    assert!(clock.contains(&actor_a, 3));
    assert!(!clock.contains(&actor_a, 4));
}

#[test]
fn add_and_contains() {
    let actor_a = String::from("A");
    let actor_b = String::from("B");

    let mut clock: VClock<String> = VClock::new();
    assert!(!clock.contains(&actor_a, 1));
    clock.add(&actor_a, 1);
    assert!(clock.contains(&actor_a, 1));

    assert!(!clock.contains(&actor_b, 1));
    clock.add(&actor_b, 1);
    assert!(clock.contains(&actor_b, 1));

    // a vector clock observes everything below the added event
    clock.add(&actor_a, 3);
    assert!(clock.contains(&actor_a, 2));
    assert!(clock.contains(&actor_a, 3));
}

#[test]
fn add_range_makes_the_range_contained() {
    let actor_a = String::from("A");
    let mut clock: AEClock<String> = AEClock::new();
    clock.add_range(&actor_a, 10, 20);
    assert!(clock.contains(&actor_a, 10));
    assert!(clock.contains(&actor_a, 11));
    assert!(clock.contains(&actor_a, 20));
    assert!(!clock.contains(&actor_a, 21));
    assert!(!clock.contains(&actor_a, 9));
}

#[test]
fn join_carries_every_event_over() {
    let actor_a = String::from("A");
    let mut clock_a: VClock<String> = VClock::new();
    let mut clock_b: VClock<String> = VClock::new();

    clock_a.next(&actor_a);
    let event = clock_a.next(&actor_a);

    clock_b.join(&clock_a);
    assert!(clock_b.contains(&actor_a, event));

    // joining exception clocks carries scattered events too
    let b = String::from("B");
    let mut be_a: BEClock<String> = BEClock::new();
    be_a.add(&b, 5);
    be_a.add(&b, 7);
    let mut be_b: BEClock<String> = BEClock::new();
    be_b.add(&b, 2);
    be_b.join(&be_a);
    assert!(be_b.contains(&b, 2));
    assert!(be_b.contains(&b, 5));
    assert!(be_b.contains(&b, 7));
    assert!(!be_b.contains(&b, 3));
    assert!(!be_b.contains(&b, 6));
}

#[test]
fn meet_keeps_the_common_events_and_actors() {
    let actor_a = String::from("A");
    let mut clock_a: VClock<String> = VClock::new();
    let mut clock_b: VClock<String> = VClock::new();

    let event = clock_a.next(&actor_a);

    // the actor is absent on the left side, so it is dropped
    clock_b.meet(&clock_a);
    assert!(!clock_b.contains(&actor_a, event));

    clock_b.next(&actor_a);
    clock_b.next(&actor_a);
    clock_b.meet(&clock_a);
    assert!(clock_b.contains(&actor_a, event));
    assert!(!clock_b.contains(&actor_a, 2));

    // an actor missing from the right side disappears
    let actor_c = String::from("C");
    let mut wide: VClock<String> = VClock::new();
    wide.next(&actor_a);
    wide.next(&actor_c);
    let mut narrow: VClock<String> = VClock::new();
    narrow.next(&actor_a);
    wide.meet(&narrow);
    assert!(wide.contains(&actor_a, 1));
    assert!(!wide.contains(&actor_c, 1));
    assert_eq!(wide.len(), 1);
}

#[test]
fn frontier_of_exception_clock() {
    let a = (String::from("A"), AboveExSet::from_events(vec![1, 2, 4]));
    let b = (String::from("B"), AboveExSet::from_events(vec![1, 2, 3, 5, 6]));
    let clock = Clock::from(vec![a, b]);

    let expected = VClock::from(vec![
        (String::from("A"), MaxSet::from(2)),
        (String::from("B"), MaxSet::from(3)),
    ]);
    assert_eq!(clock.frontier(), expected);
}

#[test]
fn frontier_threshold_scenarios() {
    // per-actor frontiers are 2 and 3
    let a = (String::from("A"), AboveExSet::from_events(vec![1, 2, 4]));
    let b = (String::from("B"), AboveExSet::from_events(vec![1, 2, 3, 5, 6]));
    let clock = Clock::from(vec![a, b]);
    assert_eq!(clock.frontier_threshold(1), Some(3));
    assert_eq!(clock.frontier_threshold(2), Some(2));
    assert_eq!(clock.frontier_threshold(3), None);

    let aset = AboveExSet::from_events(vec![1, 2, 3, 5]);
    let bset = AboveExSet::from_events(vec![1, 2, 3, 5]);
    let clock = Clock::from(vec![(String::from("A"), aset), (String::from("B"), bset)]);
    assert_eq!(clock.frontier_threshold(1), Some(3));
    assert_eq!(clock.frontier_threshold(2), Some(3));

    let clock = vclock_from_seqs(vec![2, 1, 3]);
    assert_eq!(clock.frontier_threshold(1), Some(3));
    assert_eq!(clock.frontier_threshold(2), Some(2));
    assert_eq!(clock.frontier_threshold(3), Some(1));

    let clock = vclock_from_seqs(vec![4, 4, 5, 3, 2]);
    assert_eq!(clock.frontier_threshold(1), Some(5));
    assert_eq!(clock.frontier_threshold(2), Some(4));
    assert_eq!(clock.frontier_threshold(3), Some(4));
    assert_eq!(clock.frontier_threshold(4), Some(3));
    assert_eq!(clock.frontier_threshold(5), Some(2));
    assert_eq!(clock.frontier_threshold(6), None);
}

#[test]
fn subtracted_is_the_per_actor_difference() {
    let a = String::from("A");
    let b = String::from("B");
    let left = Clock::from(vec![
        (a.clone(), AboveExSet::from_events(vec![1, 2, 3, 5])),
        (b.clone(), AboveExSet::from_events(vec![1, 4])),
    ]);
    let right = Clock::from(vec![(a.clone(), AboveExSet::from_events(vec![2, 3]))]);

    let deltas = left.subtracted(&right);
    assert_eq!(deltas.len(), 2);
    assert_eq!(deltas[0].0, a);
    assert_eq!(deltas[0].1, vec![1, 5]);
    assert_eq!(deltas[1].0, b);
    assert_eq!(deltas[1].1, vec![1, 4]);
}

#[test]
fn dots_witness_observed_events() {
    let actor_a = String::from("A");
    let mut clock: BEClock<String> = BEClock::new();

    let dot_a1 = clock.next_dot(&actor_a);
    assert_eq!(dot_a1, Dot::new(&actor_a, 1));
    assert!(clock.is_element(&dot_a1));

    let dot_a5 = Dot::new(&actor_a, 5);
    assert!(!clock.is_element(&dot_a5));
    clock.add_dot(&dot_a5);
    assert!(clock.is_element(&dot_a5));
    assert!(!clock.is_element(&Dot::new(&actor_a, 4)));
}

#[test]
fn with_and_from_and_get() {
    let actors = vec![String::from("A"), String::from("B")];
    let vclock: VClock<String> = VClock::with(actors);
    assert_eq!(vclock.len(), 2);
    assert!(!vclock.is_empty());
    assert!(!vclock.contains(&String::from("A"), 1));

    let a = (String::from("A"), MaxSet::from_event(10));
    let b = (String::from("B"), MaxSet::from_event(20));
    let vclock = Clock::from_vec(vec![a, b]);
    assert!(vclock.contains(&String::from("A"), 9));
    assert!(!vclock.contains(&String::from("A"), 11));
    assert_eq!(vclock.get(&String::from("B")), Some(&MaxSet::from(20)));
    assert_eq!(vclock.get(&String::from("C")), None);

    let empty: VClock<String> = VClock::new();
    assert!(empty.is_empty());
}

#[test]
fn vclock_from_seqs_assigns_actors_in_order() {
    let clock = vclock_from_seqs(vec![10, 20]);
    assert!(clock.contains(&0, 10));
    assert!(!clock.contains(&0, 11));
    assert!(clock.contains(&1, 20));
    assert!(!clock.contains(&1, 21));
}
