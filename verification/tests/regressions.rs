use threshold::{vclock_from_seqs, BEClock, BelowExSet, EventSet, TClock};

#[test]
fn range() {
    // add event 1 and 2 to eset
    let mut eset = BelowExSet::new();
    eset.add_event(1);
    eset.add_event(2);

    // create range
    let start = 1;
    let end = 2;

    // check it's the same
    assert_eq!(eset, BelowExSet::from_event_range(start, end));
}

#[test]
fn regression_test_beclock() {
    let b = String::from("B");

    // observes {5, 6}: max = 6, exceptions {1, 2, 3, 4}
    let mut clock_a = BEClock::new();
    clock_a.add(&b, 5);
    clock_a.add(&b, 6);

    // observes {5, 7}: max = 7, exceptions {1, 2, 3, 4, 6}
    let mut clock_b = BEClock::new();
    clock_b.add(&b, 5);
    clock_b.add(&b, 7);

    // add both clocks to the threshold clock
    let mut tclock = TClock::new();
    tclock.add(clock_a);
    tclock.add(clock_b);

    // compute the threshold union
    let clock = tclock.threshold_union(2);

    // create the expected clock
    let mut expected = BEClock::new();
    expected.add(&b, 5);

    assert_eq!(clock, expected);
}

#[test]
fn regression_test_vclock() {
    // create tclock
    let mut tclock = TClock::new();

    // create clocks over five actors
    let bottom = vclock_from_seqs(vec![0, 0, 0, 0, 0]);
    let c1 = vclock_from_seqs(vec![1, 0, 0, 0, 0]);
    let c2 = vclock_from_seqs(vec![0, 1, 0, 0, 0]);
    let both = vclock_from_seqs(vec![1, 1, 0, 0, 0]);

    // add first clock
    tclock.add(c1.clone());

    let (t1, equal_to_union) = tclock.threshold_union(1);
    assert_eq!(t1, c1);
    assert_eq!(equal_to_union, true);

    let (t2, equal_to_union) = tclock.threshold_union(2);
    assert_eq!(t2, bottom);
    assert_eq!(equal_to_union, false);

    // add second clock
    tclock.add(c2.clone());

    let (t1, equal_to_union) = tclock.threshold_union(1);
    assert_eq!(t1, both);
    assert_eq!(equal_to_union, true);

    let (t2, equal_to_union) = tclock.threshold_union(2);
    assert_eq!(t2, bottom);
    assert_eq!(equal_to_union, false);

    // add third clock (equal to the first)
    tclock.add(c1.clone());

    let (t1, equal_to_union) = tclock.threshold_union(1);
    assert_eq!(t1, both);
    assert_eq!(equal_to_union, true);

    let (t2, equal_to_union) = tclock.threshold_union(2);
    assert_eq!(t2, c1);
    assert_eq!(equal_to_union, false);

    // add fourth clock (equal to the second)
    tclock.add(c2.clone());

    let (t1, equal_to_union) = tclock.threshold_union(1);
    assert_eq!(t1, both);
    assert_eq!(equal_to_union, true);

    let (t2, equal_to_union) = tclock.threshold_union(2);
    assert_eq!(t2, both);
    assert_eq!(equal_to_union, true);
}
