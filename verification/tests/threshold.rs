use threshold::{vclock_from_seqs, BEClock, Dot, MultiSet, Musk, TClock, TSet, VClock};

#[test]
fn threshold_union_of_vector_clocks() {
    let vclock_0 = vclock_from_seqs(vec![10, 5, 5]);
    let vclock_1 = vclock_from_seqs(vec![8, 10, 6]);
    let vclock_2 = vclock_from_seqs(vec![9, 8, 7]);

    let mut tclock = TClock::new();
    tclock.add(vclock_0);
    tclock.add(vclock_1);
    tclock.add(vclock_2);

    let vclock_t1 = vclock_from_seqs(vec![10, 10, 7]);
    let vclock_t2 = vclock_from_seqs(vec![9, 8, 6]);
    let vclock_t3 = vclock_from_seqs(vec![8, 5, 5]);

    assert_eq!(tclock.threshold_union(1), (vclock_t1, true));
    assert_eq!(tclock.threshold_union(2), (vclock_t2, false));
    assert_eq!(tclock.threshold_union(3), (vclock_t3, false));
}

#[test]
fn union_detects_equal_clocks() {
    let vclock_0 = vclock_from_seqs(vec![10, 5, 5]);
    let vclock_1 = vclock_from_seqs(vec![9, 8, 7]);

    let mut tclock = TClock::new();
    tclock.add(vclock_0.clone());
    tclock.add(vclock_1.clone());

    let expected = vclock_from_seqs(vec![10, 8, 7]);
    assert_eq!(tclock.union(), (expected, false));

    let mut tclock = TClock::new();
    tclock.add(vclock_0.clone());
    tclock.add(vclock_0.clone());
    tclock.add(vclock_0.clone());

    let expected = vclock_from_seqs(vec![10, 5, 5]);
    assert_eq!(tclock.union(), (expected, true));
}

#[test]
fn threshold_union_with_exceptions() {
    let b = String::from("B");

    // observes {5, 6}
    let mut clock_a = BEClock::new();
    clock_a.add(&b, 5);
    clock_a.add(&b, 6);

    // observes {5, 7}
    let mut clock_b = BEClock::new();
    clock_b.add(&b, 5);
    clock_b.add(&b, 7);

    let mut tclock = TClock::new();
    tclock.add(clock_a);
    tclock.add(clock_b);

    // only event 5 was observed twice
    let result = tclock.threshold_union(2);
    assert!(result.contains(&b, 5));
    assert!(!result.contains(&b, 6));
    assert!(!result.contains(&b, 7));
    assert!(!result.contains(&b, 4));

    // with threshold one, everything either clock saw is present
    let mut clock_a = BEClock::new();
    clock_a.add(&b, 5);
    clock_a.add(&b, 6);
    let mut clock_b = BEClock::new();
    clock_b.add(&b, 5);
    clock_b.add(&b, 7);
    let mut tclock = TClock::new();
    tclock.add(clock_a);
    tclock.add(clock_b);
    let result = tclock.threshold_union(1);
    assert!(result.contains(&b, 5));
    assert!(result.contains(&b, 6));
    assert!(result.contains(&b, 7));
    assert!(!result.contains(&b, 4));
}

#[test]
fn threshold_union_counts_every_actor_event_pair() {
    // three clocks over a small actor alphabet
    let mut clock_a: VClock<Musk> = VClock::new();
    clock_a.add(&Musk::A, 3);
    clock_a.add(&Musk::B, 1);
    let mut clock_b: VClock<Musk> = VClock::new();
    clock_b.add(&Musk::A, 2);
    let mut clock_c: VClock<Musk> = VClock::new();
    clock_c.add(&Musk::A, 5);
    clock_c.add(&Musk::C, 2);

    let clocks = vec![clock_a, clock_b, clock_c];
    let mut tclock = TClock::new();
    for clock in clocks.clone() {
        tclock.add(clock);
    }

    for threshold in 1..=4usize {
        let (vclock, _) = tclock.threshold_union(threshold as u64);
        for actor in [Musk::A, Musk::B, Musk::C] {
            for seq in 1..=6u64 {
                let dot = Dot::new(&actor, seq);
                let occurrences =
                    clocks.iter().filter(|clock| clock.is_element(&dot)).count();
                if vclock.is_element(&dot) {
                    assert!(occurrences >= threshold);
                } else {
                    assert!(occurrences < threshold);
                }
            }
        }
    }
}

#[test]
fn multiset_counts_and_threshold() {
    let mut mset: MultiSet<u64> = MultiSet::new();
    let empty: Vec<u64> = Vec::new();
    assert_eq!(mset.threshold(1), empty);
    assert_eq!(mset.count(17), 0);

    mset.add(vec![(17, 1), (23, 1)]);
    assert_eq!(mset.count(17), 1);
    assert_eq!(mset.count(23), 1);
    assert_eq!(mset.count(42), 0);
    assert_eq!(mset.threshold(1), vec![17, 23]);
    assert_eq!(mset.threshold(2), empty);

    mset.add(vec![(17, 1), (42, 3)]);
    assert_eq!(mset.count(17), 2);
    assert_eq!(mset.count(23), 1);
    assert_eq!(mset.count(42), 3);
    assert_eq!(mset.count(108), 0);
    assert_eq!(mset.threshold(1), vec![17, 23, 42]);
    assert_eq!(mset.threshold(2), vec![17, 42]);
    assert_eq!(mset.threshold(3), vec![42]);
    assert_eq!(mset.threshold(4), empty);

    let mset = MultiSet::from(vec![(17u64, 1u64), (23, 2)]);
    assert_eq!(mset.count(17), 1);
    assert_eq!(mset.count(23), 2);
    assert_eq!(mset.iter(), vec![(17, 1), (23, 2)]);
    assert_eq!(mset.duplicate(), mset);
}

#[test]
fn tset_counts_and_unions() {
    let mut tset: TSet<String> = TSet::new();
    assert_eq!(tset.set_count(), 0);
    assert_eq!(tset.count(&String::from("a")), 0);
    assert!(tset.threshold_union(1).is_empty());

    tset.add(vec![String::from("a"), String::from("b")]);
    assert_eq!(tset.set_count(), 1);
    assert_eq!(tset.count(&String::from("a")), 1);
    assert_eq!(tset.count(&String::from("b")), 1);
    assert_eq!(tset.count(&String::from("c")), 0);

    tset.add(vec![String::from("a"), String::from("c")]);
    assert_eq!(tset.set_count(), 2);
    assert_eq!(tset.count(&String::from("a")), 2);
    assert_eq!(tset.count(&String::from("b")), 1);
    assert_eq!(tset.count(&String::from("c")), 1);
    assert_eq!(tset.count(&String::from("d")), 0);

    let mut union = tset.union();
    union.sort();
    assert_eq!(union, vec![String::from("a"), String::from("b"), String::from("c")]);

    assert_eq!(tset.threshold_union(2), vec![String::from("a")]);
    assert_eq!(tset.threshold_union_iter(2), vec![String::from("a")]);
    assert_eq!(tset.intersection(), vec![String::from("a")]);
}

#[test]
fn musk_actors_compare_by_variant() {
    let mut clock: VClock<Musk> = VClock::new();
    assert_eq!(clock.next(&Musk::A), 1);
    assert_eq!(clock.next(&Musk::A), 2);
    assert_eq!(clock.next(&Musk::B), 1);
    assert!(clock.contains(&Musk::A, 2));
    assert!(clock.contains(&Musk::B, 1));
    assert!(!clock.contains(&Musk::C, 1));
}
