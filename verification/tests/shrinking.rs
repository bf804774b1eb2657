use quickcheck::{Arbitrary, Gen};
use threshold::{Clock, Dot, EventSet, MaxSet, MultiSet, VClock};

// Local generator wrappers: random values of the library's types, shrunk
// through the lists they were built from.

#[derive(Clone, Debug)]
struct MultiSetGen(MultiSet<u64>);

fn multiset_from_pairs(pairs: Vec<(u64, u64)>) -> MultiSet<u64> {
    let mut mset = MultiSet::new();
    for (key, count) in pairs {
        mset.add_elem(key, count % 1024);
    }
    mset
}

impl Arbitrary for MultiSetGen {
    fn arbitrary(g: &mut Gen) -> MultiSetGen {
        // draw a nonempty list, so that shrinking always has work to do
        let mut pairs: Vec<(u64, u64)> = Arbitrary::arbitrary(g);
        if pairs.is_empty() {
            pairs.push(Arbitrary::arbitrary(g));
        }
        MultiSetGen(multiset_from_pairs(pairs))
    }

    fn shrink(&self) -> Box<dyn Iterator<Item = MultiSetGen>> {
        let pairs: Vec<(u64, u64)> = self.0.iter();
        Box::new(pairs.shrink().map(|v| MultiSetGen(multiset_from_pairs(v))))
    }
}

#[derive(Clone, Debug)]
struct DotGen(Dot<u64>);

impl Arbitrary for DotGen {
    fn arbitrary(g: &mut Gen) -> DotGen {
        let actor: u64 = Arbitrary::arbitrary(g);
        let seq: u64 = Arbitrary::arbitrary(g);
        let seq = seq.saturating_add(1); // never zero
        DotGen(Dot::new(&actor, seq))
    }

    fn shrink(&self) -> Box<dyn Iterator<Item = DotGen>> {
        Box::new(std::iter::empty::<DotGen>())
    }
}

#[derive(Clone, Debug)]
struct VClockGen(VClock<u64>);

fn vclock_from_pairs(pairs: Vec<(u64, u64)>) -> VClock<u64> {
    let mut dedup: Vec<(u64, MaxSet)> = Vec::new();
    for (actor, max) in pairs {
        if !dedup.iter().any(|(a, _)| *a == actor) {
            dedup.push((actor, MaxSet::from(max)));
        }
    }
    Clock::from(dedup)
}

impl Arbitrary for VClockGen {
    fn arbitrary(g: &mut Gen) -> VClockGen {
        // draw a nonempty list, so that shrinking always has work to do
        let mut pairs: Vec<(u64, u64)> = Arbitrary::arbitrary(g);
        if pairs.is_empty() {
            pairs.push(Arbitrary::arbitrary(g));
        }
        VClockGen(vclock_from_pairs(pairs))
    }

    fn shrink(&self) -> Box<dyn Iterator<Item = VClockGen>> {
        let pairs: Vec<(u64, u64)> =
            self.0.entries.iter().map(|(a, s)| (*a, s.max)).collect();
        Box::new(pairs.shrink().map(|v| VClockGen(vclock_from_pairs(v))))
    }
}

fn shrink_count<T: Arbitrary>() -> usize {
    let mut g = Gen::new(100);
    let instance: T = Arbitrary::arbitrary(&mut g);
    instance.shrink().count()
}

#[test]
fn multiset_shrink() {
    let count = shrink_count::<MultiSetGen>();
    assert!(count > 0);
}

#[test]
fn dot_shrink() {
    let count = shrink_count::<DotGen>();
    assert!(count == 0);
}

#[test]
fn vclock_shrink() {
    let count = shrink_count::<VClockGen>();
    assert!(count > 0);
}
