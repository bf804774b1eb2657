use vstd::prelude::*;

use core::marker::PhantomData;

use crate::below_exset::BelowExSet;
use crate::clock::{key_in_prefix, BEClock, Clock, VClock};
use crate::kvlist::{kv_find, kv_map, kv_unique, lemma_kv_map_domain, lemma_kv_map_index,
    lemma_kv_map_push, lemma_kv_map_update};
use crate::maxset::MaxSet;
use crate::multiset::MultiSet;
use crate::traits::{seq_to_set, Actor, Count, EventSet};

verus! {

/// One positive / negative vote pair.
pub type EventCount = (u64, u64);

/// The sum of the positive votes stored at indices `i` and above.
pub open spec fn pos_from(s: Seq<(u64, EventCount)>, i: int) -> int
    decreases s.len(),
{
    if s.len() == 0 {
        0
    } else if i < s.len() {
        pos_from(s.drop_last(), i) + s.last().1.0
    } else {
        0
    }
}

/// The total positive votes of a multi-set.
pub open spec fn pos_total(s: Seq<(u64, EventCount)>) -> int {
    pos_from(s, 0)
}

/// The sum of the positive votes stored at keys at or above `e`.
pub open spec fn pos_ge(s: Seq<(u64, EventCount)>, e: u64) -> int
    decreases s.len(),
{
    if s.len() == 0 {
        0
    } else {
        pos_ge(s.drop_last(), e) + if s.last().0 >= e { s.last().1.0 as int } else { 0int }
    }
}

/// The sum of the negative votes stored at the key `e`.
pub open spec fn neg_at(s: Seq<(u64, EventCount)>, e: u64) -> int
    decreases s.len(),
{
    if s.len() == 0 {
        0
    } else {
        neg_at(s.drop_last(), e) + if s.last().0 == e { s.last().1.1 as int } else { 0int }
    }
}

/// The net number of contributors that have observed event `e`: every
/// positive vote at `e` or above counts for it, and every negative vote at
/// `e` counts against it.
pub open spec fn votes(s: Seq<(u64, EventCount)>, e: u64) -> int {
    pos_ge(s, e) - neg_at(s, e)
}

/// Votes are nonnegative sums of nonnegative counts.
pub proof fn lemma_counts_nonneg(s: Seq<(u64, EventCount)>, e: u64)
    ensures
        pos_ge(s, e) >= 0,
        neg_at(s, e) >= 0,
        pos_ge(s, e) <= pos_total(s),
        0 <= pos_total(s),
    decreases s.len(),
{
    if s.len() > 0 {
        lemma_counts_nonneg(s.drop_last(), e);
        assert(pos_total(s) == pos_from(s, 0));
        assert(pos_total(s.drop_last()) == pos_from(s.drop_last(), 0));
    }
}

/// `pos_ge` does not grow as the bound grows.
pub proof fn lemma_pos_ge_antitone(s: Seq<(u64, EventCount)>, e1: u64, e2: u64)
    requires
        e1 <= e2,
    ensures
        pos_ge(s, e2) <= pos_ge(s, e1),
    decreases s.len(),
{
    if s.len() > 0 {
        lemma_pos_ge_antitone(s.drop_last(), e1, e2);
    }
}

/// With sorted keys, the votes at or above the key at index `i` are exactly
/// the suffix sum from `i`.
pub proof fn lemma_pos_ge_eq_from(s: Seq<(u64, EventCount)>, e: u64, i: int)
    requires
        0 <= i <= s.len(),
        forall|j: int| i <= j < s.len() ==> (#[trigger] s[j]).0 >= e,
        forall|j: int| 0 <= j < i ==> (#[trigger] s[j]).0 < e,
    ensures
        pos_ge(s, e) == pos_from(s, i),
    decreases s.len(),
{
    if s.len() == 0 {
    } else {
        assert(forall|j: int| 0 <= j < s.len() - 1 ==> s[j] == s.drop_last()[j]);
        if i < s.len() {
            lemma_pos_ge_eq_from(s.drop_last(), e, i);
            assert(s.last().0 >= e);
        } else {
            lemma_pos_ge_eq_from(s.drop_last(), e, i - 1);
            assert(s.last().0 < e);
        }
    }
}

/// With sorted keys there is a split point: every key below it is under `e`,
/// every key at or above it is at least `e`.
pub proof fn lemma_split_point(s: Seq<(u64, EventCount)>, e: u64) -> (i: int)
    requires
        forall|p: int, q: int| 0 <= p < q < s.len()
            ==> (#[trigger] s[p]).0 < (#[trigger] s[q]).0,
    ensures
        0 <= i <= s.len(),
        forall|j: int| i <= j < s.len() ==> (#[trigger] s[j]).0 >= e,
        forall|j: int| 0 <= j < i ==> (#[trigger] s[j]).0 < e,
    decreases s.len(),
{
    if s.len() == 0 {
        0
    } else if s.last().0 < e {
        assert forall|j: int| 0 <= j < s.len() implies (#[trigger] s[j]).0 < e by {
            if j < s.len() - 1 {
                assert(s[j].0 < s[s.len() - 1].0);
            }
        }
        s.len() as int
    } else {
        assert(forall|j: int| 0 <= j < s.len() - 1 ==> s[j] == s.drop_last()[j]);
        assert(forall|p: int, q: int| 0 <= p < q < s.drop_last().len()
            ==> (#[trigger] s.drop_last()[p]).0 < (#[trigger] s.drop_last()[q]).0);
        let i = lemma_split_point(s.drop_last(), e);
        assert forall|j: int| i <= j < s.len() implies (#[trigger] s[j]).0 >= e by {
            if j < s.len() - 1 {
                assert(s.drop_last()[j].0 >= e);
            }
        }
        assert forall|j: int| 0 <= j < i implies (#[trigger] s[j]).0 < e by {
            assert(s.drop_last()[j].0 < e);
        }
        i
    }
}

/// Updating the counts at one key shifts the vote sums by the added counts.
pub proof fn lemma_votes_update(s: Seq<(u64, EventCount)>, i: int, add: EventCount, e: u64)
    requires
        0 <= i < s.len(),
        s[i].1.0 + add.0 <= u64::MAX,
        s[i].1.1 + add.1 <= u64::MAX,
    ensures
        pos_ge(s.update(i, (s[i].0, (((s[i].1.0 + add.0) as u64), ((s[i].1.1 + add.1) as u64)))), e)
            == pos_ge(s, e) + if s[i].0 >= e { add.0 as int } else { 0 },
        neg_at(s.update(i, (s[i].0, (((s[i].1.0 + add.0) as u64), ((s[i].1.1 + add.1) as u64)))), e)
            == neg_at(s, e) + if s[i].0 == e { add.1 as int } else { 0 },
        pos_total(s.update(i, (s[i].0, (((s[i].1.0 + add.0) as u64), ((s[i].1.1 + add.1) as u64)))))
            == pos_total(s) + add.0,
    decreases s.len(),
{
    let t = s.update(i, (s[i].0, (((s[i].1.0 + add.0) as u64), ((s[i].1.1 + add.1) as u64))));
    if i == s.len() - 1 {
        assert(t.drop_last() =~= s.drop_last());
        lemma_sums_unfold(s, e);
        lemma_sums_unfold(t, e);
    } else {
        assert(t.drop_last() =~= s.drop_last().update(i, (s[i].0,
            (((s[i].1.0 + add.0) as u64), ((s[i].1.1 + add.1) as u64)))));
        assert(s.drop_last()[i] == s[i]);
        lemma_votes_update(s.drop_last(), i, add, e);
        assert(t.last() == s.last());
        lemma_sums_unfold(s, e);
        lemma_sums_unfold(t, e);
    }
}

/// Helper: unfolding the three sums one step at the last element.
pub proof fn lemma_sums_unfold(t: Seq<(u64, EventCount)>, e: u64)
    requires
        t.len() >= 1,
    ensures
        pos_ge(t, e) == pos_ge(t.drop_last(), e)
            + if t.last().0 >= e { t.last().1.0 as int } else { 0 },
        neg_at(t, e) == neg_at(t.drop_last(), e)
            + if t.last().0 == e { t.last().1.1 as int } else { 0 },
        pos_total(t) == pos_total(t.drop_last()) + t.last().1.0,
{
    assert(pos_total(t) == pos_from(t, 0));
    assert(pos_total(t.drop_last()) == pos_from(t.drop_last(), 0));
}

/// Inserting a fresh key shifts the vote sums by the inserted counts.
pub proof fn lemma_votes_insert(s: Seq<(u64, EventCount)>, i: int, p: (u64, EventCount), e: u64)
    requires
        0 <= i <= s.len(),
    ensures
        pos_ge(s.insert(i, p), e)
            == pos_ge(s, e) + if p.0 >= e { p.1.0 as int } else { 0 },
        neg_at(s.insert(i, p), e)
            == neg_at(s, e) + if p.0 == e { p.1.1 as int } else { 0 },
        pos_total(s.insert(i, p)) == pos_total(s) + p.1.0,
    decreases s.len(),
{
    let t = s.insert(i, p);
    if i == s.len() {
        assert(t =~= s.push(p));
        assert(t.drop_last() =~= s);
        lemma_sums_unfold(t, e);
    } else {
        assert(t.drop_last() =~= s.drop_last().insert(i, p));
        assert(t.last() == s.last());
        lemma_votes_insert(s.drop_last(), i, p, e);
        lemma_sums_unfold(s, e);
        lemma_sums_unfold(t, e);
    }
}

/// At distinct keys, the negative sum at a key is that key's stored count,
/// and each key's positive count is bounded by the total.
pub proof fn lemma_key_sums(s: Seq<(u64, EventCount)>, k: u64)
    requires
        kv_unique(s),
    ensures
        kv_map(s).dom().contains(k)
            ==> neg_at(s, k) == kv_map(s)[k].1 && kv_map(s)[k].0 <= pos_total(s),
        !kv_map(s).dom().contains(k) ==> neg_at(s, k) == 0,
    decreases s.len(),
{
    if s.len() == 0 {
    } else {
        assert(forall|j: int| 0 <= j < s.len() - 1 ==> s[j] == s.drop_last()[j]);
        assert(kv_unique(s.drop_last())) by {
            assert forall|p: int, q: int| 0 <= p < q < s.drop_last().len()
                implies (#[trigger] s.drop_last()[p]).0.deep_view()
                    != (#[trigger] s.drop_last()[q]).0.deep_view() by {
                assert(s[p] == s.drop_last()[p]);
                assert(s[q] == s.drop_last()[q]);
            }
        }
        lemma_key_sums(s.drop_last(), k);
        lemma_sums_unfold(s, k);
        lemma_counts_nonneg(s.drop_last(), k);
        let lastk = s.last().0;
        if k == lastk {
            assert(!kv_map(s.drop_last()).dom().contains(k)) by {
                lemma_kv_map_domain::<u64, EventCount>(s.drop_last());
                if kv_map(s.drop_last()).dom().contains(k) {
                    let t = choose|t: int| 0 <= t < s.drop_last().len()
                        && (#[trigger] s.drop_last()[t]).0.deep_view() == k.deep_view();
                    assert(s[t].0 == k);
                    assert(s[t].0.deep_view() != s[s.len() - 1].0.deep_view());
                }
            }
        } else {
            if kv_map(s.drop_last()).dom().contains(k) {
                lemma_counts_nonneg(s, k);
            }
        }
    }
}

/// Adds one clock entry's event pair stream to a multi-set: one positive vote
/// at the compact maximum, one negative vote at each overflow element.
#[verifier::loop_isolation(false)]
fn ingest(m: &mut MultiSet<EventCount>, mx: u64, over: &Vec<u64>)
    requires
        old(m).inv(),
        crate::traits::strictly_sorted(over@),
        pos_total(old(m).entries@) + 1 <= u64::MAX,
        forall|e: u64| #[trigger] neg_at(old(m).entries@, e) + 1 <= u64::MAX,
        forall|e: u64| 0 <= #[trigger] neg_at(old(m).entries@, e),
    ensures
        final(m).inv(),
        final(m).entries@.len() >= 1,
        pos_total(final(m).entries@) == pos_total(old(m).entries@) + 1,
        forall|e: u64| #[trigger] pos_ge(final(m).entries@, e)
            == pos_ge(old(m).entries@, e) + (if mx >= e { 1int } else { 0int }),
        forall|e: u64| #[trigger] neg_at(final(m).entries@, e)
            == neg_at(old(m).entries@, e) + (if over@.contains(e) { 1int } else { 0int }),
{
    let ghost s0 = m.entries@;
    proof {
        m.lemma_unique();
        lemma_key_sums(s0, mx);
        lemma_counts_nonneg(s0, mx);
    }
    m.add_elem(mx, (1, 0));
    proof {
        assert forall|i: int| 0 <= i < s0.len() && (#[trigger] s0[i]).0 == mx
            implies s0[i].1.0 + 1 <= u64::MAX && s0[i].1.1 + 0 <= u64::MAX by {
            lemma_kv_map_index::<u64, EventCount>(s0, i);
        }
        lemma_ingest_step(s0, m.entries@, mx, (1, 0));
    }
    let ghost s1 = m.entries@;
    let mut i: usize = 0;
    while i < over.len()
        invariant
            i <= over@.len(),
            m.inv(),
            m.entries@.len() >= 1,
            pos_total(m.entries@) == pos_total(s0) + 1,
            forall|e: u64| #[trigger] pos_ge(m.entries@, e)
                == pos_ge(s0, e) + (if mx >= e { 1int } else { 0int }),
            forall|e: u64| #[trigger] neg_at(m.entries@, e)
                == neg_at(s0, e) + (if over@.take(i as int).contains(e) { 1int } else { 0int }),
        decreases over@.len() - i,
    {
        let x = over[i];
        let ghost sc = m.entries@;
        proof {
            assert(over@.take(i as int + 1) =~= over@.take(i as int).push(x));
            assert forall|e: u64| over@.take(i as int + 1).contains(e)
                == (over@.take(i as int).contains(e) || e == x) by {
                vstd::seq_lib::lemma_seq_contains_after_push(over@.take(i as int), x, e);
            }
            assert(!over@.take(i as int).contains(x)) by {
                if over@.take(i as int).contains(x) {
                    let t = choose|t: int| 0 <= t < i && #[trigger] over@.take(i as int)[t] == x;
                    assert(over@[t] == x);
                }
            }
            m.lemma_unique();
            lemma_key_sums(sc, x);
            lemma_counts_nonneg(sc, x);
        }
        m.add_elem(x, (0, 1));
        proof {
            assert forall|i: int| 0 <= i < sc.len() && (#[trigger] sc[i]).0 == x
                implies sc[i].1.0 + 0 <= u64::MAX && sc[i].1.1 + 1 <= u64::MAX by {
                lemma_kv_map_index::<u64, EventCount>(sc, i);
            }
            lemma_ingest_step(sc, m.entries@, x, (0, 1));
        }
        i = i + 1;
    }
    proof {
        assert(over@.take(over@.len() as int) =~= over@);
    }
}

/// The structural outcome of `add_elem` yields the expected sum deltas.
proof fn lemma_ingest_step(
    s0: Seq<(u64, EventCount)>,
    s1: Seq<(u64, EventCount)>,
    key: u64,
    by: EventCount,
)
    requires
        forall|i: int| 0 <= i < s0.len() && (#[trigger] s0[i]).0 == key
            ==> s0[i].1.0 + by.0 <= u64::MAX && s0[i].1.1 + by.1 <= u64::MAX,
        (exists|i: int| 0 <= i < s0.len()
            && (#[trigger] s0[i]).0 == key
            && s1 == s0.update(i, (key, s0[i].1.count_add(by))))
        || (exists|i: int| 0 <= i <= s0.len()
            && s1 == #[trigger] s0.insert(
                i, (key, <(u64, u64) as Count>::count_zero().count_add(by)))),
    ensures
        s1.len() >= 1,
        pos_total(s1) == pos_total(s0) + by.0,
        forall|e: u64| #[trigger] pos_ge(s1, e)
            == pos_ge(s0, e) + (if key >= e { by.0 as int } else { 0int }),
        forall|e: u64| #[trigger] neg_at(s1, e)
            == neg_at(s0, e) + (if key == e { by.1 as int } else { 0int }),
{
    if exists|i: int| 0 <= i < s0.len()
        && (#[trigger] s0[i]).0 == key
        && s1 == s0.update(i, (key, s0[i].1.count_add(by))) {
        let i = choose|i: int| 0 <= i < s0.len()
            && (#[trigger] s0[i]).0 == key
            && s1 == s0.update(i, (key, s0[i].1.count_add(by)));
        assert(s0[i].1.count_add(by)
            == (((s0[i].1.0 + by.0) as u64), ((s0[i].1.1 + by.1) as u64)));
        assert forall|e: u64| #[trigger] pos_ge(s1, e)
            == pos_ge(s0, e) + (if key >= e { by.0 as int } else { 0int }) by {
            lemma_votes_update(s0, i, by, e);
        }
        assert forall|e: u64| #[trigger] neg_at(s1, e)
            == neg_at(s0, e) + (if key == e { by.1 as int } else { 0int }) by {
            lemma_votes_update(s0, i, by, e);
        }
        lemma_votes_update(s0, i, by, 0);
    } else {
        let i = choose|i: int| 0 <= i <= s0.len()
            && s1 == #[trigger] s0.insert(
                i, (key, <(u64, u64) as Count>::count_zero().count_add(by)));
        assert(<(u64, u64) as Count>::count_zero().count_add(by) == by);
        assert forall|e: u64| #[trigger] pos_ge(s1, e)
            == pos_ge(s0, e) + (if key >= e { by.0 as int } else { 0int }) by {
            lemma_votes_insert(s0, i, (key, by), e);
        }
        assert forall|e: u64| #[trigger] neg_at(s1, e)
            == neg_at(s0, e) + (if key == e { by.1 as int } else { 0int }) by {
            lemma_votes_insert(s0, i, (key, by), e);
        }
        lemma_votes_insert(s0, i, (key, by), 0);
    }
}

/// An aggregator that ingests many clocks and answers which events have been
/// observed by at least a given number of them: per actor, a multi-set maps
/// each reported event number to its positive and negative vote counts.
#[derive(PartialEq, Eq, Debug)]
pub struct TClock<A: Actor, E: EventSet> {
    /// A vote multi-set per actor.
    pub occurrences: Vec<(A, MultiSet<EventCount>)>,
    /// The number of clocks ingested so far; bounds every stored count.
    pub adds: u64,
    /// The event-set representation this aggregator consumes.
    pub backing: PhantomData<E>,
}

impl<A: Actor, E: EventSet> TClock<A, E> {
    /// The vote entries recorded for an actor; empty when absent.
    pub open spec fn actor_entries(&self, a: <A as DeepView>::V) -> Seq<(u64, EventCount)> {
        if kv_map(self.occurrences@).dom().contains(a) {
            kv_map(self.occurrences@)[a].entries@
        } else {
            Seq::empty()
        }
    }

    /// The net number of contributors that have observed event `e` at `a`.
    pub open spec fn votes_at(&self, a: <A as DeepView>::V, e: u64) -> int {
        votes(self.actor_entries(a), e)
    }

    /// Structural well-formedness, independent of the ingest count.
    pub open spec fn base_inv(&self) -> bool {
        &&& kv_unique(self.occurrences@)
        &&& forall|i: int| 0 <= i < self.occurrences@.len()
            ==> (#[trigger] self.occurrences@[i]).1.inv()
        &&& forall|i: int| 0 <= i < self.occurrences@.len()
            ==> (#[trigger] self.occurrences@[i]).1.entries@.len() >= 1
        &&& forall|i: int| 0 <= i < self.occurrences@.len()
            ==> neg_at((#[trigger] self.occurrences@[i]).1.entries@, 0) == 0
    }

    /// Every stored count is bounded by the number of ingested clocks.
    pub open spec fn inv(&self) -> bool {
        &&& self.base_inv()
        &&& forall|i: int| 0 <= i < self.occurrences@.len()
            ==> pos_total((#[trigger] self.occurrences@[i]).1.entries@) <= self.adds
        &&& forall|i: int, e: u64| 0 <= i < self.occurrences@.len()
            ==> #[trigger] neg_at(self.occurrences@[i].1.entries@, e) <= self.adds
        &&& E::no_negatives() ==> forall|i: int, e: u64| 0 <= i < self.occurrences@.len()
            ==> #[trigger] neg_at(self.occurrences@[i].1.entries@, e) == 0
    }

    /// Returns a new, empty `TClock` instance.
    pub fn new() -> (r: Self)
        ensures
            r.inv(),
            r.adds == 0,
            r.occurrences@.len() == 0,
    {
        TClock { occurrences: Vec::new(), adds: 0, backing: PhantomData }
    }

    /// Returns a new, empty `TClock`; the capacity is an allocation hint.
    pub fn with_capacitiy(capacity: usize) -> (r: Self)
        ensures
            r.inv(),
            r.adds == 0,
            r.occurrences@.len() == 0,
    {
        TClock {
            occurrences: Vec::with_capacity(capacity),
            adds: 0,
            backing: PhantomData,
        }
    }

    /// Adds one clock entry's votes to the actor's multi-set.
    #[verifier::loop_isolation(false)]
    fn add_entry(&mut self, actor: &A, eset: &E)
        requires
            old(self).base_inv(),
            eset.inv(),
            pos_total(old(self).actor_entries(actor.deep_view())) + 1 <= u64::MAX,
            forall|e: u64|
                #[trigger] neg_at(old(self).actor_entries(actor.deep_view()), e) + 1
                    <= u64::MAX,
        ensures
            final(self).base_inv(),
            final(self).adds == old(self).adds,
            pos_total(final(self).actor_entries(actor.deep_view()))
                == pos_total(old(self).actor_entries(actor.deep_view())) + 1,
            forall|e: u64| #[trigger] pos_ge(final(self).actor_entries(actor.deep_view()), e)
                == pos_ge(old(self).actor_entries(actor.deep_view()), e)
                    + (if eset.events_max() >= e { 1int } else { 0int }),
            forall|e: u64| #[trigger] neg_at(final(self).actor_entries(actor.deep_view()), e)
                == neg_at(old(self).actor_entries(actor.deep_view()), e)
                    + (if eset.events_over().contains(e) { 1int } else { 0int }),
            forall|b: <A as DeepView>::V| b != actor.deep_view()
                ==> final(self).actor_entries(b) == old(self).actor_entries(b),
            forall|b: <A as DeepView>::V|
                #[trigger] kv_map(final(self).occurrences@).dom().contains(b)
                    == (kv_map(old(self).occurrences@).dom().contains(b)
                        || b == actor.deep_view()),
    {
        let ghost a = actor.deep_view();
        let ghost s0 = self.occurrences@;
        let (mx, over) = eset.events();
        proof {
            eset.lemma_inv();
            assert forall|e: u64| over@.contains(e) == eset.events_over().contains(e) by {
                assert(seq_to_set(over@).contains(e)
                    == eset.events_over().contains(e));
            }
        }
        match kv_find(&self.occurrences, actor) {
            Some(i) => {
                proof {
                    lemma_kv_map_index::<A, MultiSet<EventCount>>(s0, i as int);
                    assert(old(self).actor_entries(a) == s0[i as int].1.entries@);
                }
                let mut m = self.occurrences[i].1.duplicate();
                proof {
                    assert forall|e: u64| 0 <= #[trigger] neg_at(m.entries@, e) by {
                        lemma_counts_nonneg(m.entries@, e);
                    }
                }
                ingest(&mut m, mx, &over);
                let key = self.occurrences[i].0.actor_clone();
                self.occurrences.set(i, (key, m));
                proof {
                    assert(self.occurrences@ =~= s0.update(i as int, (key, m)));
                    lemma_kv_map_update::<A, MultiSet<EventCount>>(s0, i as int, (key, m));
                    assert forall|t: int| 0 <= t < self.occurrences@.len()
                        implies (#[trigger] self.occurrences@[t]).1.inv()
                            && self.occurrences@[t].1.entries@.len() >= 1
                            && neg_at(self.occurrences@[t].1.entries@, 0) == 0 by {
                        if t != i {
                            assert(self.occurrences@[t] == s0[t]);
                        } else {
                            assert(neg_at(m.entries@, 0)
                                == neg_at(s0[i as int].1.entries@, 0)
                                    + (if eset.events_over().contains(0) { 1int } else { 0int }));
                        }
                    }
                    lemma_kv_map_domain::<A, MultiSet<EventCount>>(self.occurrences@);
                    lemma_kv_map_domain::<A, MultiSet<EventCount>>(s0);
                    assert(self.actor_entries(a) == m.entries@);
                }
            }
            None => {
                proof {
                    lemma_kv_map_domain::<A, MultiSet<EventCount>>(s0);
                    if kv_map(s0).dom().contains(a) {
                        let t = choose|t: int| 0 <= t < s0.len()
                            && (#[trigger] s0[t]).0.deep_view() == a;
                    }
                    assert(old(self).actor_entries(a) == Seq::<(u64, EventCount)>::empty());
                    assert(pos_total(Seq::<(u64, EventCount)>::empty()) == 0);
                }
                let mut m = MultiSet::<EventCount>::new();
                proof {
                    assert forall|e: u64| 0 <= #[trigger] neg_at(m.entries@, e) by {
                        lemma_counts_nonneg(m.entries@, e);
                    }
                    assert forall|e: u64| #[trigger] neg_at(m.entries@, e) + 1 <= u64::MAX by {
                        lemma_counts_nonneg(m.entries@, e);
                        assert(neg_at(old(self).actor_entries(a), e) + 1 <= u64::MAX);
                        assert(neg_at(m.entries@, e) == 0);
                    }
                }
                ingest(&mut m, mx, &over);
                let key = actor.actor_clone();
                self.occurrences.push((key, m));
                proof {
                    lemma_kv_map_push::<A, MultiSet<EventCount>>(s0, key, m);
                    assert(self.occurrences@.drop_last() =~= s0);
                    assert forall|t: int| 0 <= t < self.occurrences@.len()
                        implies (#[trigger] self.occurrences@[t]).1.inv()
                            && self.occurrences@[t].1.entries@.len() >= 1
                            && neg_at(self.occurrences@[t].1.entries@, 0) == 0 by {
                        if t < s0.len() {
                            assert(self.occurrences@[t] == s0[t]);
                        } else {
                            assert(neg_at(m.entries@, 0)
                                == neg_at(Seq::<(u64, EventCount)>::empty(), 0)
                                    + (if eset.events_over().contains(0) { 1int } else { 0int }));
                        }
                    }
                    lemma_kv_map_domain::<A, MultiSet<EventCount>>(self.occurrences@);
                    assert(self.actor_entries(a) == m.entries@);
                }
            }
        }
    }

    /// Ingests a clock: each actor's entry contributes one positive vote at
    /// its compact maximum and one negative vote per overflow element, so the
    /// net votes for an event grow by one exactly where the clock holds it.
    #[verifier::loop_isolation(false)]
    pub fn add(&mut self, clock: Clock<A, E>)
        requires
            old(self).inv(),
            clock.inv(),
            old(self).adds < u64::MAX,
        ensures
            final(self).inv(),
            final(self).adds == old(self).adds + 1,
            E::votes_exact() ==> forall|a: <A as DeepView>::V, e: u64| 1 <= e
                ==> #[trigger] final(self).votes_at(a, e)
                    == old(self).votes_at(a, e)
                        + (if clock.spec_contains(a, e) { 1int } else { 0int }),
    {
        let ghost t0 = *old(self);
        let ghost c = clock;
        self.adds = self.adds + 1;
        let mut j: usize = 0;
        while j < clock.entries.len()
            invariant
                j <= c.entries@.len(),
                clock == c,
                clock.inv(),
                self.adds == t0.adds + 1,
                self.base_inv(),
                forall|a: <A as DeepView>::V| key_in_prefix::<A, E>(c.entries@, j as int, a)
                    ==> pos_total(#[trigger] self.actor_entries(a))
                            == pos_total(t0.actor_entries(a)) + 1
                        && (forall|e: u64| #[trigger] pos_ge(self.actor_entries(a), e)
                            == pos_ge(t0.actor_entries(a), e)
                                + (if c.view_map()[a].events_max() >= e { 1int } else { 0int }))
                        && (forall|e: u64| #[trigger] neg_at(self.actor_entries(a), e)
                            == neg_at(t0.actor_entries(a), e)
                                + (if c.view_map()[a].events_over().contains(e) { 1int } else { 0int })),
                forall|a: <A as DeepView>::V| !key_in_prefix::<A, E>(c.entries@, j as int, a)
                    ==> #[trigger] self.actor_entries(a) == t0.actor_entries(a),
            decreases c.entries@.len() - j,
        {
            let ghost akey = c.entries@[j as int].0.deep_view();
            let ghost self0 = *self;
            proof {
                lemma_kv_map_index::<A, E>(c.entries@, j as int);
                assert(!key_in_prefix::<A, E>(c.entries@, j as int, akey)) by {
                    if key_in_prefix::<A, E>(c.entries@, j as int, akey) {
                        let t = choose|t: int| 0 <= t < j
                            && (#[trigger] c.entries@[t]).0.deep_view() == akey;
                    }
                }
                assert(self0.actor_entries(akey) == t0.actor_entries(akey));
                assert(pos_total(t0.actor_entries(akey)) <= t0.adds) by {
                    lemma_kv_map_domain::<A, MultiSet<EventCount>>(t0.occurrences@);
                    if kv_map(t0.occurrences@).dom().contains(akey) {
                        let t = choose|t: int| 0 <= t < t0.occurrences@.len()
                            && (#[trigger] t0.occurrences@[t]).0.deep_view() == akey;
                        lemma_kv_map_index::<A, MultiSet<EventCount>>(t0.occurrences@, t);
                    } else {
                        assert(pos_total(Seq::<(u64, EventCount)>::empty()) == 0);
                    }
                }
                assert forall|e: u64|
                    #[trigger] neg_at(t0.actor_entries(akey), e) + 1 <= u64::MAX by {
                    lemma_kv_map_domain::<A, MultiSet<EventCount>>(t0.occurrences@);
                    if kv_map(t0.occurrences@).dom().contains(akey) {
                        let t = choose|t: int| 0 <= t < t0.occurrences@.len()
                            && (#[trigger] t0.occurrences@[t]).0.deep_view() == akey;
                        lemma_kv_map_index::<A, MultiSet<EventCount>>(t0.occurrences@, t);
                    }
                }
            }
            self.add_entry(&clock.entries[j].0, &clock.entries[j].1);
            proof {
                assert forall|a: <A as DeepView>::V|
                    key_in_prefix::<A, E>(c.entries@, j as int + 1, a)
                    implies pos_total(#[trigger] self.actor_entries(a))
                            == pos_total(t0.actor_entries(a)) + 1
                        && (forall|e: u64| #[trigger] pos_ge(self.actor_entries(a), e)
                            == pos_ge(t0.actor_entries(a), e)
                                + (if c.view_map()[a].events_max() >= e { 1int } else { 0int }))
                        && (forall|e: u64| #[trigger] neg_at(self.actor_entries(a), e)
                            == neg_at(t0.actor_entries(a), e)
                                + (if c.view_map()[a].events_over().contains(e) { 1int } else { 0int })) by {
                    let t = choose|t: int| 0 <= t < j + 1
                        && (#[trigger] c.entries@[t]).0.deep_view() == a;
                    if t < j {
                        assert(key_in_prefix::<A, E>(c.entries@, j as int, a));
                        assert(a != akey);
                        assert(self.actor_entries(a) == self0.actor_entries(a));
                    } else {
                        assert(a == akey);
                        assert(c.view_map()[a] == c.entries@[j as int].1);
                    }
                }
                assert forall|a: <A as DeepView>::V|
                    !key_in_prefix::<A, E>(c.entries@, j as int + 1, a)
                    implies #[trigger] self.actor_entries(a) == t0.actor_entries(a) by {
                    assert(a != akey) by {
                        if a == akey {
                            assert(c.entries@[j as int].0.deep_view() == a);
                            assert(key_in_prefix::<A, E>(c.entries@, j as int + 1, a));
                        }
                    }
                    assert(!key_in_prefix::<A, E>(c.entries@, j as int, a)) by {
                        if key_in_prefix::<A, E>(c.entries@, j as int, a) {
                            let t = choose|t: int| 0 <= t < j
                                && (#[trigger] c.entries@[t]).0.deep_view() == a;
                            assert(key_in_prefix::<A, E>(c.entries@, j as int + 1, a));
                        }
                    }
                    assert(self.actor_entries(a) == self0.actor_entries(a));
                }
            }
            j = j + 1;
        }
        proof {
            // the count bounds of the invariant hold again at the new total
            assert forall|i: int| 0 <= i < self.occurrences@.len()
                implies pos_total((#[trigger] self.occurrences@[i]).1.entries@)
                    <= self.adds
                    && (forall|e: u64|
                        #[trigger] neg_at(self.occurrences@[i].1.entries@, e) <= self.adds)
                    && (E::no_negatives() ==> forall|e: u64|
                        #[trigger] neg_at(self.occurrences@[i].1.entries@, e) == 0) by {
                let a = self.occurrences@[i].0.deep_view();
                lemma_kv_map_index::<A, MultiSet<EventCount>>(self.occurrences@, i);
                assert(self.actor_entries(a) == self.occurrences@[i].1.entries@) by {
                    lemma_kv_map_domain::<A, MultiSet<EventCount>>(self.occurrences@);
                }
                lemma_add_bounds_helper::<A, E>(&t0, self, &c, a);
                if E::no_negatives() {
                    assert forall|e: u64|
                        #[trigger] neg_at(self.occurrences@[i].1.entries@, e) == 0 by {
                        if key_in_prefix::<A, E>(c.entries@, c.entries@.len() as int, a) {
                            let t = choose|t: int| 0 <= t < c.entries@.len()
                                && (#[trigger] c.entries@[t]).0.deep_view() == a;
                            lemma_kv_map_index::<A, E>(c.entries@, t);
                            lemma_kv_map_domain::<A, E>(c.entries@);
                            c.view_map()[a].lemma_inv();
                            assert(!c.view_map()[a].events_over().contains(e));
                            assert(neg_at(t0.actor_entries(a), e) == 0) by {
                                lemma_kv_map_domain::<A, MultiSet<EventCount>>(t0.occurrences@);
                                if kv_map(t0.occurrences@).dom().contains(a) {
                                    let u = choose|u: int| 0 <= u < t0.occurrences@.len()
                                        && (#[trigger] t0.occurrences@[u]).0.deep_view() == a;
                                    lemma_kv_map_index::<A, MultiSet<EventCount>>(
                                        t0.occurrences@, u);
                                }
                            }
                        } else {
                            assert(self.actor_entries(a) == t0.actor_entries(a));
                            assert(neg_at(t0.actor_entries(a), e) == 0) by {
                                lemma_kv_map_domain::<A, MultiSet<EventCount>>(t0.occurrences@);
                                if kv_map(t0.occurrences@).dom().contains(a) {
                                    let u = choose|u: int| 0 <= u < t0.occurrences@.len()
                                        && (#[trigger] t0.occurrences@[u]).0.deep_view() == a;
                                    lemma_kv_map_index::<A, MultiSet<EventCount>>(
                                        t0.occurrences@, u);
                                }
                            }
                        }
                    }
                }
            }
            // the headline: net votes grow exactly where the clock holds the
            // event
            if E::votes_exact() {
                assert forall|a: <A as DeepView>::V, e: u64| 1 <= e
                    implies #[trigger] self.votes_at(a, e)
                        == t0.votes_at(a, e)
                            + (if c.spec_contains(a, e) { 1int } else { 0int }) by {
                    if key_in_prefix::<A, E>(c.entries@, c.entries@.len() as int, a) {
                        let t = choose|t: int| 0 <= t < c.entries@.len()
                            && (#[trigger] c.entries@[t]).0.deep_view() == a;
                        lemma_kv_map_index::<A, E>(c.entries@, t);
                        lemma_kv_map_domain::<A, E>(c.entries@);
                        c.view_map()[a].lemma_votes(e);
                    } else {
                        assert(self.actor_entries(a) == t0.actor_entries(a));
                        assert(!c.view_map().dom().contains(a)) by {
                            lemma_kv_map_domain::<A, E>(c.entries@);
                            if c.view_map().dom().contains(a) {
                                let t = choose|t: int| 0 <= t < c.entries@.len()
                                    && (#[trigger] c.entries@[t]).0.deep_view() == a;
                                assert(key_in_prefix::<A, E>(
                                    c.entries@, c.entries@.len() as int, a));
                            }
                        }
                        assert(!c.spec_contains(a, e));
                    }
                }
            }
        }
    }
}

/// After an ingest, both count bounds hold at the incremented total.
proof fn lemma_add_bounds_helper<A: Actor, E: EventSet>(
    t0: &TClock<A, E>,
    t1: &TClock<A, E>,
    c: &Clock<A, E>,
    a: <A as DeepView>::V,
)
    requires
        t0.inv(),
        c.inv(),
        t1.adds == t0.adds + 1,
        key_in_prefix::<A, E>(c.entries@, c.entries@.len() as int, a)
            ==> pos_total(t1.actor_entries(a)) == pos_total(t0.actor_entries(a)) + 1
                && (forall|e: u64| #[trigger] neg_at(t1.actor_entries(a), e)
                    <= neg_at(t0.actor_entries(a), e) + 1),
        !key_in_prefix::<A, E>(c.entries@, c.entries@.len() as int, a)
            ==> t1.actor_entries(a) == t0.actor_entries(a),
    ensures
        pos_total(t1.actor_entries(a)) <= t1.adds,
        forall|e: u64| #[trigger] neg_at(t1.actor_entries(a), e) <= t1.adds,
{
    assert(pos_total(t0.actor_entries(a)) <= t0.adds) by {
        lemma_kv_map_domain::<A, MultiSet<EventCount>>(t0.occurrences@);
        if kv_map(t0.occurrences@).dom().contains(a) {
            let t = choose|t: int| 0 <= t < t0.occurrences@.len()
                && (#[trigger] t0.occurrences@[t]).0.deep_view() == a;
            lemma_kv_map_index::<A, MultiSet<EventCount>>(t0.occurrences@, t);
        } else {
            assert(pos_total(Seq::<(u64, EventCount)>::empty()) == 0);
        }
    }
    assert forall|e: u64| #[trigger] neg_at(t0.actor_entries(a), e) <= t0.adds by {
        lemma_kv_map_domain::<A, MultiSet<EventCount>>(t0.occurrences@);
        if kv_map(t0.occurrences@).dom().contains(a) {
            let t = choose|t: int| 0 <= t < t0.occurrences@.len()
                && (#[trigger] t0.occurrences@[t]).0.deep_view() == a;
            lemma_kv_map_index::<A, MultiSet<EventCount>>(t0.occurrences@, t);
        }
    }
}

/// The suffix sums are bounded by the total and step by one entry's count.
pub proof fn lemma_pos_from_bounds(s: Seq<(u64, EventCount)>, i: int)
    requires
        0 <= i <= s.len(),
    ensures
        0 <= pos_from(s, i) <= pos_total(s),
        i < s.len() ==> pos_from(s, i) == s[i].1.0 + pos_from(s, i + 1),
    decreases s.len(),
{
    if s.len() == 0 {
    } else {
        assert(forall|j: int| 0 <= j < s.len() - 1 ==> s[j] == s.drop_last()[j]);
        if i < s.len() {
            lemma_pos_from_bounds(s.drop_last(), i);
            if i + 1 <= s.len() - 1 {
                lemma_pos_from_bounds(s.drop_last(), i + 1);
            }
        } else {
            lemma_pos_from_bounds(s.drop_last(), i - 1);
        }
        assert(pos_total(s) == pos_from(s, 0));
        if 0 < s.len() {
            lemma_pos_from_bounds_total(s);
        }
    }
}

/// The total dominates every suffix sum.
proof fn lemma_pos_from_bounds_total(s: Seq<(u64, EventCount)>)
    ensures
        forall|i: int| 0 <= i <= s.len() ==> 0 <= #[trigger] pos_from(s, i) <= pos_total(s),
    decreases s.len(),
{
    if s.len() > 0 {
        lemma_pos_from_bounds_total(s.drop_last());
        assert forall|i: int| 0 <= i <= s.len()
            implies 0 <= #[trigger] pos_from(s, i) <= pos_total(s) by {
            if i < s.len() {
                assert(pos_from(s, i) == pos_from(s.drop_last(), i) + s.last().1.0);
            }
            assert(pos_total(s) == pos_from(s, 0));
            assert(pos_total(s.drop_last()) == pos_from(s.drop_last(), 0));
        }
    } else {
        assert(pos_total(s) == pos_from(s, 0));
    }
}

/// Picks, for one actor's vote multi-set, the highest event whose cumulative
/// positive votes reach the threshold (`0` when none does).
#[verifier::loop_isolation(false)]
fn actor_threshold(m: &MultiSet<EventCount>, threshold: u64) -> (r: u64)
    requires
        m.inv(),
        m.entries@.len() >= 1,
        pos_total(m.entries@) <= u64::MAX,
        threshold >= 1,
    ensures
        r == 0 || pos_ge(m.entries@, r) >= threshold,
        forall|k: u64| k > r ==> pos_ge(m.entries@, k) < threshold,
        (r == m.entries@.last().0) == (m.entries@.last().0 == 0
            || pos_ge(m.entries@, m.entries@.last().0) >= threshold),
{
    let ghost se = m.entries@;
    proof {
        lemma_pos_from_bounds_total(se);
    }
    let mut idx: usize = m.entries.len();
    let mut total: u64 = 0;
    let mut res: u64 = 0;
    let mut found = false;
    while idx > 0 && !found
        invariant
            idx <= se.len(),
            !found ==> res == 0,
            !found ==> total == pos_from(se, idx as int),
            !found ==> forall|t: int| idx <= t < se.len()
                ==> #[trigger] pos_from(se, t) < threshold,
            found ==> idx < se.len()
                && res == se[idx as int].0
                && pos_from(se, idx as int) >= threshold
                && forall|t: int| idx < t < se.len()
                    ==> #[trigger] pos_from(se, t) < threshold,
        decreases idx + (if found { 0int } else { 1int }),
    {
        idx = idx - 1;
        proof {
            lemma_pos_from_bounds(se, idx as int);
        }
        let p = m.entries[idx].1.0;
        total = total + p;
        if total >= threshold {
            res = m.entries[idx].0;
            found = true;
        }
    }
    proof {
        let top = se.last().0;
        if found {
            assert forall|j: int| idx <= j < se.len()
                implies (#[trigger] se[j]).0 >= res by {
                if j > idx {
                    assert(se[idx as int].0 < se[j].0);
                }
            }
            lemma_pos_ge_eq_from(se, res, idx as int);
            assert(pos_ge(se, res) >= threshold);
            assert forall|k: u64| k > res
                implies pos_ge(se, k) < threshold by {
                let sp = lemma_split_point(se, k);
                assert(idx < sp) by {
                    if sp <= idx {
                        assert(se[idx as int].0 >= k);
                    }
                }
                lemma_pos_ge_eq_from(se, k, sp);
                if sp < se.len() {
                    assert(pos_from(se, sp) < threshold);
                }
            }
            if idx + 1 == se.len() {
                assert(res == top);
                assert(pos_ge(se, top) >= threshold);
            } else {
                assert(res < top) by {
                    assert(se[idx as int].0 < se[se.len() - 1].0);
                }
                assert(pos_ge(se, top) < threshold);
                assert(top > res);
                assert(top != 0) by {
                    assert(se[idx as int].0 < top);
                }
            }
        } else {
            assert(idx == 0);
            assert forall|k: u64| k > 0u64
                implies pos_ge(se, k) < threshold by {
                let sp = lemma_split_point(se, k);
                lemma_pos_ge_eq_from(se, k, sp);
                if sp < se.len() {
                    assert(pos_from(se, sp) < threshold);
                } else {
                    assert(pos_from(se, sp) == 0);
                }
            }
            if top != 0 {
                assert(pos_ge(se, top) < threshold);
            }
        }
    }
    res
}

impl<A: Actor> TClock<A, MaxSet> {
    /// Computes the threshold-union of all ingested vector clocks: the result
    /// holds event `e` for actor `a` exactly when at least `threshold` of the
    /// ingested clocks held it.  The boolean reports whether the result
    /// equals the plain union, that is, whether no information was discarded.
    #[verifier::loop_isolation(false)]
    pub fn threshold_union(&self, threshold: u64) -> (r: (VClock<A>, bool))
        requires
            self.inv(),
            threshold >= 1,
        ensures
            r.0.inv(),
            forall|a: <A as DeepView>::V| #[trigger] r.0.view_map().dom().contains(a)
                == kv_map(self.occurrences@).dom().contains(a),
            forall|a: <A as DeepView>::V, e: u64| 1 <= e
                ==> (#[trigger] r.0.spec_contains(a, e)
                    <==> self.votes_at(a, e) >= threshold),
            r.1 == (forall|i: int| 0 <= i < self.occurrences@.len()
                ==> ((#[trigger] self.occurrences@[i]).1.entries@.last().0 == 0
                    || pos_ge(self.occurrences@[i].1.entries@,
                        self.occurrences@[i].1.entries@.last().0) >= threshold)),
    {
        let ghost occ = self.occurrences@;
        let mut out: Vec<(A, MaxSet)> = Vec::new();
        let mut equal = true;
        let mut i: usize = 0;
        while i < self.occurrences.len()
            invariant
                i <= occ.len(),
                out@.len() == i,
                forall|j: int| 0 <= j < i
                    ==> (#[trigger] out@[j]).0.deep_view() == occ[j].0.deep_view()
                        && (out@[j].1.max == 0
                            || pos_ge(occ[j].1.entries@, out@[j].1.max) >= threshold)
                        && (forall|k: u64| k > out@[j].1.max
                            ==> pos_ge(occ[j].1.entries@, k) < threshold),
                equal == (forall|j: int| 0 <= j < i
                    ==> ((#[trigger] occ[j]).1.entries@.last().0 == 0
                        || pos_ge(occ[j].1.entries@, occ[j].1.entries@.last().0)
                            >= threshold)),
            decreases occ.len() - i,
        {
            let v = actor_threshold(&self.occurrences[i].1, threshold);
            let top = self.occurrences[i].1.entries[self.occurrences[i].1.entries.len() - 1].0;
            let key = self.occurrences[i].0.actor_clone();
            out.push((key, MaxSet::from(v)));
            equal = equal && v == top;
            i = i + 1;
        }
        proof {
            assert(kv_unique(out@));
            lemma_kv_map_domain::<A, MaxSet>(out@);
            lemma_kv_map_domain::<A, MultiSet<EventCount>>(occ);
            let rc = Clock::<A, MaxSet> { entries: out };
            assert forall|a: <A as DeepView>::V| #[trigger] kv_map(out@).dom().contains(a)
                == kv_map(occ).dom().contains(a) by {
                if kv_map(out@).dom().contains(a) {
                    let j = choose|j: int| 0 <= j < out@.len()
                        && (#[trigger] out@[j]).0.deep_view() == a;
                    assert(occ[j].0.deep_view() == a);
                }
                if kv_map(occ).dom().contains(a) {
                    let j = choose|j: int| 0 <= j < occ.len()
                        && (#[trigger] occ[j]).0.deep_view() == a;
                    assert(out@[j].0.deep_view() == a);
                }
            }
        }
        let r0 = Clock { entries: out };
        proof {
            assert forall|a: <A as DeepView>::V, e: u64| 1 <= e
                implies (#[trigger] r0.spec_contains(a, e)
                    <==> self.votes_at(a, e) >= threshold) by {
                if kv_map(occ).dom().contains(a) {
                    let j = choose|j: int| 0 <= j < occ.len()
                        && (#[trigger] occ[j]).0.deep_view() == a;
                    lemma_kv_map_index::<A, MultiSet<EventCount>>(occ, j);
                    lemma_kv_map_index::<A, MaxSet>(r0.entries@, j);
                    assert(self.actor_entries(a) == occ[j].1.entries@);
                    let v = r0.entries@[j].1.max;
                    assert(neg_at(occ[j].1.entries@, e) == 0);
                    if e <= v {
                        lemma_pos_ge_antitone(occ[j].1.entries@, e, v);
                    }
                } else {
                    assert(!r0.view_map().dom().contains(a));
                    assert(!r0.spec_contains(a, e));
                    assert(self.actor_entries(a) == Seq::<(u64, EventCount)>::empty());
                    assert(self.votes_at(a, e) == 0);
                }
            }
        }
        (r0, equal)
    }

    /// Computes the plain union of all ingested vector clocks, together with
    /// a flag telling whether every ingested clock reported the same entries
    /// (each actor's multi-set then holds a single key).
    #[verifier::loop_isolation(false)]
    pub fn union(&self) -> (r: (VClock<A>, bool))
        requires
            self.inv(),
        ensures
            r.0.inv(),
            forall|a: <A as DeepView>::V| #[trigger] r.0.view_map().dom().contains(a)
                == kv_map(self.occurrences@).dom().contains(a),
            forall|a: <A as DeepView>::V, e: u64| 1 <= e
                ==> (#[trigger] r.0.spec_contains(a, e) <==> self.votes_at(a, e) >= 1),
            r.1 == (forall|i: int| 0 <= i < self.occurrences@.len()
                ==> (#[trigger] self.occurrences@[i]).1.entries@.len() == 1),
    {
        let (vc, _) = self.threshold_union(1);
        let mut all_equal = true;
        let mut i: usize = 0;
        while i < self.occurrences.len()
            invariant
                i <= self.occurrences@.len(),
                all_equal == (forall|j: int| 0 <= j < i
                    ==> (#[trigger] self.occurrences@[j]).1.entries@.len() == 1),
            decreases self.occurrences@.len() - i,
        {
            all_equal = all_equal && self.occurrences[i].1.entries.len() == 1;
            i = i + 1;
        }
        (vc, all_equal)
    }
}

/// Sorted distinct keys make the association list unique.
proof fn lemma_sorted_unique(s: Seq<(u64, EventCount)>)
    requires
        forall|p: int, q: int| 0 <= p < q < s.len()
            ==> (#[trigger] s[p]).0 < (#[trigger] s[q]).0,
    ensures
        kv_unique(s),
{
    assert forall|p: int, q: int| 0 <= p < q < s.len()
        implies (#[trigger] s[p]).0.deep_view() != (#[trigger] s[q]).0.deep_view() by {
        assert(s[p].0 < s[q].0);
    }
}

/// At a stored key, the negative sum is that entry's count and the positive
/// cumulative sum is the suffix sum at its index.
proof fn lemma_key_facts(s: Seq<(u64, EventCount)>, u: int)
    requires
        forall|p: int, q: int| 0 <= p < q < s.len()
            ==> (#[trigger] s[p]).0 < (#[trigger] s[q]).0,
        0 <= u < s.len(),
    ensures
        neg_at(s, s[u].0) == s[u].1.1,
        pos_ge(s, s[u].0) == pos_from(s, u),
{
    lemma_sorted_unique(s);
    lemma_key_sums(s, s[u].0);
    lemma_kv_map_index::<u64, EventCount>(s, u);
    assert forall|j: int| u <= j < s.len() implies (#[trigger] s[j]).0 >= s[u].0 by {
        if j > u {
            assert(s[u].0 < s[j].0);
        }
    }
    assert forall|j: int| 0 <= j < u implies (#[trigger] s[j]).0 < s[u].0 by {}
    lemma_pos_ge_eq_from(s, s[u].0, u);
}

/// At a value that is no stored key, the negative sum is zero.
proof fn lemma_nonkey_facts(s: Seq<(u64, EventCount)>, x: u64)
    requires
        forall|p: int, q: int| 0 <= p < q < s.len()
            ==> (#[trigger] s[p]).0 < (#[trigger] s[q]).0,
        forall|u: int| 0 <= u < s.len() ==> (#[trigger] s[u]).0 != x,
    ensures
        neg_at(s, x) == 0,
{
    lemma_sorted_unique(s);
    lemma_key_sums(s, x);
    lemma_kv_map_domain::<u64, EventCount>(s);
    if kv_map(s).dom().contains(x) {
        let u = choose|u: int| 0 <= u < s.len()
            && (#[trigger] s[u]).0.deep_view() == x.deep_view();
        assert(false);
    }
}

/// Picks, for one actor's vote multi-set, the highest event whose net votes
/// reach the threshold, together with the exceptions below it: the resulting
/// exact set holds event `e` exactly when the net votes for `e` reach the
/// threshold.
#[verifier::loop_isolation(false)]
fn actor_threshold_be(m: &MultiSet<EventCount>, threshold: u64) -> (r: BelowExSet)
    requires
        m.inv(),
        m.entries@.len() >= 1,
        pos_total(m.entries@) <= u64::MAX,
        neg_at(m.entries@, 0) == 0,
        threshold >= 1,
    ensures
        r.inv(),
        forall|e: u64| 1 <= e ==> (#[trigger] r.view_set().contains(e)
            <==> votes(m.entries@, e) >= threshold),
{
    let ghost se = m.entries@;
    proof {
        lemma_pos_from_bounds_total(se);
    }

    // find the highest key whose cumulative positive votes reach the
    // threshold
    let mut idx: usize = m.entries.len();
    let mut total: u64 = 0;
    let mut found = false;
    while idx > 0 && !found
        invariant
            idx <= se.len(),
            !found ==> total == pos_from(se, idx as int),
            !found ==> forall|t: int| idx <= t < se.len()
                ==> #[trigger] pos_from(se, t) < threshold,
            found ==> idx < se.len()
                && total == pos_from(se, idx as int)
                && total >= threshold
                && forall|t: int| idx < t < se.len()
                    ==> #[trigger] pos_from(se, t) < threshold,
        decreases idx + (if found { 0int } else { 1int }),
    {
        idx = idx - 1;
        proof {
            lemma_pos_from_bounds(se, idx as int);
        }
        let p = m.entries[idx].1.0;
        total = total + p;
        if total >= threshold {
            found = true;
        }
    }

    if !found {
        // no event reaches the threshold at all
        let r = BelowExSet::from(0, Vec::new());
        proof {
            assert forall|e: u64| 1 <= e
                implies !(votes(se, e) >= threshold) by {
                lemma_counts_nonneg(se, e);
                assert(pos_from(se, 0) < threshold);
            }
            assert forall|e: u64| 1 <= e implies !r.view_set().contains(e) by {}
        }
        return r;
    }

    let seq = m.entries[idx].0;
    let nn = m.entries[idx].1.1;
    proof {
        lemma_key_facts(se, idx as int);
        assert(neg_at(se, seq) == nn);
        assert(pos_ge(se, seq) == total);
        // above `seq` the cumulative positives already fail
        assert forall|k: u64| k > seq implies #[trigger] votes(se, k) < threshold by {
            let sp = lemma_split_point(se, k);
            assert(idx < sp) by {
                if sp <= idx {
                    assert(se[idx as int].0 >= k);
                }
            }
            lemma_pos_ge_eq_from(se, k, sp);
            if sp < se.len() {
                assert(pos_from(se, sp) < threshold);
            }
            lemma_counts_nonneg(se, k);
        }
    }

    let mut i2 = idx;
    let mut total2 = total;
    let mut h: u64 = 0;
    if (total as u128) >= (nn as u128) + (threshold as u128) {
        h = seq;
        proof {
            assert(votes(se, h) >= threshold);
        }
    } else {
        proof {
            assert(seq >= 1) by {
                if seq == 0 {
                    assert(nn == neg_at(se, 0));
                }
            }
            assert(votes(se, seq) < threshold);
        }
        let mut c = seq - 1;
        let mut done = false;
        while !done
            invariant
                i2 <= idx < se.len(),
                se[idx as int].0 == seq,
                total2 == pos_from(se, i2 as int),
                threshold <= total2,
                !done ==> c < se[i2 as int].0,
                c < seq,
                forall|x: u64| c < x <= seq ==> #[trigger] votes(se, x) < threshold,
                !done ==> (i2 > 0 ==> se[i2 as int - 1].0 <= c),
                done ==> h == c && votes(se, c) >= threshold
                    && (forall|t: int| 0 <= t < i2 ==> (#[trigger] se[t]).0 < c)
                    && (forall|t: int| i2 <= t < se.len() ==> (#[trigger] se[t]).0 >= c),
            decreases (if done { 0int } else { c + 1 }),
        {
            if i2 == 0 {
                proof {
                    assert forall|u: int| 0 <= u < se.len()
                        implies (#[trigger] se[u]).0 != c by {
                        if u > 0 {
                            assert(se[0].0 < se[u].0);
                        }
                    }
                    lemma_nonkey_facts(se, c);
                    lemma_pos_ge_eq_from(se, c, 0);
                    assert(votes(se, c) >= threshold);
                    assert forall|t: int| i2 <= t < se.len()
                        implies (#[trigger] se[t]).0 >= c by {
                        if t > 0 {
                            assert(se[0].0 < se[t].0);
                        }
                    }
                }
                h = c;
                done = true;
            } else {
                let nk = m.entries[i2 - 1].0;
                let np = m.entries[i2 - 1].1.0;
                let n2 = m.entries[i2 - 1].1.1;
                if nk == c {
                    i2 = i2 - 1;
                    proof {
                        lemma_pos_from_bounds(se, i2 as int);
                    }
                    total2 = total2 + np;
                    proof {
                        lemma_key_facts(se, i2 as int);
                        assert(neg_at(se, c) == n2);
                        assert(pos_ge(se, c) == total2);
                    }
                    if (total2 as u128) >= (n2 as u128) + (threshold as u128) {
                        proof {
                            assert(votes(se, c) >= threshold);
                            assert forall|t: int| i2 <= t < se.len()
                                implies (#[trigger] se[t]).0 >= c by {
                                if t > i2 {
                                    assert(se[i2 as int].0 < se[t].0);
                                }
                            }
                        }
                        h = c;
                        done = true;
                    } else {
                        proof {
                            assert(votes(se, c) < threshold);
                            assert(c >= 1) by {
                                if c == 0 {
                                    assert(n2 == neg_at(se, 0));
                                }
                            }
                        }
                        c = c - 1;
                    }
                } else {
                    proof {
                        assert(nk < c);
                        assert forall|u: int| 0 <= u < se.len()
                            implies (#[trigger] se[u]).0 != c by {
                            if u < i2 {
                                if u < i2 - 1 {
                                    assert(se[u].0 < se[i2 as int - 1].0);
                                }
                            } else {
                                if u > i2 {
                                    assert(se[i2 as int].0 < se[u].0);
                                }
                            }
                        }
                        lemma_nonkey_facts(se, c);
                        assert forall|j: int| i2 <= j < se.len()
                            implies (#[trigger] se[j]).0 >= c by {
                            if j > i2 {
                                assert(se[i2 as int].0 < se[j].0);
                            }
                        }
                        assert forall|j: int| 0 <= j < i2
                            implies (#[trigger] se[j]).0 < c by {
                            if j < i2 - 1 {
                                assert(se[j].0 < se[i2 as int - 1].0);
                            }
                        }
                        lemma_pos_ge_eq_from(se, c, i2 as int);
                        assert(votes(se, c) >= threshold);
                        assert forall|t: int| i2 <= t < se.len()
                            implies (#[trigger] se[t]).0 >= c by {
                            if t > i2 {
                                assert(se[i2 as int].0 < se[t].0);
                            }
                        }
                    }
                    h = c;
                    done = true;
                }
            }
        }
    }

    proof {
        assert(votes(se, h) >= threshold);
        assert(h <= seq);
        assert(forall|x: u64| h < x <= seq ==> #[trigger] votes(se, x) < threshold);
        assert forall|t: int| 0 <= t < i2 implies (#[trigger] se[t]).0 < h by {
            if t < idx {
                assert(se[t].0 < se[idx as int].0);
            }
        }
        assert forall|t: int| i2 <= t < se.len() implies (#[trigger] se[t]).0 >= h by {
            if t > idx {
                assert(se[idx as int].0 < se[t].0);
            }
        }
    }

    // collect the exceptions: stored keys below the highest whose net votes
    // fail the threshold
    let mut exs: Vec<u64> = Vec::new();
    let mut t = i2;
    while t > 0
        invariant
            t <= i2,
            total2 == pos_from(se, t as int),
            threshold <= total2,
            forall|q: int| 0 <= q < exs@.len() ==> 1 <= #[trigger] exs@[q] < h,
            forall|x: u64| #[trigger] exs@.contains(x)
                <==> exists|u: int| t <= u < i2 && (#[trigger] se[u]).0 == x
                    && votes(se, x) < threshold,
        decreases t,
    {
        t = t - 1;
        proof {
            lemma_pos_from_bounds(se, t as int);
        }
        let k = m.entries[t].0;
        let p = m.entries[t].1.0;
        let n3 = m.entries[t].1.1;
        total2 = total2 + p;
        proof {
            lemma_key_facts(se, t as int);
            assert(neg_at(se, k) == n3);
            assert(pos_ge(se, k) == total2);
        }
        if (total2 as u128) < (n3 as u128) + (threshold as u128) {
            proof {
                assert(votes(se, k) < threshold);
                assert(k >= 1) by {
                    if k == 0 {
                        assert(n3 == neg_at(se, 0));
                    }
                }
                assert(k < h) by {
                    assert(se[t as int].0 < h);
                }
            }
            let ghost exs0 = exs@;
            exs.push(k);
            proof {
                assert forall|x: u64| #[trigger] exs@.contains(x)
                    == (exs0.contains(x) || x == k) by {
                    vstd::seq_lib::lemma_seq_contains_after_push(exs0, k, x);
                }
                assert forall|x: u64| #[trigger] exs@.contains(x)
                    implies exists|u: int| t <= u < i2 && (#[trigger] se[u]).0 == x
                        && votes(se, x) < threshold by {
                    if exs0.contains(x) {
                        let u = choose|u: int| t + 1 <= u < i2
                            && (#[trigger] se[u]).0 == x && votes(se, x) < threshold;
                        assert(t <= u < i2);
                    } else {
                        assert(se[t as int].0 == k);
                    }
                }
                assert forall|x: u64|
                    (exists|u: int| t <= u < i2 && (#[trigger] se[u]).0 == x
                        && votes(se, x) < threshold)
                    implies #[trigger] exs@.contains(x) by {
                    let u = choose|u: int| t <= u < i2
                        && (#[trigger] se[u]).0 == x && votes(se, x) < threshold;
                    if u > t {
                        assert(exs0.contains(x));
                    }
                }
                assert forall|q: int| 0 <= q < exs@.len()
                    implies 1 <= #[trigger] exs@[q] < h by {
                    if q < exs0.len() {
                        assert(exs@[q] == exs0[q]);
                    }
                }
            }
        } else {
            proof {
                assert(votes(se, k) >= threshold);
                assert forall|x: u64|
                    (exists|u: int| t <= u < i2 && (#[trigger] se[u]).0 == x
                        && votes(se, x) < threshold)
                    implies #[trigger] exs@.contains(x) by {
                    let u = choose|u: int| t <= u < i2
                        && (#[trigger] se[u]).0 == x && votes(se, x) < threshold;
                    if u == t {
                        assert(votes(se, k) < threshold);
                    }
                }
            }
        }
    }

    let r = BelowExSet::from(h, exs);
    proof {
        assert forall|e: u64| 1 <= e
            implies (#[trigger] r.view_set().contains(e)
                == (votes(se, e) >= threshold)) by {
            if e > seq {
                assert(votes(se, e) < threshold);
                assert(!r.view_set().contains(e));
            } else if e > h {
                assert(votes(se, e) < threshold);
                assert(!r.view_set().contains(e));
            } else {
                // `e` lies at or below the highest
                if exists|u: int| 0 <= u < i2 && (#[trigger] se[u]).0 == e {
                    let u = choose|u: int| 0 <= u < i2 && (#[trigger] se[u]).0 == e;
                    if votes(se, e) < threshold {
                        assert(exs@.contains(e));
                        assert(seq_to_set(exs@).contains(e));
                        assert(!r.view_set().contains(e));
                    } else {
                        assert(!exs@.contains(e)) by {
                            if exs@.contains(e) {
                                let u2 = choose|u2: int| 0 <= u2 < i2
                                    && (#[trigger] se[u2]).0 == e
                                    && votes(se, e) < threshold;
                            }
                        }
                        assert(!seq_to_set(exs@).contains(e));
                        assert(r.view_set().contains(e));
                    }
                } else {
                    // `e` is not a stored key below the highest
                    if exists|u: int| i2 <= u < se.len() && (#[trigger] se[u]).0 == e {
                        // a stored key at or above the highest equal to `e`
                        // forces `e == h`, which passes the threshold
                        let u = choose|u: int| i2 <= u < se.len()
                            && (#[trigger] se[u]).0 == e;
                        assert(se[u].0 >= h);
                        assert(e == h);
                        assert(votes(se, e) >= threshold);
                    } else {
                        assert forall|u: int| 0 <= u < se.len()
                            implies (#[trigger] se[u]).0 != e by {
                            if se[u].0 == e {
                                if u < i2 {
                                    assert(exists|w: int| 0 <= w < i2
                                        && (#[trigger] se[w]).0 == e);
                                } else {
                                    assert(exists|w: int| i2 <= w < se.len()
                                        && (#[trigger] se[w]).0 == e);
                                }
                            }
                        }
                        lemma_nonkey_facts(se, e);
                        lemma_pos_ge_antitone(se, e, h);
                        lemma_counts_nonneg(se, h);
                        assert(votes(se, e) == pos_ge(se, e));
                        assert(pos_ge(se, e) >= pos_ge(se, h));
                        assert(pos_ge(se, h) >= votes(se, h));
                        assert(votes(se, e) >= threshold);
                    }
                    assert(!exs@.contains(e)) by {
                        if exs@.contains(e) {
                            let u2 = choose|u2: int| 0 <= u2 < i2
                                && (#[trigger] se[u2]).0 == e
                                && votes(se, e) < threshold;
                            assert(exists|w: int| 0 <= w < i2
                                && (#[trigger] se[w]).0 == e);
                        }
                    }
                    assert(!seq_to_set(exs@).contains(e));
                    assert(r.view_set().contains(e));
                }
            }
        }
    }
    r
}

impl<A: Actor> TClock<A, BelowExSet> {
    /// Computes the threshold-union of all ingested exception clocks: the
    /// result holds event `e` for actor `a` exactly when the net votes for
    /// `e` at `a` — positive votes at or above `e`, minus the negative votes
    /// that exceptions cast at `e` — reach the threshold.
    #[verifier::loop_isolation(false)]
    pub fn threshold_union(&self, threshold: u64) -> (r: BEClock<A>)
        requires
            self.inv(),
            threshold >= 1,
        ensures
            r.inv(),
            forall|a: <A as DeepView>::V| #[trigger] r.view_map().dom().contains(a)
                == kv_map(self.occurrences@).dom().contains(a),
            forall|a: <A as DeepView>::V, e: u64| 1 <= e
                ==> (#[trigger] r.spec_contains(a, e)
                    <==> self.votes_at(a, e) >= threshold),
    {
        let ghost occ = self.occurrences@;
        let mut out: Vec<(A, BelowExSet)> = Vec::new();
        let mut i: usize = 0;
        while i < self.occurrences.len()
            invariant
                i <= occ.len(),
                out@.len() == i,
                forall|j: int| 0 <= j < i
                    ==> (#[trigger] out@[j]).0.deep_view() == occ[j].0.deep_view()
                        && out@[j].1.inv()
                        && (forall|e: u64| 1 <= e
                            ==> (#[trigger] out@[j].1.view_set().contains(e)
                                <==> votes(occ[j].1.entries@, e) >= threshold)),
            decreases occ.len() - i,
        {
            let bes = actor_threshold_be(&self.occurrences[i].1, threshold);
            let key = self.occurrences[i].0.actor_clone();
            out.push((key, bes));
            i = i + 1;
        }
        proof {
            assert(kv_unique(out@));
            lemma_kv_map_domain::<A, BelowExSet>(out@);
            lemma_kv_map_domain::<A, MultiSet<EventCount>>(occ);
        }
        let r = Clock { entries: out };
        proof {
            assert forall|a: <A as DeepView>::V| #[trigger] r.view_map().dom().contains(a)
                == kv_map(occ).dom().contains(a) by {
                if r.view_map().dom().contains(a) {
                    let j = choose|j: int| 0 <= j < r.entries@.len()
                        && (#[trigger] r.entries@[j]).0.deep_view() == a;
                    assert(occ[j].0.deep_view() == a);
                }
                if kv_map(occ).dom().contains(a) {
                    let j = choose|j: int| 0 <= j < occ.len()
                        && (#[trigger] occ[j]).0.deep_view() == a;
                    assert(r.entries@[j].0.deep_view() == a);
                }
            }
            assert forall|a: <A as DeepView>::V, e: u64| 1 <= e
                implies (#[trigger] r.spec_contains(a, e)
                    <==> self.votes_at(a, e) >= threshold) by {
                if kv_map(occ).dom().contains(a) {
                    let j = choose|j: int| 0 <= j < occ.len()
                        && (#[trigger] occ[j]).0.deep_view() == a;
                    lemma_kv_map_index::<A, MultiSet<EventCount>>(occ, j);
                    lemma_kv_map_index::<A, BelowExSet>(r.entries@, j);
                    assert(self.actor_entries(a) == occ[j].1.entries@);
                } else {
                    assert(!r.view_map().dom().contains(a));
                    assert(!r.spec_contains(a, e));
                    assert(self.actor_entries(a) == Seq::<(u64, EventCount)>::empty());
                    assert(self.votes_at(a, e) == 0);
                }
            }
        }
        r
    }
}

/// The number of listed clocks that hold event `e` for actor `a`.
pub open spec fn observation_count<A: Actor, E: EventSet>(
    clocks: Seq<Clock<A, E>>,
    a: <A as DeepView>::V,
    e: u64,
) -> int
    decreases clocks.len(),
{
    if clocks.len() == 0 {
        0
    } else {
        observation_count(clocks.drop_last(), a, e)
            + if clocks.last().spec_contains(a, e) { 1int } else { 0int }
    }
}

/// A fresh aggregator's net votes match the empty collection.
pub proof fn lemma_votes_track_observations_base<A: Actor, E: EventSet>(
    t: &TClock<A, E>,
    a: <A as DeepView>::V,
    e: u64,
)
    requires
        t.occurrences@.len() == 0,
    ensures
        t.votes_at(a, e) == observation_count(Seq::<Clock<A, E>>::empty(), a, e),
{
    lemma_kv_map_domain::<A, MultiSet<EventCount>>(t.occurrences@);
    if kv_map(t.occurrences@).dom().contains(a) {
        let j = choose|j: int| 0 <= j < t.occurrences@.len()
            && (#[trigger] t.occurrences@[j]).0.deep_view() == a;
    }
    assert(t.actor_entries(a) == Seq::<(u64, EventCount)>::empty());
}

/// Ingesting one more clock moves the net votes from matching the observation
/// count of a collection to matching the count of the collection extended by
/// that clock: `add` ensures exactly the vote change assumed here, and
/// `threshold_union` ensures that an event is in its result exactly when its
/// net votes reach the threshold.  Chained over every ingested clock, the two
/// say that the threshold-union holds `(a, e)` exactly when at least the
/// threshold many of the ingested clocks hold it.
pub proof fn lemma_votes_track_observations<A: Actor, E: EventSet>(
    before: &TClock<A, E>,
    after: &TClock<A, E>,
    clocks: Seq<Clock<A, E>>,
    clock: Clock<A, E>,
    a: <A as DeepView>::V,
    e: u64,
)
    requires
        1 <= e,
        before.votes_at(a, e) == observation_count(clocks, a, e),
        after.votes_at(a, e) == before.votes_at(a, e)
            + (if clock.spec_contains(a, e) { 1int } else { 0int }),
    ensures
        after.votes_at(a, e) == observation_count(clocks.push(clock), a, e),
{
    assert(clocks.push(clock).drop_last() =~= clocks);
    assert(clocks.push(clock).last() == clock);
}

} // verus!
