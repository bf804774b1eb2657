use vstd::prelude::*;

use crate::traits::Actor;

verus! {

/// The map denoted by an association list: later entries win.
pub open spec fn kv_map<K: DeepView, V>(s: Seq<(K, V)>) -> Map<<K as DeepView>::V, V>
    decreases s.len(),
{
    if s.len() == 0 {
        Map::empty()
    } else {
        kv_map(s.drop_last()).insert(s.last().0.deep_view(), s.last().1)
    }
}

/// No two entries share a key.
pub open spec fn kv_unique<K: DeepView, V>(s: Seq<(K, V)>) -> bool {
    forall|i: int, j: int| 0 <= i < j < s.len()
        ==> (#[trigger] s[i]).0.deep_view() != (#[trigger] s[j]).0.deep_view()
}

/// The domain of the denoted map is exactly the set of listed keys.
pub proof fn lemma_kv_map_domain<K: DeepView, V>(s: Seq<(K, V)>)
    ensures
        forall|i: int| 0 <= i < s.len()
            ==> kv_map(s).dom().contains((#[trigger] s[i]).0.deep_view()),
        forall|k: <K as DeepView>::V| #[trigger] kv_map(s).dom().contains(k)
            ==> exists|i: int| 0 <= i < s.len() && (#[trigger] s[i]).0.deep_view() == k,
    decreases s.len(),
{
    if s.len() == 0 {
    } else {
        lemma_kv_map_domain::<K, V>(s.drop_last());
        assert forall|i: int| 0 <= i < s.len()
            implies kv_map(s).dom().contains((#[trigger] s[i]).0.deep_view()) by {
            if i < s.len() - 1 {
                assert(s.drop_last()[i] == s[i]);
                assert(kv_map(s.drop_last()).dom().contains(s[i].0.deep_view()));
            }
        }
        assert forall|k: <K as DeepView>::V| #[trigger] kv_map(s).dom().contains(k)
            implies exists|i: int| 0 <= i < s.len()
                && (#[trigger] s[i]).0.deep_view() == k by {
            if k == s.last().0.deep_view() {
                assert(s[s.len() - 1].0.deep_view() == k);
            } else {
                assert(kv_map(s.drop_last()).dom().contains(k));
                let i = choose|i: int| 0 <= i < s.drop_last().len()
                    && (#[trigger] s.drop_last()[i]).0.deep_view() == k;
                assert(s[i] == s.drop_last()[i]);
                assert(s[i].0.deep_view() == k);
            }
        }
    }
}

/// With unique keys, the denoted map sends each listed key to its value.
pub proof fn lemma_kv_map_index<K: DeepView, V>(s: Seq<(K, V)>, i: int)
    requires
        kv_unique(s),
        0 <= i < s.len(),
    ensures
        kv_map(s).dom().contains(s[i].0.deep_view()),
        kv_map(s)[s[i].0.deep_view()] == s[i].1,
    decreases s.len(),
{
    lemma_kv_map_domain::<K, V>(s);
    if i == s.len() - 1 {
    } else {
        assert(kv_unique(s.drop_last())) by {
            assert forall|p: int, q: int| 0 <= p < q < s.drop_last().len()
                implies (#[trigger] s.drop_last()[p]).0.deep_view()
                    != (#[trigger] s.drop_last()[q]).0.deep_view() by {
                assert(s[p] == s.drop_last()[p]);
                assert(s[q] == s.drop_last()[q]);
            }
        }
        assert(s.drop_last()[i] == s[i]);
        lemma_kv_map_index::<K, V>(s.drop_last(), i);
        assert(s[i].0.deep_view() != s.last().0.deep_view());
    }
}

/// Pushing a fresh entry denotes a map insert.
pub proof fn lemma_kv_map_push<K: DeepView, V>(s: Seq<(K, V)>, k: K, v: V)
    ensures
        kv_map(s.push((k, v))) == kv_map(s).insert(k.deep_view(), v),
{
    assert(s.push((k, v)).drop_last() =~= s);
}

/// Updating an entry in place, keeping its key, denotes a map insert.
pub proof fn lemma_kv_map_update<K: DeepView, V>(s: Seq<(K, V)>, i: int, p: (K, V))
    requires
        kv_unique(s),
        0 <= i < s.len(),
        p.0.deep_view() == s[i].0.deep_view(),
    ensures
        kv_unique(s.update(i, p)),
        kv_map(s.update(i, p)) == kv_map(s).insert(p.0.deep_view(), p.1),
    decreases s.len(),
{
    let t = s.update(i, p);
    assert(kv_unique(t)) by {
        assert forall|a: int, b: int| 0 <= a < b < t.len()
            implies (#[trigger] t[a]).0.deep_view() != (#[trigger] t[b]).0.deep_view() by {
            if a != i && b != i {
                assert(t[a] == s[a]);
                assert(t[b] == s[b]);
            } else if a == i {
                assert(t[b] == s[b]);
            } else {
                assert(t[a] == s[a]);
            }
        }
    }
    if i == s.len() - 1 {
        assert(t.drop_last() =~= s.drop_last());
        assert(kv_map(t) == kv_map(s.drop_last()).insert(p.0.deep_view(), p.1));
        assert(kv_map(s).insert(p.0.deep_view(), p.1)
            =~= kv_map(s.drop_last()).insert(p.0.deep_view(), p.1));
    } else {
        assert(kv_unique(s.drop_last())) by {
            assert forall|a: int, b: int| 0 <= a < b < s.drop_last().len()
                implies (#[trigger] s.drop_last()[a]).0.deep_view()
                    != (#[trigger] s.drop_last()[b]).0.deep_view() by {
                assert(s[a] == s.drop_last()[a]);
                assert(s[b] == s.drop_last()[b]);
            }
        }
        assert(s.drop_last()[i] == s[i]);
        lemma_kv_map_update::<K, V>(s.drop_last(), i, p);
        assert(t.drop_last() =~= s.drop_last().update(i, p));
        assert(t.last() == s.last());
        // the two inserted keys differ, so the inserts commute
        assert(s[i].0.deep_view() != s.last().0.deep_view());
        assert(kv_map(t)
            == kv_map(s.drop_last()).insert(p.0.deep_view(), p.1)
                .insert(s.last().0.deep_view(), s.last().1));
        assert(kv_map(s.drop_last()).insert(p.0.deep_view(), p.1)
            .insert(s.last().0.deep_view(), s.last().1)
            =~= kv_map(s.drop_last()).insert(s.last().0.deep_view(), s.last().1)
                .insert(p.0.deep_view(), p.1));
    }
}

/// Inserting an entry with a fresh key anywhere denotes a map insert.
pub proof fn lemma_kv_map_insert<K: DeepView, V>(s: Seq<(K, V)>, i: int, p: (K, V))
    requires
        0 <= i <= s.len(),
        forall|j: int| 0 <= j < s.len()
            ==> (#[trigger] s[j]).0.deep_view() != p.0.deep_view(),
    ensures
        kv_map(s.insert(i, p)) == kv_map(s).insert(p.0.deep_view(), p.1),
    decreases s.len(),
{
    if i == s.len() {
        assert(s.insert(i, p) =~= s.push(p));
        lemma_kv_map_push::<K, V>(s, p.0, p.1);
    } else {
        assert(s.insert(i, p).drop_last() =~= s.drop_last().insert(i, p));
        assert(s.insert(i, p).last() == s.last());
        assert forall|j: int| 0 <= j < s.drop_last().len()
            implies (#[trigger] s.drop_last()[j]).0.deep_view() != p.0.deep_view() by {
            assert(s.drop_last()[j] == s[j]);
        }
        lemma_kv_map_insert::<K, V>(s.drop_last(), i, p);
        assert(s[s.len() - 1].0.deep_view() != p.0.deep_view());
        assert(kv_map(s.drop_last()).insert(p.0.deep_view(), p.1)
            .insert(s.last().0.deep_view(), s.last().1)
            =~= kv_map(s.drop_last()).insert(s.last().0.deep_view(), s.last().1)
                .insert(p.0.deep_view(), p.1));
    }
}

/// Whether some listed value has the view `x`.
pub open spec fn has_view<T: DeepView>(s: Seq<T>, x: <T as DeepView>::V) -> bool {
    exists|i: int| 0 <= i < s.len() && (#[trigger] s[i]).deep_view() == x
}

/// Linear search by actor key.
pub fn kv_find<K: Actor, V>(entries: &Vec<(K, V)>, key: &K) -> (r: Option<usize>)
    ensures
        match r {
            Some(i) => i < entries@.len()
                && entries@[i as int].0.deep_view() == key.deep_view(),
            None => forall|i: int| 0 <= i < entries@.len()
                ==> (#[trigger] entries@[i]).0.deep_view() != key.deep_view(),
        },
{
    let mut i: usize = 0;
    while i < entries.len()
        invariant
            i <= entries@.len(),
            forall|j: int| 0 <= j < i
                ==> (#[trigger] entries@[j]).0.deep_view() != key.deep_view(),
        decreases entries@.len() - i,
    {
        if entries[i].0.actor_eq(key) {
            return Some(i);
        }
        i = i + 1;
    }
    None
}

} // verus!
