//! Sequences of key/value pairs read as maps, the later pair of a key
//! winning.

use vstd::prelude::*;

verus! {

/// The map that inserting the pairs of `pairs` in order builds.
pub open spec fn assoc_map<K, V>(pairs: Seq<(K, V)>) -> Map<K, V>
    decreases pairs.len(),
{
    if pairs.len() == 0 {
        Map::empty()
    } else {
        assoc_map(pairs.drop_last()).insert(pairs.last().0, pairs.last().1)
    }
}

/// No key occurs twice among the pairs.
pub open spec fn keys_unique<K, V>(pairs: Seq<(K, V)>) -> bool {
    forall|i: int, j: int| 0 <= i < j < pairs.len() ==> pairs[i].0 != pairs[j].0
}

/// The keys of the pairs, in order.
pub open spec fn keys_of<K, V>(pairs: Seq<(K, V)>) -> Seq<K> {
    pairs.map_values(|p: (K, V)| p.0)
}

/// A key is mapped exactly when some pair holds it.
pub proof fn lemma_assoc_dom<K, V>(pairs: Seq<(K, V)>, k: K)
    ensures
        assoc_map(pairs).dom().contains(k) <==> exists|i: int| 0 <= i < pairs.len() && pairs[i].0 == k,
    decreases pairs.len(),
{
    if pairs.len() > 0 {
        let front = pairs.drop_last();
        lemma_assoc_dom(front, k);
        if assoc_map(front).dom().contains(k) {
            let i = choose|i: int| 0 <= i < front.len() && front[i].0 == k;
            assert(pairs[i].0 == k);
        }
        if exists|i: int| 0 <= i < pairs.len() && pairs[i].0 == k {
            let i = choose|i: int| 0 <= i < pairs.len() && pairs[i].0 == k;
            if i < pairs.len() - 1 {
                assert(front[i].0 == k);
            }
        }
    }
}

/// The domain is finite.
pub proof fn lemma_assoc_finite<K, V>(pairs: Seq<(K, V)>)
    ensures
        assoc_map(pairs).dom().finite(),
    decreases pairs.len(),
{
    if pairs.len() > 0 {
        lemma_assoc_finite(pairs.drop_last());
    }
}

/// With unique keys, each pair's key maps to that pair's value.
pub proof fn lemma_assoc_value<K, V>(pairs: Seq<(K, V)>, i: int)
    requires
        keys_unique(pairs),
        0 <= i < pairs.len(),
    ensures
        assoc_map(pairs).dom().contains(pairs[i].0),
        assoc_map(pairs)[pairs[i].0] == pairs[i].1,
    decreases pairs.len(),
{
    let front = pairs.drop_last();
    if i < pairs.len() - 1 {
        assert(keys_unique(front));
        lemma_assoc_value(front, i);
        assert(pairs[i].0 != pairs.last().0);
    }
}

/// Replacing the value of a pair replaces the value of its key.
pub proof fn lemma_assoc_update<K, V>(pairs: Seq<(K, V)>, i: int, v: V)
    requires
        keys_unique(pairs),
        0 <= i < pairs.len(),
    ensures
        assoc_map(pairs.update(i, (pairs[i].0, v))) =~= assoc_map(pairs).insert(pairs[i].0, v),
        keys_unique(pairs.update(i, (pairs[i].0, v))),
    decreases pairs.len(),
{
    let updated = pairs.update(i, (pairs[i].0, v));
    let front = pairs.drop_last();
    if i == pairs.len() - 1 {
        assert(updated.drop_last() =~= front);
    } else {
        assert(keys_unique(front));
        lemma_assoc_update(front, i, v);
        assert(updated.drop_last() =~= front.update(i, (pairs[i].0, v)));
        assert(pairs[i].0 != pairs.last().0);
    }
    assert forall|a: int, b: int| 0 <= a < b < updated.len() implies updated[a].0 != updated[b].0 by {
        assert(updated[a].0 == pairs[a].0);
        assert(updated[b].0 == pairs[b].0);
    }
}

/// Appending a pair with a new key keeps the keys unique.
pub proof fn lemma_assoc_push_unique<K, V>(pairs: Seq<(K, V)>, k: K, v: V)
    requires
        keys_unique(pairs),
        !assoc_map(pairs).dom().contains(k),
    ensures
        keys_unique(pairs.push((k, v))),
        assoc_map(pairs.push((k, v))) == assoc_map(pairs).insert(k, v),
{
    let pushed = pairs.push((k, v));
    assert(pushed.drop_last() =~= pairs);
    assert forall|a: int, b: int| 0 <= a < b < pushed.len() implies pushed[a].0 != pushed[b].0 by {
        if b == pairs.len() {
            lemma_assoc_dom(pairs, k);
            assert(pushed[a].0 == pairs[a].0);
        }
    }
}

/// With unique keys there are as many mapped keys as pairs.
pub proof fn lemma_assoc_len<K, V>(pairs: Seq<(K, V)>)
    requires
        keys_unique(pairs),
    ensures
        assoc_map(pairs).dom().len() == pairs.len(),
    decreases pairs.len(),
{
    if pairs.len() > 0 {
        let front = pairs.drop_last();
        assert(keys_unique(front));
        lemma_assoc_len(front);
        lemma_assoc_finite(front);
        lemma_assoc_dom(front, pairs.last().0);
        if assoc_map(front).dom().contains(pairs.last().0) {
            let i = choose|i: int| 0 <= i < front.len() && front[i].0 == pairs.last().0;
            assert(pairs[i].0 == pairs[pairs.len() - 1].0);
        }
    }
}

/// The mapped keys are the keys of the pairs; with unique keys they occur
/// once each.
pub proof fn lemma_assoc_keys<K, V>(pairs: Seq<(K, V)>)
    requires
        keys_unique(pairs),
    ensures
        keys_of(pairs).to_set() =~= assoc_map(pairs).dom(),
        keys_of(pairs).no_duplicates(),
        keys_of(pairs).len() == pairs.len(),
{
    assert forall|k: K| keys_of(pairs).to_set().contains(k) <==> assoc_map(pairs).dom().contains(k) by {
        lemma_assoc_dom(pairs, k);
        if keys_of(pairs).contains(k) {
            let i = choose|i: int| 0 <= i < keys_of(pairs).len() && keys_of(pairs)[i] == k;
            assert(pairs[i].0 == k);
        }
        if assoc_map(pairs).dom().contains(k) {
            let i = choose|i: int| 0 <= i < pairs.len() && pairs[i].0 == k;
            assert(keys_of(pairs)[i] == k);
        }
    }
}

/// Listing each key of a finite map once, with its value, and reading the
/// listing back gives the map again.
pub proof fn lemma_assoc_of_listing<K, V>(m: Map<K, V>, pairs: Seq<(K, V)>)
    requires
        keys_unique(pairs),
        forall|i: int| 0 <= i < pairs.len() ==> m.dom().contains(#[trigger] pairs[i].0) && m[pairs[i].0]
            == pairs[i].1,
        forall|k: K| m.dom().contains(k) ==> exists|i: int| 0 <= i < pairs.len() && #[trigger] pairs[i].0 == k,
    ensures
        assoc_map(pairs) == m,
{
    assert forall|k: K| #[trigger] assoc_map(pairs).dom().contains(k) <==> m.dom().contains(k) by {
        lemma_assoc_dom(pairs, k);
    }
    assert forall|k: K| #[trigger] assoc_map(pairs).dom().contains(k) implies assoc_map(pairs)[k] == m[k] by {
        lemma_assoc_dom(pairs, k);
        let i = choose|i: int| 0 <= i < pairs.len() && pairs[i].0 == k;
        lemma_assoc_value(pairs, i);
    }
    assert(assoc_map(pairs) =~= m);
}

} // verus!
