use vstd::prelude::*;

verus! {

/// The map after the pairs of `items` have been inserted one by one, the
/// first one first.
pub open spec fn insert_all<K, V>(m: Map<K, V>, items: Seq<(K, V)>) -> Map<K, V>
    decreases items.len(),
{
    if items.len() == 0 {
        m
    } else {
        insert_all(m, items.drop_last()).insert(items.last().0, items.last().1)
    }
}

/// The map after the keys of `keys` have been removed one by one.
pub open spec fn remove_all<K, V>(m: Map<K, V>, keys: Seq<K>) -> Map<K, V>
    decreases keys.len(),
{
    if keys.len() == 0 {
        m
    } else {
        remove_all(m, keys.drop_last()).remove(keys.last())
    }
}

/// After a run of inserts the map holds the keys it held and those inserted.
pub proof fn lemma_insert_all_keys<K, V>(m: Map<K, V>, items: Seq<(K, V)>)
    ensures
        forall|k: K| #[trigger]
            insert_all(m, items).contains_key(k) <==> m.contains_key(k) || exists|i: int|
                0 <= i < items.len() && (#[trigger] items[i]).0 == k,
        m.dom().finite() ==> insert_all(m, items).dom().finite(),
    decreases items.len(),
{
    if items.len() > 0 {
        let front = items.drop_last();
        lemma_insert_all_keys(m, front);
        assert(insert_all(m, items) == insert_all(m, front).insert(
            items.last().0,
            items.last().1,
        ));
        assert forall|k: K| #[trigger]
            insert_all(m, items).contains_key(k) <==> m.contains_key(k) || exists|i: int|
                0 <= i < items.len() && (#[trigger] items[i]).0 == k by {
            let grown = insert_all(m, front);
            assert(insert_all(m, items) == grown.insert(items.last().0, items.last().1));
            assert(grown.contains_key(k) <==> m.contains_key(k) || exists|i: int|
                0 <= i < front.len() && (#[trigger] front[i]).0 == k);
            if insert_all(m, items).contains_key(k) && !m.contains_key(k) {
                if k == items.last().0 {
                    assert(items[items.len() - 1].0 == k);
                } else {
                    assert(grown.contains_key(k));
                    let i = choose|i: int| 0 <= i < front.len() && (#[trigger] front[i]).0 == k;
                    assert(items[i] == front[i]);
                }
            }
            if exists|i: int| 0 <= i < items.len() && (#[trigger] items[i]).0 == k {
                let i = choose|i: int| 0 <= i < items.len() && (#[trigger] items[i]).0 == k;
                if i < front.len() {
                    assert(front[i] == items[i]);
                }
            }
        }
    }
}

/// After a run of removals the map holds the keys it held but for those
/// removed.
pub proof fn lemma_remove_all_keys<K, V>(m: Map<K, V>, keys: Seq<K>)
    ensures
        forall|k: K| #[trigger]
            remove_all(m, keys).contains_key(k) <==> m.contains_key(k) && !keys.contains(k),
    decreases keys.len(),
{
    if keys.len() > 0 {
        let front = keys.drop_last();
        lemma_remove_all_keys(m, front);
        assert forall|k: K| #[trigger]
            remove_all(m, keys).contains_key(k) <==> m.contains_key(k) && !keys.contains(
                k,
            ) by {
            let shrunk = remove_all(m, front);
            assert(remove_all(m, keys) == shrunk.remove(keys.last()));
            assert(shrunk.contains_key(k) <==> m.contains_key(k) && !front.contains(k));
            if keys.contains(k) && k != keys.last() {
                let i = choose|i: int| 0 <= i < keys.len() && keys[i] == k;
                assert(front[i] == k);
            }
            if front.contains(k) {
                let i = choose|i: int| 0 <= i < front.len() && front[i] == k;
                assert(keys[i] == k);
            }
            if k == keys.last() {
                assert(keys[keys.len() - 1] == k);
            }
        }
    }
}

/// A map that starts empty is empty again once every key that was inserted
/// has been removed: it has no pair left, and no key is found in it.
pub proof fn lemma_insert_then_remove_every_key<K, V>(items: Seq<(K, V)>, keys: Seq<K>)
    requires
        forall|i: int| 0 <= i < items.len() ==> keys.contains(#[trigger] items[i].0),
    ensures
        remove_all(insert_all(Map::<K, V>::empty(), items), keys) == Map::<K, V>::empty(),
        remove_all(insert_all(Map::<K, V>::empty(), items), keys).len() == 0,
        forall|k: K| !remove_all(insert_all(Map::<K, V>::empty(), items), keys).contains_key(k),
{
    let filled = insert_all(Map::<K, V>::empty(), items);
    let drained = remove_all(filled, keys);
    lemma_insert_all_keys(Map::<K, V>::empty(), items);
    lemma_remove_all_keys(filled, keys);
    assert forall|k: K| !drained.contains_key(k) by {
        if drained.contains_key(k) {
            assert(filled.contains_key(k));
        }
    }
    assert(drained =~= Map::<K, V>::empty());
}

/// The number of pairs after a run of inserts and removals is the number of
/// distinct keys that the map then holds: an insert of a key that is there
/// and a removal of one that is not leave the number as it was.
pub proof fn lemma_len_counts_distinct_keys<K, V>(m: Map<K, V>, key: K, value: V)
    requires
        m.dom().finite(),
    ensures
        m.insert(key, value).len() == m.len() + (if m.contains_key(key) {
            0nat
        } else {
            1nat
        }),
        m.remove(key).len() == m.len() - (if m.contains_key(key) {
            1nat
        } else {
            0nat
        }),
        !m.contains_key(key) ==> m.remove(key) == m,
{
    if !m.contains_key(key) {
        assert(m.remove(key) =~= m);
    }
}

} // verus!
