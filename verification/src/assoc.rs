//! Association lists read as finite maps.

use vstd::prelude::*;

verus! {

/// The map that a list of key-value pairs stands for. Where a key occurs
/// more than once, its last pair counts.
pub open spec fn assoc<K, V>(entries: Seq<(K, V)>) -> Map<K, V>
    decreases entries.len(),
{
    if entries.len() == 0 {
        Map::empty()
    } else {
        assoc(entries.drop_last()).insert(entries.last().0, entries.last().1)
    }
}

/// Whether no key occurs twice.
pub open spec fn keys_distinct<K, V>(entries: Seq<(K, V)>) -> bool {
    forall|i: int, j: int|
        0 <= i < j < entries.len() ==> (#[trigger] entries[i]).0 != (#[trigger] entries[j]).0
}

/// Whether some pair of the list has the key `k`.
pub open spec fn has_key<K, V>(entries: Seq<(K, V)>, k: K) -> bool {
    exists|i: int| 0 <= i < entries.len() && (#[trigger] entries[i]).0 == k
}

/// A key is in the map exactly when a pair of the list has it.
pub proof fn lemma_assoc_domain<K, V>(entries: Seq<(K, V)>, k: K)
    ensures
        assoc(entries).contains_key(k) <==> has_key(entries, k),
    decreases entries.len(),
{
    if entries.len() > 0 {
        let front = entries.drop_last();
        lemma_assoc_domain(front, k);
        if has_key(front, k) {
            let i = choose|i: int| 0 <= i < front.len() && (#[trigger] front[i]).0 == k;
            assert(entries[i] == front[i]);
        }
        if has_key(entries, k) {
            let i = choose|i: int| 0 <= i < entries.len() && (#[trigger] entries[i]).0 == k;
            if i < front.len() {
                assert(front[i] == entries[i]);
            }
        }
    }
}

/// In a list without repeated keys, each pair gives the map's value at
/// its key.
pub proof fn lemma_assoc_index<K, V>(entries: Seq<(K, V)>, i: int)
    requires
        keys_distinct(entries),
        0 <= i < entries.len(),
    ensures
        assoc(entries).contains_key(entries[i].0),
        assoc(entries)[entries[i].0] == entries[i].1,
    decreases entries.len(),
{
    let front = entries.drop_last();
    if i < entries.len() - 1 {
        assert(keys_distinct(front)) by {
            assert forall|a: int, b: int| 0 <= a < b < front.len() implies (#[trigger] front[a]).0
                != (#[trigger] front[b]).0 by {
                assert(entries[a] == front[a] && entries[b] == front[b]);
            }
        }
        lemma_assoc_index(front, i);
        assert(front[i] == entries[i]);
        assert(entries[i].0 != entries[entries.len() - 1].0);
    }
}

/// Appending a pair inserts it into the map.
pub proof fn lemma_assoc_push<K, V>(entries: Seq<(K, V)>, k: K, v: V)
    ensures
        assoc(entries.push((k, v))) == assoc(entries).insert(k, v),
{
    assert(entries.push((k, v)).drop_last() =~= entries);
}

/// In a list without repeated keys, replacing the value of a pair
/// replaces the map's value at its key.
pub proof fn lemma_assoc_update<K, V>(entries: Seq<(K, V)>, i: int, v: V)
    requires
        keys_distinct(entries),
        0 <= i < entries.len(),
    ensures
        assoc(entries.update(i, (entries[i].0, v))) == assoc(entries).insert(entries[i].0, v),
        keys_distinct(entries.update(i, (entries[i].0, v))),
    decreases entries.len(),
{
    let k = entries[i].0;
    let changed = entries.update(i, (k, v));
    let front = entries.drop_last();
    let last = entries.len() - 1;
    assert(keys_distinct(changed)) by {
        assert forall|a: int, b: int| 0 <= a < b < changed.len() implies (#[trigger] changed[a]).0
            != (#[trigger] changed[b]).0 by {
            assert(entries[a].0 != entries[b].0);
        }
    }
    if i == last {
        assert(changed.drop_last() =~= front);
        assert(assoc(changed) =~= assoc(entries).insert(k, v));
    } else {
        assert(keys_distinct(front)) by {
            assert forall|a: int, b: int| 0 <= a < b < front.len() implies (#[trigger] front[a]).0
                != (#[trigger] front[b]).0 by {
                assert(entries[a] == front[a] && entries[b] == front[b]);
            }
        }
        lemma_assoc_update(front, i, v);
        assert(front[i] == entries[i]);
        assert(changed.drop_last() =~= front.update(i, (k, v)));
        assert(changed.last() == entries.last());
        assert(entries[i].0 != entries[last].0);
        assert(assoc(changed) =~= assoc(entries).insert(k, v));
    }
}

/// Appending a pair with a new key keeps the keys distinct.
pub proof fn lemma_distinct_push<K, V>(entries: Seq<(K, V)>, k: K, v: V)
    requires
        keys_distinct(entries),
        !has_key(entries, k),
    ensures
        keys_distinct(entries.push((k, v))),
{
    let grown = entries.push((k, v));
    assert forall|a: int, b: int| 0 <= a < b < grown.len() implies (#[trigger] grown[a]).0 != (
    #[trigger] grown[b]).0 by {
        assert(grown[a] == entries[a]);
        if b < entries.len() {
            assert(grown[b] == entries[b]);
        }
    }
}

} // verus!
