//! Association lists: sequences of pairs of a key and what it stands for,
//! kept in the order in which the keys first came, and the maps they denote.

use vstd::prelude::*;

verus! {

/// Whether no key occurs twice in `pairs`.
pub open spec fn keys_distinct<V>(pairs: Seq<(Seq<char>, V)>) -> bool {
    forall|i: int, j: int| 0 <= i < j < pairs.len() ==> pairs[i].0 != pairs[j].0
}

/// The first index of `pairs` that holds `key`, if there is one.
pub open spec fn index_of<V>(pairs: Seq<(Seq<char>, V)>, key: Seq<char>) -> Option<int>
    decreases pairs.len(),
{
    if pairs.len() == 0 {
        None
    } else {
        match index_of(pairs.drop_last(), key) {
            Some(i) => Some(i),
            None => if pairs.last().0 == key {
                Some(pairs.len() - 1)
            } else {
                None
            },
        }
    }
}

/// What `key` stands for in `pairs`, if it occurs there.
pub open spec fn lookup<V>(pairs: Seq<(Seq<char>, V)>, key: Seq<char>) -> Option<V> {
    match index_of(pairs, key) {
        Some(i) => Some(pairs[i].1),
        None => None,
    }
}

/// `pairs` with `key` standing for `value`: in the place where `key`
/// already occurs, or else at the end.
pub open spec fn put<V>(pairs: Seq<(Seq<char>, V)>, key: Seq<char>, value: V) -> Seq<
    (Seq<char>, V),
> {
    match index_of(pairs, key) {
        Some(i) => pairs.update(i, (key, value)),
        None => pairs.push((key, value)),
    }
}

/// The map that `pairs` denotes. Where a key occurs twice, the later pair
/// counts.
pub open spec fn to_map<V>(pairs: Seq<(Seq<char>, V)>) -> Map<Seq<char>, V>
    decreases pairs.len(),
{
    if pairs.len() == 0 {
        Map::empty()
    } else {
        to_map(pairs.drop_last()).insert(pairs.last().0, pairs.last().1)
    }
}

/// `index_of` gives the first index that holds the key, and none only if no
/// index holds it.
pub proof fn lemma_index_of<V>(pairs: Seq<(Seq<char>, V)>, key: Seq<char>)
    ensures
        match index_of(pairs, key) {
            Some(i) => 0 <= i < pairs.len() && pairs[i].0 == key && forall|j: int|
                0 <= j < i ==> pairs[j].0 != key,
            None => forall|j: int| 0 <= j < pairs.len() ==> pairs[j].0 != key,
        },
    decreases pairs.len(),
{
    if pairs.len() > 0 {
        let init = pairs.drop_last();
        lemma_index_of(init, key);
        match index_of(pairs, key) {
            Some(i) => {
                assert forall|j: int| 0 <= j < i implies pairs[j].0 != key by {
                    assert(pairs[j] == init[j]);
                }
            },
            None => {
                assert forall|j: int| 0 <= j < pairs.len() implies pairs[j].0 != key by {
                    if j < init.len() {
                        assert(pairs[j] == init[j]);
                    }
                }
            },
        }
    }
}

/// A key that no pair holds is not found.
pub proof fn lemma_index_of_absent<V>(pairs: Seq<(Seq<char>, V)>, key: Seq<char>)
    requires
        forall|j: int| 0 <= j < pairs.len() ==> (#[trigger] pairs[j]).0 != key,
    ensures
        index_of(pairs, key) is None,
{
    lemma_index_of(pairs, key);
    if index_of(pairs, key) is Some {
        assert(pairs[index_of(pairs, key).unwrap()].0 == key);
    }
}

/// A key that is new to the list is found at the end once it is pushed.
pub proof fn lemma_index_of_pushed<V>(pairs: Seq<(Seq<char>, V)>, key: Seq<char>, value: V)
    requires
        index_of(pairs, key) is None,
    ensures
        index_of(pairs.push((key, value)), key) == Some(pairs.len() as int),
{
    assert(pairs.push((key, value)).drop_last() =~= pairs);
}

/// `put` keeps the keys distinct.
pub proof fn lemma_put_distinct<V>(pairs: Seq<(Seq<char>, V)>, key: Seq<char>, value: V)
    requires
        keys_distinct(pairs),
    ensures
        keys_distinct(put(pairs, key, value)),
{
    lemma_index_of(pairs, key);
}

/// In a list without repeated keys, the map gives for each key what the
/// list pairs it with.
pub proof fn lemma_to_map_lookup<V>(pairs: Seq<(Seq<char>, V)>, key: Seq<char>)
    requires
        keys_distinct(pairs),
    ensures
        match lookup(pairs, key) {
            Some(v) => to_map(pairs).contains_key(key) && to_map(pairs)[key] == v,
            None => !to_map(pairs).contains_key(key),
        },
    decreases pairs.len(),
{
    if pairs.len() > 0 {
        let init = pairs.drop_last();
        assert(keys_distinct(init));
        lemma_to_map_lookup(init, key);
        lemma_index_of(init, key);
        lemma_index_of(pairs, key);
    }
}

/// On the maps, `put` is `insert`.
pub proof fn lemma_put_to_map<V>(pairs: Seq<(Seq<char>, V)>, key: Seq<char>, value: V)
    requires
        keys_distinct(pairs),
    ensures
        to_map(put(pairs, key, value)) == to_map(pairs).insert(key, value),
    decreases pairs.len(),
{
    lemma_index_of(pairs, key);
    match index_of(pairs, key) {
        None => {
            assert(pairs.push((key, value)).drop_last() =~= pairs);
        },
        Some(i) => {
            let init = pairs.drop_last();
            let last = pairs.last();
            let changed = pairs.update(i, (key, value));
            if i == pairs.len() - 1 {
                assert(changed.drop_last() =~= init);
                assert(to_map(changed) =~= to_map(pairs).insert(key, value));
            } else {
                assert(keys_distinct(init));
                lemma_index_of(init, key);
                lemma_put_to_map(init, key, value);
                assert(changed.drop_last() =~= init.update(i, (key, value)));
                assert(changed.last() == last);
                assert(last.0 != key);
                assert(to_map(changed) =~= to_map(pairs).insert(key, value));
            }
        },
    }
}

} // verus!
