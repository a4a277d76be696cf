//! Association lists keyed by text, and the finite map each one stands for.
//!
//! The store keeps its sites, and the users of each site, in vectors whose
//! keys are pairwise distinct. The lemmas here say what pushing, replacing
//! and removing an entry of such a list does to the map.

use vstd::prelude::*;

verus! {

/// Entry `i` of `pairs` exists and has the key `key`.
pub open spec fn key_at<W>(pairs: Seq<(Seq<char>, W)>, key: Seq<char>, i: int) -> bool {
    0 <= i < pairs.len() && pairs[i].0 == key
}

/// No key occurs at two positions of `pairs`.
pub open spec fn distinct_keys<W>(pairs: Seq<(Seq<char>, W)>) -> bool {
    forall|i: int, j: int| 0 <= i < j < pairs.len() ==> pairs[i].0 != pairs[j].0
}

/// The map that `pairs` stands for: each key that occurs, with the value
/// beside it.
pub open spec fn pairs_map<W>(pairs: Seq<(Seq<char>, W)>) -> Map<Seq<char>, W> {
    Map::new(
        |key: Seq<char>| exists|i: int| key_at(pairs, key, i),
        |key: Seq<char>| pairs[choose|i: int| key_at(pairs, key, i)].1,
    )
}

/// With distinct keys, the map holds at each entry's key that entry's value.
pub proof fn lemma_lookup<W>(pairs: Seq<(Seq<char>, W)>, i: int)
    requires
        distinct_keys(pairs),
        0 <= i < pairs.len(),
    ensures
        pairs_map(pairs).contains_key(pairs[i].0),
        pairs_map(pairs)[pairs[i].0] == pairs[i].1,
{
    let key = pairs[i].0;
    assert(key_at(pairs, key, i));
    let j = choose|j: int| key_at(pairs, key, j);
    assert(j == i);
}

/// A key in the map occurs at some position.
pub proof fn lemma_position<W>(pairs: Seq<(Seq<char>, W)>, key: Seq<char>) -> (i: int)
    requires
        pairs_map(pairs).contains_key(key),
    ensures
        key_at(pairs, key, i),
{
    choose|i: int| key_at(pairs, key, i)
}

/// A key that occurs at no position is not in the map.
pub proof fn lemma_absent<W>(pairs: Seq<(Seq<char>, W)>, key: Seq<char>)
    requires
        forall|i: int| 0 <= i < pairs.len() ==> pairs[i].0 != key,
    ensures
        !pairs_map(pairs).contains_key(key),
{
    if pairs_map(pairs).contains_key(key) {
        let i = choose|i: int| key_at(pairs, key, i);
        assert(pairs[i].0 == key);
    }
}

/// Pushing an entry with a new key inserts it into the map.
pub proof fn lemma_push<W>(pairs: Seq<(Seq<char>, W)>, entry: (Seq<char>, W))
    requires
        distinct_keys(pairs),
        !pairs_map(pairs).contains_key(entry.0),
    ensures
        distinct_keys(pairs.push(entry)),
        pairs_map(pairs.push(entry)) == pairs_map(pairs).insert(entry.0, entry.1),
{
    let after = pairs.push(entry);
    assert forall|i: int| 0 <= i < pairs.len() implies pairs[i].0 != entry.0 by {
        if pairs[i].0 == entry.0 {
            assert(key_at(pairs, entry.0, i));
        }
    }
    assert(distinct_keys(after));
    assert forall|key: Seq<char>| #[trigger]
        pairs_map(after).contains_key(key) <==> pairs_map(pairs).insert(
            entry.0,
            entry.1,
        ).contains_key(key) by {
        if pairs_map(after).contains_key(key) {
            let i = lemma_position(after, key);
            if i < pairs.len() {
                assert(key_at(pairs, key, i));
            }
        }
        if pairs_map(pairs).contains_key(key) {
            let i = lemma_position(pairs, key);
            assert(key_at(after, key, i));
        }
        if key == entry.0 {
            assert(key_at(after, key, pairs.len() as int));
        }
    }
    assert forall|key: Seq<char>| #[trigger]
        pairs_map(after).contains_key(key) implies pairs_map(after)[key] == pairs_map(
        pairs,
    ).insert(entry.0, entry.1)[key] by {
        let i = lemma_position(after, key);
        lemma_lookup(after, i);
        if i < pairs.len() {
            lemma_lookup(pairs, i);
        }
    }
    assert(pairs_map(after) =~= pairs_map(pairs).insert(entry.0, entry.1));
}

/// Replacing an entry by one with the same key overwrites that key in the map.
pub proof fn lemma_replace<W>(pairs: Seq<(Seq<char>, W)>, i: int, entry: (Seq<char>, W))
    requires
        distinct_keys(pairs),
        0 <= i < pairs.len(),
        entry.0 == pairs[i].0,
    ensures
        distinct_keys(pairs.update(i, entry)),
        pairs_map(pairs.update(i, entry)) == pairs_map(pairs).insert(entry.0, entry.1),
{
    let after = pairs.update(i, entry);
    assert(distinct_keys(after));
    assert forall|key: Seq<char>| #[trigger]
        pairs_map(after).contains_key(key) <==> pairs_map(pairs).insert(
            entry.0,
            entry.1,
        ).contains_key(key) by {
        if pairs_map(after).contains_key(key) {
            let j = lemma_position(after, key);
            assert(key_at(pairs, key, j));
        }
        if pairs_map(pairs).contains_key(key) {
            let j = lemma_position(pairs, key);
            assert(key_at(after, key, j));
        }
        if key == entry.0 {
            assert(key_at(after, key, i));
        }
    }
    assert forall|key: Seq<char>| #[trigger]
        pairs_map(after).contains_key(key) implies pairs_map(after)[key] == pairs_map(
        pairs,
    ).insert(entry.0, entry.1)[key] by {
        let j = lemma_position(after, key);
        lemma_lookup(after, j);
        lemma_lookup(pairs, j);
    }
    assert(pairs_map(after) =~= pairs_map(pairs).insert(entry.0, entry.1));
}

/// Removing an entry removes its key from the map.
pub proof fn lemma_remove<W>(pairs: Seq<(Seq<char>, W)>, i: int)
    requires
        distinct_keys(pairs),
        0 <= i < pairs.len(),
    ensures
        distinct_keys(pairs.remove(i)),
        pairs_map(pairs.remove(i)) == pairs_map(pairs).remove(pairs[i].0),
{
    let after = pairs.remove(i);
    assert forall|a: int, b: int| 0 <= a < b < after.len() implies after[a].0 != after[b].0 by {
        let a0 = if a < i { a } else { a + 1 };
        let b0 = if b < i { b } else { b + 1 };
        assert(after[a] == pairs[a0] && after[b] == pairs[b0]);
    }
    assert forall|key: Seq<char>| #[trigger]
        pairs_map(after).contains_key(key) <==> pairs_map(pairs).remove(pairs[i].0).contains_key(
            key,
        ) by {
        if pairs_map(after).contains_key(key) {
            let j = lemma_position(after, key);
            let j0 = if j < i { j } else { j + 1 };
            assert(key_at(pairs, key, j0));
        }
        if pairs_map(pairs).contains_key(key) && key != pairs[i].0 {
            let j = lemma_position(pairs, key);
            let j1 = if j < i { j } else { j - 1 };
            assert(key_at(after, key, j1));
        }
    }
    assert forall|key: Seq<char>| #[trigger]
        pairs_map(after).contains_key(key) implies pairs_map(after)[key] == pairs_map(
        pairs,
    ).remove(pairs[i].0)[key] by {
        let j = lemma_position(after, key);
        let j0 = if j < i { j } else { j + 1 };
        lemma_lookup(after, j);
        lemma_lookup(pairs, j0);
    }
    assert(pairs_map(after) =~= pairs_map(pairs).remove(pairs[i].0));
}

} // verus!
