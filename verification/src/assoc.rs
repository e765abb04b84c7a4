//! Association lists as mathematical maps: a sequence of key-value pairs
//! whose keys are all different stands for the map that sends each key to
//! its value.

use vstd::prelude::*;

verus! {

/// No key occurs twice in `entries`.
pub open spec fn distinct_keys<K, V>(entries: Seq<(K, V)>) -> bool {
    forall|i: int, j: int|
        0 <= i < entries.len() && 0 <= j < entries.len() && i != j ==> entries[i].0 != entries[j].0
}

/// Whether some entry has key `k`.
pub open spec fn has_key<K, V>(entries: Seq<(K, V)>, k: K) -> bool {
    exists|i: int| 0 <= i < entries.len() && #[trigger] entries[i].0 == k
}

/// The map that `entries` stands for: its domain is the keys that occur,
/// and a key is sent to the value of an entry that holds it.
pub open spec fn as_map<K, V>(entries: Seq<(K, V)>) -> Map<K, V> {
    Map::new(
        |k: K| has_key(entries, k),
        |k: K| entries[choose|i: int| 0 <= i < entries.len() && #[trigger] entries[i].0 == k].1,
    )
}

/// With distinct keys, the map holds exactly the entries of the list.
pub proof fn lemma_as_map_entry<K, V>(entries: Seq<(K, V)>, i: int)
    requires
        distinct_keys(entries),
        0 <= i < entries.len(),
    ensures
        as_map(entries).contains_key(entries[i].0),
        as_map(entries)[entries[i].0] == entries[i].1,
{
    let k = entries[i].0;
    assert(has_key(entries, k));
    let j = choose|j: int| 0 <= j < entries.len() && #[trigger] entries[j].0 == k;
    assert(j == i);
}

/// A key that no entry holds is not in the map.
pub proof fn lemma_as_map_absent<K, V>(entries: Seq<(K, V)>, k: K)
    requires
        forall|i: int| 0 <= i < entries.len() ==> entries[i].0 != k,
    ensures
        !as_map(entries).contains_key(k),
{
}

/// A key of the map is the key of some entry, which holds its value.
pub proof fn lemma_as_map_witness<K, V>(entries: Seq<(K, V)>, k: K) -> (i: int)
    requires
        as_map(entries).contains_key(k),
    ensures
        0 <= i < entries.len(),
        entries[i].0 == k,
        as_map(entries)[k] == entries[i].1,
{
    choose|i: int| 0 <= i < entries.len() && #[trigger] entries[i].0 == k
}

/// Appending an entry with a new key inserts it into the map.
pub proof fn lemma_as_map_push<K, V>(entries: Seq<(K, V)>, k: K, v: V)
    requires
        distinct_keys(entries),
        !as_map(entries).contains_key(k),
    ensures
        distinct_keys(entries.push((k, v))),
        as_map(entries.push((k, v))) == as_map(entries).insert(k, v),
{
    let after = entries.push((k, v));
    assert forall|i: int, j: int|
        0 <= i < after.len() && 0 <= j < after.len() && i != j implies after[i].0 != after[j].0 by {
        if i < entries.len() {
            assert(entries[i].0 == after[i].0);
            if j == entries.len() {
                assert(has_key(entries, entries[i].0));
            }
        }
        if j < entries.len() {
            assert(entries[j].0 == after[j].0);
            if i == entries.len() {
                assert(has_key(entries, entries[j].0));
            }
        }
    }
    assert forall|q: K|
        as_map(after).contains_key(q) <==> #[trigger] as_map(entries).insert(k, v).contains_key(
            q,
        ) by {
        if as_map(after).contains_key(q) {
            let i = lemma_as_map_witness(after, q);
            if i < entries.len() {
                assert(entries[i].0 == q);
            }
        }
        if as_map(entries).contains_key(q) {
            let i = lemma_as_map_witness(entries, q);
            assert(after[i].0 == q);
        }
        if q == k {
            assert(after[entries.len() as int].0 == k);
        }
    }
    assert forall|q: K| #[trigger]
        as_map(after).contains_key(q) implies as_map(after)[q] == as_map(entries).insert(k, v)[q] by {
        let i = lemma_as_map_witness(after, q);
        if i < entries.len() {
            assert(entries[i] == after[i]);
            lemma_as_map_entry(entries, i);
        }
    }
    assert(as_map(after) =~= as_map(entries).insert(k, v));
}

/// Replacing the value of the entry at `i` replaces it in the map.
pub proof fn lemma_as_map_update<K, V>(entries: Seq<(K, V)>, i: int, v: V)
    requires
        distinct_keys(entries),
        0 <= i < entries.len(),
    ensures
        distinct_keys(entries.update(i, (entries[i].0, v))),
        as_map(entries.update(i, (entries[i].0, v))) == as_map(entries).insert(entries[i].0, v),
{
    let k = entries[i].0;
    let after = entries.update(i, (k, v));
    assert forall|a: int, b: int|
        0 <= a < after.len() && 0 <= b < after.len() && a != b implies after[a].0 != after[b].0 by {
        assert(after[a].0 == entries[a].0);
        assert(after[b].0 == entries[b].0);
    }
    assert forall|q: K|
        as_map(after).contains_key(q) <==> #[trigger] as_map(entries).insert(k, v).contains_key(
            q,
        ) by {
        if as_map(after).contains_key(q) {
            let j = lemma_as_map_witness(after, q);
            assert(entries[j].0 == q);
        }
        if as_map(entries).contains_key(q) {
            let j = lemma_as_map_witness(entries, q);
            assert(after[j].0 == q);
        }
        if q == k {
            assert(after[i].0 == k);
        }
    }
    assert forall|q: K| #[trigger]
        as_map(after).contains_key(q) implies as_map(after)[q] == as_map(entries).insert(k, v)[q] by {
        let j = lemma_as_map_witness(after, q);
        lemma_as_map_entry(after, j);
        if j != i {
            assert(entries[j] == after[j]);
            lemma_as_map_entry(entries, j);
        }
    }
    assert(as_map(after) =~= as_map(entries).insert(k, v));
}

/// Putting an entry with a new key anywhere into the list inserts it into
/// the map.
pub proof fn lemma_as_map_insert<K, V>(entries: Seq<(K, V)>, at: int, k: K, v: V)
    requires
        distinct_keys(entries),
        0 <= at <= entries.len(),
        !as_map(entries).contains_key(k),
    ensures
        distinct_keys(entries.insert(at, (k, v))),
        as_map(entries.insert(at, (k, v))) == as_map(entries).insert(k, v),
{
    let after = entries.insert(at, (k, v));
    let back = |a: int| if a < at { a } else { a - 1 };
    assert forall|a: int| 0 <= a < after.len() && a != at implies after[a] == entries[back(a)] by {}
    assert forall|a: int, b: int|
        0 <= a < after.len() && 0 <= b < after.len() && a != b implies after[a].0 != after[b].0 by {
        if a != at {
            assert(after[a] == entries[back(a)]);
            if b == at {
                assert(has_key(entries, entries[back(a)].0));
            }
        }
        if b != at {
            assert(after[b] == entries[back(b)]);
            if a == at {
                assert(has_key(entries, entries[back(b)].0));
            }
        }
    }
    assert forall|q: K|
        as_map(after).contains_key(q) <==> #[trigger] as_map(entries).insert(k, v).contains_key(
            q,
        ) by {
        if as_map(after).contains_key(q) {
            let j = lemma_as_map_witness(after, q);
            if j != at {
                assert(entries[back(j)].0 == q);
            }
        }
        if as_map(entries).contains_key(q) {
            let j = lemma_as_map_witness(entries, q);
            let j2 = if j < at { j } else { j + 1 };
            assert(after[j2].0 == q);
        }
        if q == k {
            assert(after[at].0 == k);
        }
    }
    assert forall|q: K| #[trigger]
        as_map(after).contains_key(q) implies as_map(after)[q] == as_map(entries).insert(k, v)[q] by {
        let j = lemma_as_map_witness(after, q);
        lemma_as_map_entry(after, j);
        if j != at {
            assert(entries[back(j)] == after[j]);
            lemma_as_map_entry(entries, back(j));
        }
    }
    assert(as_map(after) =~= as_map(entries).insert(k, v));
}

} // verus!
