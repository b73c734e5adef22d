//! Sequences of storage slots, each empty or holding a key and a value, and the map from
//! keys to values that such a sequence stands for.

use vstd::prelude::*;

verus! {

/// What a slot holds: a key and the value beside it.
pub struct Slot<K, V> {
    pub key: K,
    pub value: V,
}

/// A slot that holds `key` and `value`.
pub open spec fn filled<K, V>(key: K, value: V) -> Option<Slot<K, V>> {
    Some(Slot { key, value })
}

/// Slot `i` of `s` holds the key `k`.
pub open spec fn holds<K, V>(s: Seq<Option<Slot<K, V>>>, i: int, k: K) -> bool {
    0 <= i < s.len() && s[i] is Some && s[i]->0.key == k
}

/// No key is held by two slots.
pub open spec fn distinct_keys<K, V>(s: Seq<Option<Slot<K, V>>>) -> bool {
    forall|i: int, j: int|
        0 <= i < s.len() && 0 <= j < s.len() && s[i] is Some && s[j] is Some && s[i]->0.key
            == s[j]->0.key ==> i == j
}

/// Some slot holds the key `k`.
pub open spec fn has_key<K, V>(s: Seq<Option<Slot<K, V>>>, k: K) -> bool {
    exists|i: int| holds(s, i, k)
}

/// A slot that holds the key `k`.
pub open spec fn slot_of<K, V>(s: Seq<Option<Slot<K, V>>>, k: K) -> int {
    choose|i: int| holds(s, i, k)
}

/// The map from each key held to the value beside it.
pub open spec fn active_map<K, V>(s: Seq<Option<Slot<K, V>>>) -> Map<K, V> {
    Map::new(|k: K| has_key(s, k), |k: K| s[slot_of(s, k)]->0.value)
}

/// The two sequences hold the same keys in the same slots.
pub open spec fn same_keys<K, V>(a: Seq<Option<Slot<K, V>>>, b: Seq<Option<Slot<K, V>>>) -> bool {
    &&& a.len() == b.len()
    &&& forall|i: int|
        0 <= i < a.len() ==> ((#[trigger] a[i]) is Some <==> b[i] is Some) && (a[i] is Some
            ==> a[i]->0.key == b[i]->0.key)
}

/// The slots that hold something, in their order.
pub open spec fn compact<K, V>(s: Seq<Option<Slot<K, V>>>) -> Seq<Option<Slot<K, V>>>
    decreases s.len(),
{
    if s.len() == 0 {
        s
    } else if s.last() is Some {
        compact(s.drop_last()).push(s.last())
    } else {
        compact(s.drop_last())
    }
}

/// What a slot holds is what the map gives for its key.
pub proof fn lemma_active_at<K, V>(s: Seq<Option<Slot<K, V>>>, i: int)
    requires
        distinct_keys(s),
        0 <= i < s.len(),
        s[i] is Some,
    ensures
        has_key(s, s[i]->0.key),
        slot_of(s, s[i]->0.key) == i,
        active_map(s).contains_key(s[i]->0.key),
        active_map(s)[s[i]->0.key] == s[i]->0.value,
{
    assert(holds(s, i, s[i]->0.key));
}

/// Filling an empty slot with a new key adds the key to the map.
pub proof fn lemma_fill<K, V>(s: Seq<Option<Slot<K, V>>>, i: int, k: K, v: V)
    requires
        distinct_keys(s),
        0 <= i < s.len(),
        s[i] is None,
        !has_key(s, k),
    ensures
        distinct_keys(s.update(i, filled(k, v))),
        active_map(s.update(i, filled(k, v))) == active_map(s).insert(k, v),
{
    let t = s.update(i, filled(k, v));
    assert forall|a: int, b: int|
        0 <= a < t.len() && 0 <= b < t.len() && t[a] is Some && t[b] is Some && t[a]->0.key
            == t[b]->0.key implies a == b by {
        if a == i && b != i {
            assert(holds(s, b, k));
        }
        if b == i && a != i {
            assert(holds(s, a, k));
        }
    }
    assert forall|q: K| has_key(t, q) <==> (has_key(s, q) || q == k) by {
        if has_key(t, q) {
            let j = slot_of(t, q);
            if j != i {
                assert(holds(s, j, q));
            }
        }
        if has_key(s, q) {
            let j = slot_of(s, q);
            assert(holds(t, j, q));
        }
        if q == k {
            assert(holds(t, i, q));
        }
    }
    assert forall|q: K| has_key(t, q) implies #[trigger] active_map(t)[q] == active_map(s).insert(
        k,
        v,
    )[q] by {
        let j = slot_of(t, q);
        if q == k {
            assert(holds(t, i, q));
        } else {
            assert(holds(s, j, q));
            lemma_active_at(s, j);
        }
    }
    assert(active_map(t) =~= active_map(s).insert(k, v));
}

/// Appending a slot with a new key adds the key to the map.
pub proof fn lemma_push<K, V>(s: Seq<Option<Slot<K, V>>>, k: K, v: V)
    requires
        distinct_keys(s),
        !has_key(s, k),
    ensures
        distinct_keys(s.push(filled(k, v))),
        active_map(s.push(filled(k, v))) == active_map(s).insert(k, v),
{
    let t = s.push(filled(k, v));
    let i = s.len() as int;
    assert forall|a: int, b: int|
        0 <= a < t.len() && 0 <= b < t.len() && t[a] is Some && t[b] is Some && t[a]->0.key
            == t[b]->0.key implies a == b by {
        if a == i && b != i {
            assert(holds(s, b, k));
        }
        if b == i && a != i {
            assert(holds(s, a, k));
        }
    }
    assert forall|q: K| has_key(t, q) <==> (has_key(s, q) || q == k) by {
        if has_key(t, q) {
            let j = slot_of(t, q);
            if j != i {
                assert(holds(s, j, q));
            }
        }
        if has_key(s, q) {
            let j = slot_of(s, q);
            assert(holds(t, j, q));
        }
        if q == k {
            assert(holds(t, i, q));
        }
    }
    assert forall|q: K| has_key(t, q) implies #[trigger] active_map(t)[q] == active_map(s).insert(
        k,
        v,
    )[q] by {
        let j = slot_of(t, q);
        if q == k {
            assert(holds(t, i, q));
        } else {
            assert(holds(s, j, q));
            lemma_active_at(s, j);
        }
    }
    assert(active_map(t) =~= active_map(s).insert(k, v));
}

/// Appending an empty slot leaves the map as it is.
pub proof fn lemma_push_empty<K, V>(s: Seq<Option<Slot<K, V>>>)
    requires
        distinct_keys(s),
    ensures
        distinct_keys(s.push(None)),
        active_map(s.push(None)) == active_map(s),
{
    let t = s.push(None);
    assert forall|q: K| has_key(t, q) <==> has_key(s, q) by {
        if has_key(t, q) {
            let j = slot_of(t, q);
            assert(holds(s, j, q));
        }
        if has_key(s, q) {
            let j = slot_of(s, q);
            assert(holds(t, j, q));
        }
    }
    assert forall|q: K| has_key(t, q) implies #[trigger] active_map(t)[q] == active_map(s)[q] by {
        let j = slot_of(t, q);
        assert(holds(s, j, q));
        lemma_active_at(s, j);
    }
    assert(active_map(t) =~= active_map(s));
}

/// Emptying a slot takes its key out of the map.
pub proof fn lemma_clear<K, V>(s: Seq<Option<Slot<K, V>>>, i: int)
    requires
        distinct_keys(s),
        0 <= i < s.len(),
        s[i] is Some,
    ensures
        distinct_keys(s.update(i, None)),
        !has_key(s.update(i, None), s[i]->0.key),
        active_map(s.update(i, None)) == active_map(s).remove(s[i]->0.key),
{
    let t = s.update(i, None);
    let k = s[i]->0.key;
    assert forall|q: K| has_key(t, q) <==> (has_key(s, q) && q != k) by {
        if has_key(t, q) {
            let j = slot_of(t, q);
            assert(holds(s, j, q));
        }
        if has_key(s, q) && q != k {
            let j = slot_of(s, q);
            assert(holds(t, j, q));
        }
    }
    assert forall|q: K| has_key(t, q) implies #[trigger] active_map(t)[q] == active_map(s)[q] by {
        let j = slot_of(t, q);
        assert(holds(s, j, q));
        lemma_active_at(s, j);
    }
    assert(active_map(t) =~= active_map(s).remove(k));
}

/// Putting another value into a slot that holds a key gives the key that value in the map.
pub proof fn lemma_replace<K, V>(s: Seq<Option<Slot<K, V>>>, i: int, v: V)
    requires
        distinct_keys(s),
        0 <= i < s.len(),
        s[i] is Some,
    ensures
        distinct_keys(s.update(i, filled(s[i]->0.key, v))),
        active_map(s.update(i, filled(s[i]->0.key, v))) == active_map(s).insert(s[i]->0.key, v),
{
    let k = s[i]->0.key;
    let t = s.update(i, filled(k, v));
    assert forall|q: K| has_key(t, q) <==> has_key(s, q) by {
        if has_key(t, q) {
            let j = slot_of(t, q);
            assert(holds(s, j, q));
        }
        if has_key(s, q) {
            let j = slot_of(s, q);
            assert(holds(t, j, q));
        }
    }
    assert(holds(s, i, k));
    assert forall|q: K| has_key(t, q) implies #[trigger] active_map(t)[q] == active_map(s).insert(
        k,
        v,
    )[q] by {
        let j = slot_of(t, q);
        if q != k {
            assert(holds(s, j, q));
            lemma_active_at(s, j);
        }
    }
    assert(active_map(t) =~= active_map(s).insert(k, v));
}

/// Compaction leaves no empty slot and keeps the map.
pub proof fn lemma_compact<K, V>(s: Seq<Option<Slot<K, V>>>)
    requires
        distinct_keys(s),
    ensures
        distinct_keys(compact(s)),
        active_map(compact(s)) == active_map(s),
        compact(s).len() <= s.len(),
        forall|i: int| 0 <= i < compact(s).len() ==> (#[trigger] compact(s)[i]) is Some,
    decreases s.len(),
{
    if s.len() == 0 {
    } else {
        let rest = s.drop_last();
        lemma_compact(rest);
        assert(s =~= rest.push(s.last()));
        if s.last() is Some {
            let k = s.last()->0.key;
            let v = s.last()->0.value;
            assert(s.last() == filled(k, v));
            if has_key(rest, k) {
                let j = slot_of(rest, k);
                assert(holds(s, j, k));
            }
            lemma_push(rest, k, v);
            assert(!has_key(compact(rest), k)) by {
                if has_key(compact(rest), k) {
                    assert(active_map(compact(rest)).contains_key(k));
                    assert(active_map(rest).contains_key(k));
                }
            }
            lemma_push(compact(rest), k, v);
        } else {
            lemma_push_empty(rest);
        }
    }
}

/// Nothing is left after compaction where no slot holds anything.
pub proof fn lemma_compact_empty<K, V>(s: Seq<Option<Slot<K, V>>>)
    requires
        forall|i: int| 0 <= i < s.len() ==> s[i] is None,
    ensures
        compact(s).len() == 0,
    decreases s.len(),
{
    if s.len() > 0 {
        lemma_compact_empty(s.drop_last());
    }
}

} // verus!
