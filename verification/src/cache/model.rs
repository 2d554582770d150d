//! Mathematical model of the LRU cache.
//!
//! A cache state is a sequence of `(key, value)` pairs whose keys are
//! pairwise distinct. The sequence doubles as the recency order: the front
//! (index 0) is the least-recently-used entry, the back the most-recently-used
//! one. The spec functions below define the state transitions of the cache
//! operations; the executable methods promise in their `ensures` clauses to
//! realise exactly these transitions.

use vstd::prelude::*;

verus! {

/// The recency order of a state: its keys, front = least recently used.
pub open spec fn keys_of<V>(s: Seq<(u64, V)>) -> Seq<u64> {
    s.map_values(|p: (u64, V)| p.0)
}

/// Whether `k` is resident in state `s`.
pub open spec fn has_key<V>(s: Seq<(u64, V)>, k: u64) -> bool {
    exists|i: int| 0 <= i < s.len() && s[i].0 == k
}

/// The position of `k` in `s` (meaningful only when `has_key(s, k)` and the
/// keys of `s` are distinct).
pub open spec fn position_of<V>(s: Seq<(u64, V)>, k: u64) -> int {
    choose|i: int| 0 <= i < s.len() && s[i].0 == k
}

/// The value cached under `k` (meaningful only when `has_key(s, k)`).
pub open spec fn value_of<V>(s: Seq<(u64, V)>, k: u64) -> V {
    s[position_of(s, k)].1
}

/// A state with pairwise distinct keys.
pub open spec fn distinct_keys<V>(s: Seq<(u64, V)>) -> bool {
    forall|i: int, j: int| 0 <= i < j < s.len() ==> s[i].0 != s[j].0
}

/// The state `s` with the entry for `k` removed, if present.
pub open spec fn remove_key<V>(s: Seq<(u64, V)>, k: u64) -> Seq<(u64, V)> {
    if has_key(s, k) {
        s.remove(position_of(s, k))
    } else {
        s
    }
}

/// The unordered content of a state: the map from resident keys to values.
pub open spec fn map_of<V>(s: Seq<(u64, V)>) -> Map<u64, V> {
    Map::new(|k: u64| has_key(s, k), |k: u64| value_of(s, k))
}

/// Promotion of a resident key `k` to most-recently-used: its entry moves
/// from its current position to the back, value unchanged. On an absent key
/// the state is unchanged.
pub open spec fn touch_spec<V>(s: Seq<(u64, V)>, k: u64) -> Seq<(u64, V)> {
    if has_key(s, k) {
        remove_key(s, k).push((k, value_of(s, k)))
    } else {
        s
    }
}

/// Insert-or-update under capacity `cap`:
/// - a resident key is rebound to `v` and promoted to most-recently-used;
/// - a fresh key is appended as most-recently-used, after evicting the
///   least-recently-used entry (the front) when the state is full.
pub open spec fn put_spec<V>(s: Seq<(u64, V)>, cap: nat, k: u64, v: V) -> Seq<(u64, V)> {
    if has_key(s, k) {
        remove_key(s, k).push((k, v))
    } else if s.len() >= cap {
        s.subrange(1, s.len() as int).push((k, v))
    } else {
        s.push((k, v))
    }
}

/// The state after inserting each entry of `kvs` in turn, front first,
/// starting from state `s` under capacity `cap`.
pub open spec fn puts_all<V>(s: Seq<(u64, V)>, cap: nat, kvs: Seq<(u64, V)>) -> Seq<(u64, V)>
    decreases kvs.len(),
{
    if kvs.len() == 0 {
        s
    } else {
        put_spec(puts_all(s, cap, kvs.drop_last()), cap, kvs.last().0, kvs.last().1)
    }
}

/// In a state with distinct keys, an index whose entry carries `k` is the
/// unique position of `k`.
pub proof fn lemma_position_unique<V>(s: Seq<(u64, V)>, k: u64, i: int)
    requires
        distinct_keys(s),
        0 <= i < s.len(),
        s[i].0 == k,
    ensures
        has_key(s, k),
        position_of(s, k) == i,
        value_of(s, k) == s[i].1,
{
    assert(has_key(s, k));
    let j = position_of(s, k);
    assert(0 <= j < s.len() && s[j].0 == k);
    if i < j {
        assert(s[i].0 != s[j].0);
    } else if j < i {
        assert(s[j].0 != s[i].0);
    }
}

/// Removing a resident key keeps the remaining keys distinct, shrinks the
/// state by one entry, drops exactly that key, and leaves every other entry
/// in place (in the same relative order, with the same value).
pub proof fn lemma_remove_key_properties<V>(s: Seq<(u64, V)>, k: u64)
    requires
        distinct_keys(s),
        has_key(s, k),
    ensures
        distinct_keys(remove_key(s, k)),
        remove_key(s, k).len() == s.len() - 1,
        !has_key(remove_key(s, k), k),
        forall|k2: u64| k2 != k ==> (has_key(remove_key(s, k), k2) <==> has_key(s, k2)),
        forall|k2: u64|
            k2 != k && has_key(s, k2) ==> value_of(remove_key(s, k), k2) == value_of(s, k2),
{
    let i = position_of(s, k);
    assert(0 <= i < s.len() && s[i].0 == k);
    let t = remove_key(s, k);
    assert(t == s.remove(i));
    s.remove_ensures(i);
    assert(forall|a: int| 0 <= a < i ==> t[a] == s[a]);
    assert(forall|a: int| i <= a < t.len() ==> t[a] == s[a + 1]);
    assert forall|a: int, b: int| 0 <= a < b < t.len() implies t[a].0 != t[b].0 by {
        let a2 = if a < i { a } else { a + 1 };
        let b2 = if b < i { b } else { b + 1 };
        assert(t[a] == s[a2] && t[b] == s[b2]);
        assert(s[a2].0 != s[b2].0);
    }
    assert forall|a: int| 0 <= a < t.len() implies t[a].0 != k by {
        let a2 = if a < i { a } else { a + 1 };
        assert(t[a] == s[a2]);
        if a2 != i {
            lemma_position_unique(s, s[a2].0, a2);
        }
    }
    assert forall|k2: u64| k2 != k && has_key(s, k2) implies has_key(t, k2) && value_of(
        t,
        k2,
    ) == value_of(s, k2) by {
        let a2 = position_of(s, k2);
        assert(0 <= a2 < s.len() && s[a2].0 == k2);
        assert(a2 != i);
        let a = if a2 < i { a2 } else { a2 - 1 };
        assert(t[a] == s[a2]);
        lemma_position_unique(t, k2, a);
        lemma_position_unique(s, k2, a2);
    }
    assert forall|k2: u64| k2 != k && has_key(t, k2) implies has_key(s, k2) by {
        let a = position_of(t, k2);
        assert(0 <= a < t.len() && t[a].0 == k2);
        let a2 = if a < i { a } else { a + 1 };
        assert(t[a] == s[a2]);
    }
}

/// Appending an entry with a fresh key keeps the keys distinct, makes that
/// key resident at the back with the appended value, and disturbs no other
/// entry.
pub proof fn lemma_push_fresh_properties<V>(s: Seq<(u64, V)>, k: u64, v: V)
    requires
        distinct_keys(s),
        !has_key(s, k),
    ensures
        distinct_keys(s.push((k, v))),
        s.push((k, v)).len() == s.len() + 1,
        has_key(s.push((k, v)), k),
        value_of(s.push((k, v)), k) == v,
        forall|k2: u64| k2 != k ==> (has_key(s.push((k, v)), k2) <==> has_key(s, k2)),
        forall|k2: u64|
            k2 != k && has_key(s, k2) ==> value_of(s.push((k, v)), k2) == value_of(s, k2),
{
    let t = s.push((k, v));
    assert(t[s.len() as int] == (k, v));
    assert(forall|a: int| 0 <= a < s.len() ==> t[a] == s[a]);
    assert forall|a: int, b: int| 0 <= a < b < t.len() implies t[a].0 != t[b].0 by {
        if b < s.len() {
            assert(s[a].0 != s[b].0);
        } else {
            assert(t[b] == (k, v));
            assert(t[a] == s[a]);
        }
    }
    lemma_position_unique(t, k, s.len() as int);
    assert forall|k2: u64| k2 != k && has_key(s, k2) implies has_key(t, k2) && value_of(
        t,
        k2,
    ) == value_of(s, k2) by {
        let a = position_of(s, k2);
        assert(0 <= a < s.len() && s[a].0 == k2);
        assert(t[a] == s[a]);
        lemma_position_unique(t, k2, a);
        lemma_position_unique(s, k2, a);
    }
    assert forall|k2: u64| k2 != k && has_key(t, k2) implies has_key(s, k2) by {
        let a = position_of(t, k2);
        assert(0 <= a < t.len() && t[a].0 == k2);
        assert(a != s.len() as int);
        assert(t[a] == s[a]);
    }
}

} // verus!
