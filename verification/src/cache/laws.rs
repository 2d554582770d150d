//! The laws of the LRU cache, proved of the model transitions.
//!
//! Every executable operation promises in its `ensures` clause to realise
//! exactly the corresponding transition of `crate::cache::model`; the lemmas
//! here state what those transitions guarantee: the capacity bound, the
//! agreement of content and recency order, LRU eviction, recency promotion,
//! and update-in-place.

use vstd::prelude::*;

use crate::cache::model::{
    distinct_keys, has_key, keys_of, lemma_position_unique, lemma_push_fresh_properties,
    lemma_remove_key_properties, map_of, put_spec, puts_all, remove_key, touch_spec, value_of,
};

verus! {

/// Consistency: in a state with distinct keys, the content map and the
/// recency order hold exactly the same keys, each exactly once, so the two
/// have the same cardinality.
pub proof fn lemma_content_order_consistent<V>(s: Seq<(u64, V)>)
    requires
        distinct_keys(s),
    ensures
        map_of(s).dom() =~= keys_of(s).to_set(),
        map_of(s).dom().finite(),
        map_of(s).len() == s.len(),
        keys_of(s).len() == s.len(),
        keys_of(s).no_duplicates(),
{
    broadcast use vstd::seq_lib::seq_to_set_is_finite;

    assert forall|k: u64| has_key(s, k) implies keys_of(s).contains(k) by {
        let i = choose|i: int| 0 <= i < s.len() && s[i].0 == k;
        assert(keys_of(s)[i] == k);
    }
    assert forall|k: u64| keys_of(s).contains(k) implies has_key(s, k) by {
        let i = choose|i: int| 0 <= i < keys_of(s).len() && keys_of(s)[i] == k;
        assert(s[i].0 == k);
    }
    assert forall|i: int, j: int|
        0 <= i < keys_of(s).len() && 0 <= j < keys_of(s).len() && i != j implies keys_of(s)[i]
        != keys_of(s)[j] by {
        if i < j {
            assert(s[i].0 != s[j].0);
        } else {
            assert(s[j].0 != s[i].0);
        }
    }
    keys_of(s).unique_seq_to_set();
}

/// Capacity bound: a state with distinct keys holds no more content entries
/// than it has recency slots, so a state within capacity has content within
/// capacity.
pub proof fn lemma_capacity_bound<V>(s: Seq<(u64, V)>, cap: nat)
    requires
        distinct_keys(s),
        s.len() <= cap,
    ensures
        map_of(s).len() <= cap,
{
    lemma_content_order_consistent(s);
}

/// Update-in-place: insertion under a resident key rebinds that key and
/// promotes it to most-recently-used, leaving the occupancy and every other
/// entry's value unchanged.
pub proof fn lemma_put_resident<V>(s: Seq<(u64, V)>, cap: nat, k: u64, v: V)
    requires
        distinct_keys(s),
        has_key(s, k),
    ensures
        distinct_keys(put_spec(s, cap, k, v)),
        put_spec(s, cap, k, v).len() == s.len(),
        put_spec(s, cap, k, v).last() == (k, v),
        map_of(put_spec(s, cap, k, v)) =~= map_of(s).insert(k, v),
{
    lemma_remove_key_properties(s, k);
    lemma_push_fresh_properties(remove_key(s, k), k, v);
    let t = put_spec(s, cap, k, v);
    assert forall|k2: u64| #[trigger] has_key(t, k2) implies map_of(t)[k2] == map_of(s).insert(
        k,
        v,
    )[k2] && map_of(s).insert(k, v).dom().contains(k2) by {
        if k2 != k {
            assert(value_of(t, k2) == value_of(s, k2));
        }
    }
}

/// Recency promotion: touching a resident key moves its entry, value
/// unchanged, to the most-recently-used end, leaving the content untouched;
/// touching an absent key leaves the state unchanged.
pub proof fn lemma_touch_promotes<V>(s: Seq<(u64, V)>, k: u64)
    requires
        distinct_keys(s),
        has_key(s, k),
    ensures
        distinct_keys(touch_spec(s, k)),
        touch_spec(s, k).len() == s.len(),
        touch_spec(s, k).last() == (k, value_of(s, k)),
        map_of(touch_spec(s, k)) =~= map_of(s),
{
    lemma_remove_key_properties(s, k);
    lemma_push_fresh_properties(remove_key(s, k), k, value_of(s, k));
    let t = touch_spec(s, k);
    assert forall|k2: u64| #[trigger] has_key(t, k2) implies map_of(t)[k2] == map_of(s)[k2]
        && map_of(s).dom().contains(k2) by {
        if k2 != k {
            assert(value_of(t, k2) == value_of(s, k2));
        }
    }
    assert forall|k2: u64| #[trigger] has_key(s, k2) implies has_key(t, k2) by {}
}

/// Insertion of a fresh key into a state with room: the new entry becomes
/// most-recently-used, nothing is evicted, and the occupancy grows by one.
pub proof fn lemma_put_fresh_room<V>(s: Seq<(u64, V)>, cap: nat, k: u64, v: V)
    requires
        distinct_keys(s),
        !has_key(s, k),
        s.len() < cap,
    ensures
        distinct_keys(put_spec(s, cap, k, v)),
        put_spec(s, cap, k, v) == s.push((k, v)),
        map_of(put_spec(s, cap, k, v)) =~= map_of(s).insert(k, v),
{
    lemma_push_fresh_properties(s, k, v);
    let t = put_spec(s, cap, k, v);
    assert forall|k2: u64| #[trigger] has_key(t, k2) implies map_of(t)[k2] == map_of(s).insert(
        k,
        v,
    )[k2] && map_of(s).insert(k, v).dom().contains(k2) by {
        if k2 != k {
            assert(value_of(t, k2) == value_of(s, k2));
        }
    }
}

/// LRU eviction, one step: insertion of a fresh key into a full state evicts
/// exactly the least-recently-used entry — the front — and appends the new
/// entry as most-recently-used.
pub proof fn lemma_put_fresh_full<V>(s: Seq<(u64, V)>, cap: nat, k: u64, v: V)
    requires
        distinct_keys(s),
        !has_key(s, k),
        s.len() == cap,
        1 <= cap,
    ensures
        distinct_keys(put_spec(s, cap, k, v)),
        put_spec(s, cap, k, v).len() == cap,
        put_spec(s, cap, k, v).last() == (k, v),
        !has_key(put_spec(s, cap, k, v), s[0].0),
        map_of(put_spec(s, cap, k, v)) =~= map_of(s).remove(s[0].0).insert(k, v),
{
    let front = s[0].0;
    lemma_position_unique(s, front, 0);
    lemma_remove_key_properties(s, front);
    assert(s.remove(0) =~= s.subrange(1, s.len() as int));
    let rest = s.subrange(1, s.len() as int);
    assert(rest == remove_key(s, front));
    assert(!has_key(rest, k));
    lemma_push_fresh_properties(rest, k, v);
    let t = put_spec(s, cap, k, v);
    assert(t == rest.push((k, v)));
    assert forall|k2: u64| #[trigger] has_key(t, k2) implies map_of(t)[k2] == map_of(s).remove(
        front,
    ).insert(k, v)[k2] && map_of(s).remove(front).insert(k, v).dom().contains(k2) by {
        if k2 != k {
            assert(value_of(t, k2) == value_of(rest, k2));
            assert(value_of(rest, k2) == value_of(s, k2));
        }
    }
    assert forall|k2: u64|
        map_of(s).remove(front).insert(k, v).dom().contains(k2) implies #[trigger] has_key(
        t,
        k2,
    ) by {}
}

/// Filling an empty cache: inserting distinct keys, no more than the
/// capacity, evicts nothing and leaves the entries resident in insertion
/// order.
pub proof fn lemma_fill_distinct<V>(cap: nat, kvs: Seq<(u64, V)>)
    requires
        distinct_keys(kvs),
        kvs.len() <= cap,
    ensures
        puts_all(Seq::<(u64, V)>::empty(), cap, kvs) == kvs,
    decreases kvs.len(),
{
    if kvs.len() == 0 {
        assert(puts_all(Seq::<(u64, V)>::empty(), cap, kvs) =~= kvs);
    } else {
        let d = kvs.drop_last();
        assert forall|i: int, j: int| 0 <= i < j < d.len() implies d[i].0 != d[j].0 by {
            assert(d[i] == kvs[i] && d[j] == kvs[j]);
        }
        lemma_fill_distinct(cap, d);
        assert forall|i: int| 0 <= i < d.len() implies d[i].0 != kvs.last().0 by {
            assert(d[i] == kvs[i]);
            assert(kvs[i].0 != kvs[kvs.len() - 1].0);
        }
        assert(!has_key(d, kvs.last().0));
        assert(puts_all(Seq::<(u64, V)>::empty(), cap, kvs) == d.push(kvs.last()));
        assert(d.push(kvs.last()) =~= kvs);
    }
}

/// LRU eviction order: inserting capacity-plus-one entries with distinct
/// keys into an empty cache, with no intervening lookup, evicts exactly the
/// first-inserted key and leaves the later entries resident in insertion
/// order.
pub proof fn lemma_lru_eviction_order<V>(cap: nat, kvs: Seq<(u64, V)>)
    requires
        distinct_keys(kvs),
        kvs.len() == cap + 1,
        1 <= cap,
    ensures
        puts_all(Seq::<(u64, V)>::empty(), cap, kvs) == kvs.drop_first(),
        !has_key(kvs.drop_first(), kvs[0].0),
{
    let d = kvs.drop_last();
    assert forall|i: int, j: int| 0 <= i < j < d.len() implies d[i].0 != d[j].0 by {
        assert(d[i] == kvs[i] && d[j] == kvs[j]);
    }
    lemma_fill_distinct(cap, d);
    assert forall|i: int| 0 <= i < d.len() implies d[i].0 != kvs.last().0 by {
        assert(d[i] == kvs[i]);
        assert(kvs[i].0 != kvs[kvs.len() - 1].0);
    }
    assert(!has_key(d, kvs.last().0));
    lemma_put_fresh_full(d, cap, kvs.last().0, kvs.last().1);
    assert(puts_all(Seq::<(u64, V)>::empty(), cap, kvs) == d.subrange(1, d.len() as int).push(
        kvs.last(),
    ));
    assert(d.subrange(1, d.len() as int).push(kvs.last()) =~= kvs.drop_first());
    assert forall|i: int| 0 <= i < kvs.drop_first().len() implies kvs.drop_first()[i].0
        != kvs[0].0 by {
        assert(kvs.drop_first()[i] == kvs[i + 1]);
        assert(kvs[0].0 != kvs[i + 1].0);
    }
}

} // verus!
