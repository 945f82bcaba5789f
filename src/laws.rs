//! Properties of the cache's operations, stated over the model and proved.
use vstd::prelude::*;
use crate::model::{
    Entry, expired, expiry, find, get_entries, get_value, has_key, key_at, keys_distinct,
    lemma_find, lemma_find_absent, put_entries,
};

verus! {

/// Storing keeps keys distinct and puts the new entry at the front.
pub proof fn lemma_put_front<V>(s: Seq<Entry<V>>, capacity: nat, ttl: u64, k: u64, v: V, now: u64)
    requires
        keys_distinct(s),
        1 <= capacity,
    ensures
        keys_distinct(put_entries(s, capacity, ttl, k, v, now)),
        put_entries(s, capacity, ttl, k, v, now)[0] == (Entry { key: k, value: v, expires_at: expiry(now, ttl) }),
        find(put_entries(s, capacity, ttl, k, v, now), k) == 0,
{
    let r = put_entries(s, capacity, ttl, k, v, now);
    let i = find(s, k);
    if i >= 0 {
        assert(key_at(s, k, i));
        assert forall|a: int, b: int| 0 <= a < r.len() && 0 <= b < r.len() && a != b implies r[a].key
            != r[b].key by {
            let ia = if a - 1 < i { a - 1 } else { a };
            let ib = if b - 1 < i { b - 1 } else { b };
            if a > 0 {
                assert(r[a] == s[ia]);
                assert(s[ia].key != s[i].key);
            }
            if b > 0 {
                assert(r[b] == s[ib]);
                assert(s[ib].key != s[i].key);
            }
        }
    } else {
        assert forall|a: int, b: int| 0 <= a < r.len() && 0 <= b < r.len() && a != b implies r[a].key
            != r[b].key by {
            if a > 0 {
                assert(r[a] == s[a - 1]);
                assert(!key_at(s, k, a - 1));
            }
            if b > 0 {
                assert(r[b] == s[b - 1]);
                assert(!key_at(s, k, b - 1));
            }
        }
    }
    assert(key_at(r, k, 0));
    lemma_find(r, k, 0);
}

/// Capacity: storing into a cache within its capacity leaves it within its
/// capacity, with distinct keys.
pub proof fn lemma_put_within_capacity<V>(
    s: Seq<Entry<V>>,
    capacity: nat,
    ttl: u64,
    k: u64,
    v: V,
    now: u64,
)
    requires
        keys_distinct(s),
        1 <= capacity,
        s.len() <= capacity,
    ensures
        put_entries(s, capacity, ttl, k, v, now).len() <= capacity,
        keys_distinct(put_entries(s, capacity, ttl, k, v, now)),
{
    lemma_put_front(s, capacity, ttl, k, v, now);
}

/// The entries after storing each (key, value, instant) of `ops` in turn.
pub open spec fn put_all<V>(
    s: Seq<Entry<V>>,
    capacity: nat,
    ttl: u64,
    ops: Seq<(u64, V, u64)>,
) -> Seq<Entry<V>>
    decreases ops.len(),
{
    if ops.len() == 0 {
        s
    } else {
        let (k, v, now) = ops.last();
        put_entries(put_all(s, capacity, ttl, ops.drop_last()), capacity, ttl, k, v, now)
    }
}

/// Capacity, over any series of stores: from a cache within its capacity,
/// every store of the series leaves the cache within its capacity.
pub proof fn lemma_put_all_within_capacity<V>(
    s: Seq<Entry<V>>,
    capacity: nat,
    ttl: u64,
    ops: Seq<(u64, V, u64)>,
)
    requires
        keys_distinct(s),
        1 <= capacity,
        s.len() <= capacity,
    ensures
        forall|n: int|
            0 <= n <= ops.len() ==> (#[trigger] put_all(s, capacity, ttl, ops.take(n))).len()
                <= capacity,
{
    assert forall|n: int| 0 <= n <= ops.len() implies (#[trigger] put_all(
        s,
        capacity,
        ttl,
        ops.take(n),
    )).len() <= capacity && keys_distinct(put_all(s, capacity, ttl, ops.take(n))) by {
        lemma_put_all_distinct(s, capacity, ttl, ops.take(n));
    }
}

proof fn lemma_put_all_distinct<V>(
    s: Seq<Entry<V>>,
    capacity: nat,
    ttl: u64,
    ops: Seq<(u64, V, u64)>,
)
    requires
        keys_distinct(s),
        1 <= capacity,
        s.len() <= capacity,
    ensures
        put_all(s, capacity, ttl, ops).len() <= capacity,
        keys_distinct(put_all(s, capacity, ttl, ops)),
    decreases ops.len(),
{
    if ops.len() > 0 {
        lemma_put_all_distinct(s, capacity, ttl, ops.drop_last());
        let (k, v, now) = ops.last();
        lemma_put_within_capacity(put_all(s, capacity, ttl, ops.drop_last()), capacity, ttl, k, v, now);
    }
}

/// Keys of `ops` are pairwise different.
pub open spec fn op_keys_distinct<V>(ops: Seq<(u64, V, u64)>) -> bool {
    forall|i: int, j: int| 0 <= i < ops.len() && 0 <= j < ops.len() && i != j ==> ops[i].0 != ops[j].0
}

/// Up to the capacity, storing distinct keys into an empty cache keeps them
/// all, the latest first.
proof fn lemma_distinct_puts_stack<V>(capacity: nat, ttl: u64, ops: Seq<(u64, V, u64)>)
    requires
        1 <= capacity,
        ops.len() <= capacity,
        op_keys_distinct(ops),
    ensures
        put_all(Seq::<Entry<V>>::empty(), capacity, ttl, ops).len() == ops.len(),
        keys_distinct(put_all(Seq::<Entry<V>>::empty(), capacity, ttl, ops)),
        forall|i: int|
            0 <= i < ops.len() ==> (#[trigger] put_all(Seq::<Entry<V>>::empty(), capacity, ttl, ops)[i]).key
                == ops[ops.len() - 1 - i].0,
    decreases ops.len(),
{
    if ops.len() > 0 {
        let pre = ops.drop_last();
        lemma_distinct_puts_stack(capacity, ttl, pre);
        let s = put_all(Seq::<Entry<V>>::empty(), capacity, ttl, pre);
        let (k, v, now) = ops.last();
        assert forall|i: int| 0 <= i < s.len() implies s[i].key != k by {
            assert(s[i].key == ops[pre.len() - 1 - i].0);
        }
        lemma_find_absent(s, k);
        lemma_put_front(s, capacity, ttl, k, v, now);
    }
}

/// Eviction, over a series: storing `capacity + 1` distinct keys into an
/// empty cache evicts exactly the first of them, the least recently touched.
pub proof fn lemma_distinct_puts_evict_first<V>(capacity: nat, ttl: u64, ops: Seq<(u64, V, u64)>)
    requires
        1 <= capacity,
        ops.len() == capacity + 1,
        op_keys_distinct(ops),
    ensures
        put_all(Seq::<Entry<V>>::empty(), capacity, ttl, ops).len() == capacity,
        !has_key(put_all(Seq::<Entry<V>>::empty(), capacity, ttl, ops), ops[0].0),
        forall|j: int|
            1 <= j < ops.len() ==> has_key(
                put_all(Seq::<Entry<V>>::empty(), capacity, ttl, ops),
                #[trigger] ops[j].0,
            ),
{
    let pre = ops.drop_last();
    lemma_distinct_puts_stack(capacity, ttl, pre);
    let s = put_all(Seq::<Entry<V>>::empty(), capacity, ttl, pre);
    let r = put_all(Seq::<Entry<V>>::empty(), capacity, ttl, ops);
    let (k, v, now) = ops.last();
    assert(!has_key(s, k)) by {
        if has_key(s, k) {
            let t = choose|t: int| key_at(s, k, t);
            assert(s[t].key == ops[pre.len() - 1 - t].0);
        }
    }
    lemma_put_evicts_least_recent(s, capacity, ttl, k, v, now);
    assert(s.last().key == ops[0].0);
    assert forall|j: int| 1 <= j < ops.len() implies has_key(r, #[trigger] ops[j].0) by {
        if j < ops.len() - 1 {
            let i = pre.len() - 1 - j;
            assert(s[i].key == ops[j].0);
        }
    }
}

/// Recency: a lookup that finds a live entry makes its key the most-recently
/// used.
pub proof fn lemma_get_makes_most_recent<V>(s: Seq<Entry<V>>, k: u64, now: u64)
    requires
        keys_distinct(s),
        has_key(s, k),
        !expired(s[find(s, k)], now),
    ensures
        get_entries(s, k, now)[0].key == k,
        get_value(s, k, now) == Some(s[find(s, k)].value),
{
}

/// Recency: storing under a key makes it the most-recently used.
pub proof fn lemma_put_makes_most_recent<V>(
    s: Seq<Entry<V>>,
    capacity: nat,
    ttl: u64,
    k: u64,
    v: V,
    now: u64,
)
    requires
        keys_distinct(s),
        1 <= capacity,
    ensures
        put_entries(s, capacity, ttl, k, v, now)[0].key == k,
{
    lemma_put_front(s, capacity, ttl, k, v, now);
}

/// Eviction: storing a new key into a full cache pushes out exactly the
/// least-recently-used entry and keeps every other one.
pub proof fn lemma_put_evicts_least_recent<V>(
    s: Seq<Entry<V>>,
    capacity: nat,
    ttl: u64,
    k: u64,
    v: V,
    now: u64,
)
    requires
        keys_distinct(s),
        1 <= capacity,
        s.len() == capacity,
        !has_key(s, k),
    ensures
        put_entries(s, capacity, ttl, k, v, now).len() == capacity,
        has_key(put_entries(s, capacity, ttl, k, v, now), k),
        !has_key(put_entries(s, capacity, ttl, k, v, now), s.last().key),
        forall|j: int|
            0 <= j < s.len() - 1 ==> has_key(put_entries(s, capacity, ttl, k, v, now), #[trigger] s[j].key),
{
    let r = put_entries(s, capacity, ttl, k, v, now);
    assert forall|i: int| 0 <= i < s.len() implies s[i].key != k by {
        assert(!key_at(s, k, i));
    }
    lemma_find_absent(s, k);
    assert(r == seq![Entry { key: k, value: v, expires_at: expiry(now, ttl) }] + s.drop_last());
    assert(key_at(r, k, 0));
    assert forall|j: int| 0 <= j < s.len() - 1 implies has_key(r, #[trigger] s[j].key) by {
        assert(key_at(r, s[j].key, j + 1));
    }
    if has_key(r, s.last().key) {
        let t = choose|t: int| key_at(r, s.last().key, t);
        if t == 0 {
            assert(key_at(s, k, s.len() - 1));
        } else {
            assert(r[t] == s[t - 1]);
        }
    }
}

/// Expiry: a lookup that meets an expired entry returns nothing and drops it.
pub proof fn lemma_get_drops_expired<V>(s: Seq<Entry<V>>, k: u64, now: u64)
    requires
        keys_distinct(s),
        has_key(s, k),
        expired(s[find(s, k)], now),
    ensures
        get_value(s, k, now).is_none(),
        !has_key(get_entries(s, k, now), k),
{
    let i = find(s, k);
    let g = get_entries(s, k, now);
    if has_key(g, k) {
        let t = choose|t: int| key_at(g, k, t);
        if t < i {
            assert(g[t] == s[t]);
        } else {
            assert(g[t] == s[t + 1]);
        }
    }
}

/// Expiry: an entry stored with lifespan `ttl` at `stored` is, from
/// `stored + ttl` on, not returned by a lookup and is dropped by it.
pub proof fn lemma_expired_entry_dropped<V>(
    s: Seq<Entry<V>>,
    capacity: nat,
    ttl: u64,
    k: u64,
    v: V,
    stored: u64,
    now: u64,
)
    requires
        keys_distinct(s),
        1 <= capacity,
        now >= stored + ttl,
    ensures
        get_value(put_entries(s, capacity, ttl, k, v, stored), k, now).is_none(),
        !has_key(get_entries(put_entries(s, capacity, ttl, k, v, stored), k, now), k),
{
    let r = put_entries(s, capacity, ttl, k, v, stored);
    lemma_put_front(s, capacity, ttl, k, v, stored);
    assert(key_at(r, k, 0));
    lemma_get_drops_expired(r, k, now);
}

/// No refresh on read: a lookup moves a live entry to the front unchanged,
/// expiry included, and brings in no entry that was not there.
pub proof fn lemma_get_keeps_expiry<V>(s: Seq<Entry<V>>, k: u64, now: u64)
    requires
        keys_distinct(s),
        has_key(s, k),
    ensures
        !expired(s[find(s, k)], now) ==> get_entries(s, k, now)[0] == s[find(s, k)],
        forall|j: int|
            0 <= j < get_entries(s, k, now).len() ==> s.contains(#[trigger] get_entries(s, k, now)[j]),
{
    let i = find(s, k);
    let g = get_entries(s, k, now);
    assert forall|j: int| 0 <= j < g.len() implies s.contains(#[trigger] g[j]) by {
        if expired(s[i], now) {
            if j < i {
                assert(g[j] == s[j]);
            } else {
                assert(g[j] == s[j + 1]);
            }
        } else if j == 0 {
            assert(g[0] == s[i]);
        } else if j - 1 < i {
            assert(g[j] == s[j - 1]);
        } else {
            assert(g[j] == s[j]);
        }
    }
}

/// Overwrite: storing `v1` then `v2` under one key leaves the number of
/// entries as the first store left it, and a lookup before the second
/// store's expiry returns `v2`.
pub proof fn lemma_overwrite<V>(
    s: Seq<Entry<V>>,
    capacity: nat,
    ttl: u64,
    k: u64,
    v1: V,
    v2: V,
    t1: u64,
    t2: u64,
    t3: u64,
)
    requires
        keys_distinct(s),
        1 <= capacity,
        s.len() <= capacity,
        t3 < expiry(t2, ttl),
    ensures
        put_entries(put_entries(s, capacity, ttl, k, v1, t1), capacity, ttl, k, v2, t2).len()
            == put_entries(s, capacity, ttl, k, v1, t1).len(),
        get_value(put_entries(put_entries(s, capacity, ttl, k, v1, t1), capacity, ttl, k, v2, t2), k, t3)
            == Some(v2),
{
    let s1 = put_entries(s, capacity, ttl, k, v1, t1);
    lemma_put_front(s, capacity, ttl, k, v1, t1);
    lemma_put_front(s1, capacity, ttl, k, v2, t2);
}

} // verus!
