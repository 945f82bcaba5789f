//! The mathematical model of the cache: a sequence of entries ordered from
//! most- to least-recently used, and the effect of each operation on it.
use vstd::prelude::*;

verus! {

/// What the cache holds for one key, as seen from outside.
pub struct Entry<V> {
    pub key: u64,
    pub value: V,
    /// The instant (in milliseconds) from which the entry counts as expired.
    pub expires_at: u64,
}

/// The lifespan given to entries when the cache is built without one:
/// one hour, in milliseconds.
pub const DEFAULT_TTL_MS: u64 = 3_600_000;

/// The instant at which an entry stored at `now` with lifespan `ttl` expires,
/// held at the largest representable instant.
pub open spec fn expiry(now: u64, ttl: u64) -> u64 {
    if now + ttl > u64::MAX {
        u64::MAX
    } else {
        (now + ttl) as u64
    }
}

/// An entry is dead from its expiry instant on.
pub open spec fn expired<V>(e: Entry<V>, now: u64) -> bool {
    now >= e.expires_at
}

pub open spec fn key_at<V>(s: Seq<Entry<V>>, k: u64, i: int) -> bool {
    0 <= i < s.len() && s[i].key == k
}

pub open spec fn has_key<V>(s: Seq<Entry<V>>, k: u64) -> bool {
    exists|i: int| key_at(s, k, i)
}

/// No two entries share a key.
pub open spec fn keys_distinct<V>(s: Seq<Entry<V>>) -> bool {
    forall|i: int, j: int| 0 <= i < s.len() && 0 <= j < s.len() && i != j ==> s[i].key != s[j].key
}

/// The position of key `k`, or -1 where no entry holds it.
pub open spec fn find<V>(s: Seq<Entry<V>>, k: u64) -> int {
    if has_key(s, k) {
        choose|i: int| key_at(s, k, i)
    } else {
        -1
    }
}

/// The entries after a lookup of `k` at `now`: a live entry moves to the
/// front, an expired one is dropped.
pub open spec fn get_entries<V>(s: Seq<Entry<V>>, k: u64, now: u64) -> Seq<Entry<V>> {
    let i = find(s, k);
    if i < 0 {
        s
    } else if expired(s[i], now) {
        s.remove(i)
    } else {
        seq![s[i]] + s.remove(i)
    }
}

/// What a lookup of `k` at `now` returns.
pub open spec fn get_value<V>(s: Seq<Entry<V>>, k: u64, now: u64) -> Option<V> {
    let i = find(s, k);
    if i < 0 || expired(s[i], now) {
        None
    } else {
        Some(s[i].value)
    }
}

/// The entries after storing `v` under `k` at `now`: the entry goes to the
/// front with a fresh expiry; a new key in a full cache pushes out the
/// least-recently-used entry.
pub open spec fn put_entries<V>(
    s: Seq<Entry<V>>,
    capacity: nat,
    ttl: u64,
    k: u64,
    v: V,
    now: u64,
) -> Seq<Entry<V>> {
    let e = Entry { key: k, value: v, expires_at: expiry(now, ttl) };
    let i = find(s, k);
    if i >= 0 {
        seq![e] + s.remove(i)
    } else if s.len() >= capacity {
        seq![e] + s.drop_last()
    } else {
        seq![e] + s
    }
}

/// The entries still live at `now`, in their order.
pub open spec fn live_entries<V>(s: Seq<Entry<V>>, now: u64) -> Seq<Entry<V>>
    decreases s.len(),
{
    if s.len() == 0 {
        s
    } else {
        let rest = live_entries(s.drop_last(), now);
        if expired(s.last(), now) {
            rest
        } else {
            rest.push(s.last())
        }
    }
}

/// The (key, value) pairs of a sequence of entries.
pub open spec fn pairs<V>(s: Seq<Entry<V>>) -> Seq<(u64, V)> {
    s.map_values(|e: Entry<V>| (e.key, e.value))
}

/// With distinct keys, `find` gives the one position that holds the key.
pub proof fn lemma_find<V>(s: Seq<Entry<V>>, k: u64, i: int)
    requires
        keys_distinct(s),
        key_at(s, k, i),
    ensures
        find(s, k) == i,
{
    assert(has_key(s, k));
}

/// Without the key, `find` gives -1.
pub proof fn lemma_find_absent<V>(s: Seq<Entry<V>>, k: u64)
    requires
        forall|i: int| 0 <= i < s.len() ==> s[i].key != k,
    ensures
        find(s, k) == -1,
{
}

} // verus!
