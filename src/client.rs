//! A client facade that hands every call to a cache of its own.
use vstd::prelude::*;
use crate::lru::LRUCache;
use crate::model::{Entry, DEFAULT_TTL_MS, get_entries, get_value, put_entries};

verus! {

pub struct Client<V> {
    cache: LRUCache<V>,
}

impl<V> View for Client<V> {
    type V = Seq<Entry<V>>;

    /// The entries of the underlying cache, most-recently used first.
    closed spec fn view(&self) -> Seq<Entry<V>> {
        self.cache@
    }
}

impl<V: Copy> Client<V> {
    pub closed spec fn wf(&self) -> bool {
        self.cache.wf()
    }

    pub closed spec fn spec_capacity(&self) -> nat {
        self.cache.spec_capacity()
    }

    pub closed spec fn spec_ttl(&self) -> u64 {
        self.cache.spec_ttl()
    }

    /// A client over an empty cache of the given capacity and lifespan (in
    /// milliseconds). The address is kept for a remote server; no connection
    /// is made.
    pub fn new(_host: &str, _port: u16, capacity: usize, expires: Option<u64>) -> (r: Client<V>)
        requires
            capacity >= 1,
        ensures
            r.wf(),
            r@ == Seq::<Entry<V>>::empty(),
            r.spec_capacity() == capacity,
            r.spec_ttl() == match expires {
                Some(t) => t,
                None => DEFAULT_TTL_MS,
            },
    {
        let cache = LRUCache::new(capacity, expires);
        Client { cache }
    }

    /// Looks `key` up in the cache at the current time.
    pub fn get(&mut self, key: u64) -> (r: Option<V>)
        requires
            old(self).wf(),
        ensures
            final(self).wf(),
            final(self).spec_capacity() == old(self).spec_capacity(),
            final(self).spec_ttl() == old(self).spec_ttl(),
            exists|now: u64|
                #![trigger get_entries(old(self)@, key, now)]
                final(self)@ == get_entries(old(self)@, key, now) && r == get_value(
                    old(self)@,
                    key,
                    now,
                ),
    {
        let r = self.cache.get(key);
        proof {
            let now = choose|now: u64|
                #![trigger get_entries(old(self).cache@, key, now)]
                self.cache@ == get_entries(old(self).cache@, key, now) && r == get_value(
                    old(self).cache@,
                    key,
                    now,
                );
            assert(self@ == get_entries(old(self)@, key, now));
        }
        r
    }

    /// Stores `value` under `key` in the cache at the current time.
    pub fn put(&mut self, key: u64, value: V)
        requires
            old(self).wf(),
        ensures
            final(self).wf(),
            final(self).spec_capacity() == old(self).spec_capacity(),
            final(self).spec_ttl() == old(self).spec_ttl(),
            exists|now: u64|
                #![trigger put_entries(old(self)@, old(self).spec_capacity(), old(self).spec_ttl(), key, value, now)]
                final(self)@ == put_entries(
                    old(self)@,
                    old(self).spec_capacity(),
                    old(self).spec_ttl(),
                    key,
                    value,
                    now,
                ),
    {
        self.cache.put(key, value);
        proof {
            let now = choose|now: u64|
                #![trigger put_entries(old(self).cache@, old(self).spec_capacity(), old(self).spec_ttl(), key, value, now)]
                self.cache@ == put_entries(
                    old(self).cache@,
                    old(self).spec_capacity(),
                    old(self).spec_ttl(),
                    key,
                    value,
                    now,
                );
            assert(self@ == put_entries(
                old(self)@,
                old(self).spec_capacity(),
                old(self).spec_ttl(),
                key,
                value,
                now,
            ));
        }
    }
}

} // verus!
