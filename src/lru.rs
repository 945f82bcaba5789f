//! The cache: an arena of nodes linked in recency order, most-recently used
//! at the head, with a hash index from key to node handle.
use crate::clock::millis_since;
use crate::model::{
    DEFAULT_TTL_MS, Entry, expiry, find, get_entries, get_value, key_at, keys_distinct, lemma_find,
    lemma_find_absent, live_entries, pairs, put_entries,
};
use std::collections::HashMap;
use std::time::Instant;
use vstd::prelude::*;

verus! {

broadcast use vstd::std_specs::hash::group_hash_axioms;

/// One slot of the arena: an entry and its neighbours in recency order.
pub struct Node<V> {
    key: u64,
    value: V,
    expires_at: u64,
    prev: Option<usize>,
    next: Option<usize>,
}

/// A cache of at most `capacity` entries. Each entry lives `expires`
/// milliseconds from its last store; lookups do not extend it.
pub struct LRUCache<V> {
    map: HashMap<u64, usize>,
    nodes: Vec<Node<V>>,
    free: Vec<usize>,
    len: usize,
    expires: u64,
    head: Option<usize>,
    tail: Option<usize>,
    capacity: usize,
    /// The instant that the cache's millisecond readings count from.
    origin: Instant,
    /// The handles of the linked nodes, from head to tail.
    order: Ghost<Seq<usize>>,
}

spec fn entry_of<V>(n: Node<V>) -> Entry<V> {
    Entry { key: n.key, value: n.value, expires_at: n.expires_at }
}

/// The nodes reachable from `head` are exactly `ord`, linked both ways.
spec fn links_ok<V>(
    nodes: Seq<Node<V>>,
    ord: Seq<usize>,
    head: Option<usize>,
    tail: Option<usize>,
) -> bool {
    &&& ord.no_duplicates()
    &&& forall|i: int| 0 <= i < ord.len() ==> (#[trigger] ord[i] as int) < nodes.len()
    &&& forall|i: int|
        0 <= i < ord.len() ==> (#[trigger] nodes[ord[i] as int]).prev == if i == 0 {
            None
        } else {
            Some(ord[i - 1])
        }
    &&& forall|i: int|
        0 <= i < ord.len() ==> (#[trigger] nodes[ord[i] as int]).next == if i + 1 == ord.len() {
            None
        } else {
            Some(ord[i + 1])
        }
    &&& head == if ord.len() == 0 {
        None
    } else {
        Some(ord[0])
    }
    &&& tail == if ord.len() == 0 {
        None
    } else {
        Some(ord.last())
    }
}

/// The index maps the key of each linked node to that node, and nothing else.
spec fn index_ok<V>(map: Map<u64, usize>, nodes: Seq<Node<V>>, ord: Seq<usize>) -> bool {
    &&& forall|i: int|
        0 <= i < ord.len() ==> map.contains_key(#[trigger] nodes[ord[i] as int].key)
            && map[nodes[ord[i] as int].key] == ord[i]
    &&& forall|k: u64|
        #[trigger] map.contains_key(k) ==> ord.contains(map[k]) && nodes[map[k] as int].key == k
}

/// The free handles are in the arena, not linked, and listed once each.
spec fn free_ok<V>(free: Seq<usize>, nodes: Seq<Node<V>>, ord: Seq<usize>) -> bool {
    &&& free.no_duplicates()
    &&& forall|j: int|
        0 <= j < free.len() ==> (#[trigger] free[j] as int) < nodes.len() && !ord.contains(free[j])
}

spec fn entries_of<V>(nodes: Seq<Node<V>>, ord: Seq<usize>) -> Seq<Entry<V>> {
    ord.map_values(|h: usize| entry_of(nodes[h as int]))
}

impl<V> View for LRUCache<V> {
    type V = Seq<Entry<V>>;

    /// The entries, most-recently used first.
    closed spec fn view(&self) -> Seq<Entry<V>> {
        entries_of(self.nodes@, self.order@)
    }
}

/// Re-ordering the linked handles, without touching the entries they hold,
/// keeps the index and the free list valid.
proof fn lemma_reorder<V>(
    map: Map<u64, usize>,
    free: Seq<usize>,
    nodes: Seq<Node<V>>,
    nodes2: Seq<Node<V>>,
    ord: Seq<usize>,
    ord2: Seq<usize>,
)
    requires
        index_ok(map, nodes, ord),
        free_ok(free, nodes, ord),
        nodes2.len() == nodes.len(),
        forall|x: int| 0 <= x < nodes.len() ==> entry_of(#[trigger] nodes2[x]) == entry_of(nodes[x]),
        forall|x: usize| ord2.contains(x) <==> ord.contains(x),
        forall|i: int| 0 <= i < ord.len() ==> (#[trigger] ord[i] as int) < nodes.len(),
    ensures
        index_ok(map, nodes2, ord2),
        free_ok(free, nodes2, ord2),
{
    assert forall|j: int| 0 <= j < ord2.len() implies map.contains_key(
        #[trigger] nodes2[ord2[j] as int].key,
    ) && map[nodes2[ord2[j] as int].key] == ord2[j] by {
        assert(ord2.contains(ord2[j]));
        let t = choose|t: int| 0 <= t < ord.len() && ord[t] == ord2[j];
        assert(entry_of(nodes2[ord[t] as int]) == entry_of(nodes[ord[t] as int]));
    }
    assert forall|k: u64| #[trigger] map.contains_key(k) implies ord2.contains(map[k])
        && nodes2[map[k] as int].key == k by {
        let t = choose|t: int| 0 <= t < ord.len() && ord[t] == map[k];
        assert(entry_of(nodes2[map[k] as int]) == entry_of(nodes[map[k] as int]));
    }
}

impl<V: Copy> LRUCache<V> {
    /// The greatest number of entries the cache keeps.
    pub closed spec fn spec_capacity(&self) -> nat {
        self.capacity as nat
    }

    /// The lifespan, in milliseconds, given to each stored entry.
    pub closed spec fn spec_ttl(&self) -> u64 {
        self.expires
    }

    /// The cache's internal invariant.
    pub closed spec fn wf(&self) -> bool {
        &&& links_ok(self.nodes@, self.order@, self.head, self.tail)
        &&& index_ok(self.map@, self.nodes@, self.order@)
        &&& free_ok(self.free@, self.nodes@, self.order@)
        &&& self.len as int == self.order@.len()
        &&& 1 <= self.capacity
        &&& self.order@.len() <= self.capacity
    }

    /// Capacity: a well-formed cache holds entries with distinct keys, and no
    /// more of them than its capacity.
    pub proof fn lemma_within_capacity(&self)
        requires
            self.wf(),
        ensures
            keys_distinct(self@),
            self@.len() <= self.spec_capacity(),
    {
        self.lemma_wf_distinct();
    }

    proof fn lemma_wf_distinct(&self)
        requires
            self.wf(),
        ensures
            keys_distinct(self@),
            self@.len() == self.order@.len(),
            self@.len() <= self.spec_capacity(),
    {
        assert forall|i: int, j: int|
            0 <= i < self@.len() && 0 <= j < self@.len() && i != j implies self@[i].key
            != self@[j].key by {
            let ord = self.order@;
            if self@[i].key == self@[j].key {
                assert(self.map@[self.nodes@[ord[i] as int].key] == ord[i]);
                assert(self.map@[self.nodes@[ord[j] as int].key] == ord[j]);
            }
        }
    }

    /// Unlinks the node at position `i` of the recency order, patching its
    /// neighbours (or the head and tail).
    fn detach_node(&mut self, h: usize, Ghost(i): Ghost<int>)
        requires
            links_ok(old(self).nodes@, old(self).order@, old(self).head, old(self).tail),
            0 <= i < old(self).order@.len(),
            old(self).order@[i] == h,
        ensures
            links_ok(final(self).nodes@, final(self).order@, final(self).head, final(self).tail),
            final(self).order@ == old(self).order@.remove(i),
            final(self).nodes@.len() == old(self).nodes@.len(),
            forall|x: int|
                0 <= x < old(self).nodes@.len() ==> entry_of(#[trigger] final(self).nodes@[x])
                    == entry_of(old(self).nodes@[x]),
            final(self).map == old(self).map,
            final(self).free == old(self).free,
            final(self).len == old(self).len,
            final(self).expires == old(self).expires,
            final(self).capacity == old(self).capacity,
    {
        let ghost ord = self.order@;
        let prev = self.nodes[h].prev;
        let next = self.nodes[h].next;
        match prev {
            Some(p) => {
                self.nodes[p].next = next;
            },
            None => {
                self.head = next;
            },
        }
        match next {
            Some(n) => {
                self.nodes[n].prev = prev;
            },
            None => {
                self.tail = prev;
            },
        }
        self.order = Ghost(ord.remove(i));
        proof {
            let nord = self.order@;
            assert forall|j: int| 0 <= j < nord.len() implies nord[j] == if j < i {
                ord[j]
            } else {
                ord[j + 1]
            } by {}
            assert forall|j: int| 0 <= j < nord.len() implies #[trigger] self.nodes@[nord[j] as int].prev == if j == 0 {
                None
            } else {
                Some(nord[j - 1])
            } by {
                if j < i {
                    assert(ord[j] != ord[i]);
                    if i > 0 { assert(ord[j] != ord[i - 1] || j == i - 1); }
                } else {
                    assert(ord[j + 1] != ord[i]);
                }
            }
            assert forall|j: int| 0 <= j < nord.len() implies #[trigger] self.nodes@[nord[j] as int].next == if j + 1 == nord.len() {
                None
            } else {
                Some(nord[j + 1])
            } by {
                if j < i {
                    assert(ord[j] != ord[i]);
                } else {
                    assert(ord[j + 1] != ord[i]);
                    assert(ord[j + 1] != ord[i + 1] || j + 1 == i + 1);
                }
            }
        }
    }
    /// Links the unlinked node `h` in front of the head.
    fn push_front(&mut self, h: usize)
        requires
            links_ok(old(self).nodes@, old(self).order@, old(self).head, old(self).tail),
            (h as int) < old(self).nodes@.len(),
            !old(self).order@.contains(h),
        ensures
            links_ok(final(self).nodes@, final(self).order@, final(self).head, final(self).tail),
            final(self).order@ == seq![h] + old(self).order@,
            final(self).nodes@.len() == old(self).nodes@.len(),
            forall|x: int|
                0 <= x < old(self).nodes@.len() ==> entry_of(#[trigger] final(self).nodes@[x])
                    == entry_of(old(self).nodes@[x]),
            final(self).map == old(self).map,
            final(self).free == old(self).free,
            final(self).len == old(self).len,
            final(self).expires == old(self).expires,
            final(self).capacity == old(self).capacity,
    {
        let ghost ord = self.order@;
        let old_head = self.head;
        self.nodes[h].prev = None;
        self.nodes[h].next = old_head;
        match old_head {
            Some(o) => {
                self.nodes[o].prev = Some(h);
            },
            None => {
                self.tail = Some(h);
            },
        }
        self.head = Some(h);
        self.order = Ghost(seq![h] + ord);
        proof {
            let nord = self.order@;
            assert forall|j: int| 0 < j < nord.len() implies nord[j] == ord[j - 1] && nord[j] != h by {}
            assert(nord.no_duplicates()) by {
                assert forall|a: int, b: int| 0 <= a < nord.len() && 0 <= b < nord.len() && a != b
                    implies nord[a] != nord[b] by {
                    if a > 0 && b > 0 {
                        assert(ord[a - 1] != ord[b - 1]);
                    }
                }
            }
            assert forall|j: int| 0 <= j < nord.len() implies #[trigger] self.nodes@[nord[j] as int].prev == if j == 0 {
                None
            } else {
                Some(nord[j - 1])
            } by {
                if j > 1 {
                    assert(ord[j - 1] != ord[0]);
                }
            }
            assert forall|j: int| 0 <= j < nord.len() implies #[trigger] self.nodes@[nord[j] as int].next == if j + 1 == nord.len() {
                None
            } else {
                Some(nord[j + 1])
            } by {
                if j > 0 {
                    assert(ord[j - 1] != h);
                    if j > 1 { assert(ord[j - 1] != ord[0]); }
                }
            }
        }
    }

    /// Moves the node at position `i` of the recency order to the head.
    fn move_to_head(&mut self, h: usize, Ghost(i): Ghost<int>)
        requires
            links_ok(old(self).nodes@, old(self).order@, old(self).head, old(self).tail),
            0 <= i < old(self).order@.len(),
            old(self).order@[i] == h,
        ensures
            links_ok(final(self).nodes@, final(self).order@, final(self).head, final(self).tail),
            final(self).order@ == seq![h] + old(self).order@.remove(i),
            forall|x: usize| final(self).order@.contains(x) <==> old(self).order@.contains(x),
            final(self).nodes@.len() == old(self).nodes@.len(),
            forall|x: int|
                0 <= x < old(self).nodes@.len() ==> entry_of(#[trigger] final(self).nodes@[x])
                    == entry_of(old(self).nodes@[x]),
            final(self).map == old(self).map,
            final(self).free == old(self).free,
            final(self).len == old(self).len,
            final(self).expires == old(self).expires,
            final(self).capacity == old(self).capacity,
    {
        let ghost ord = self.order@;
        self.detach_node(h, Ghost(i));
        proof {
            assert forall|j: int| 0 <= j < ord.remove(i).len() implies ord.remove(i)[j] != h by {
                if j < i {
                    assert(ord[j] != ord[i]);
                } else {
                    assert(ord[j + 1] != ord[i]);
                }
            }
        }
        self.push_front(h);
        proof {
            let nord = self.order@;
            assert forall|x: usize| nord.contains(x) <==> ord.contains(x) by {
                if ord.contains(x) && x != h {
                    let t = choose|t: int| 0 <= t < ord.len() && ord[t] == x;
                    if t < i {
                        assert(nord[t + 1] == x);
                    } else {
                        assert(t != i);
                        assert(nord[t] == x);
                    }
                }
                if nord.contains(x) && x != h {
                    let t = choose|t: int| 0 <= t < nord.len() && nord[t] == x;
                    if t - 1 < i {
                        assert(ord[t - 1] == x);
                    } else {
                        assert(ord[t] == x);
                    }
                }
                if x == h {
                    assert(nord[0] == h);
                }
            }
        }
    }
    /// Where the index holds `key`, its handle, its position in the recency
    /// order and the matching position among the entries.
    proof fn lemma_lookup(&self, key: u64)
        requires
            self.wf(),
        ensures
            self.map@.contains_key(key) ==> {
                let h = self.map@[key];
                let i = find(self@, key);
                &&& 0 <= i < self.order@.len()
                &&& self.order@[i] == h
                &&& (h as int) < self.nodes@.len()
                &&& self@[i] == entry_of(self.nodes@[h as int])
            },
            !self.map@.contains_key(key) ==> find(self@, key) == -1,
    {
        self.lemma_wf_distinct();
        let ord = self.order@;
        if self.map@.contains_key(key) {
            let h = self.map@[key];
            assert(ord.contains(h));
            let i = choose|i: int| 0 <= i < ord.len() && ord[i] == h;
            assert(key_at(self@, key, i));
            lemma_find(self@, key, i);
        } else {
            assert forall|i: int| 0 <= i < self@.len() implies self@[i].key != key by {
                assert(self.map@.contains_key(self.nodes@[ord[i] as int].key));
            }
            lemma_find_absent(self@, key);
        }
    }

    /// Takes the entry of `key` out of the cache, returning its key and value;
    /// an absent key leaves the cache as it was.
    fn remove(&mut self, key: u64) -> (r: Option<(u64, V)>)
        requires
            old(self).wf(),
        ensures
            final(self).wf(),
            final(self).spec_capacity() == old(self).spec_capacity(),
            final(self).spec_ttl() == old(self).spec_ttl(),
            ({
                let i = find(old(self)@, key);
                if i >= 0 {
                    &&& final(self)@ == old(self)@.remove(i)
                    &&& final(self).order@ == old(self).order@.remove(i)
                    &&& r == Some((key, old(self)@[i].value))
                } else {
                    &&& final(self)@ == old(self)@
                    &&& r.is_none()
                }
            }),
    {
        proof {
            self.lemma_lookup(key);
            self.lemma_wf_distinct();
        }
        let ghost old_view = self@;
        let ghost ord = self.order@;
        let ghost nodes = self.nodes@;
        let ghost map = self.map@;
        match self.map.remove(&key) {
            None => None,
            Some(h) => {
                let ghost i = find(old_view, key);
                self.detach_node(h, Ghost(i));
                self.free.push(h);
                self.len = self.len - 1;
                proof {
                    let nord = self.order@;
                    assert forall|j: int| 0 <= j < nord.len() implies nord[j] == if j < i {
                        ord[j]
                    } else {
                        ord[j + 1]
                    } && nord[j] != h by {
                        if j < i {
                            assert(ord[j] != ord[i]);
                        } else {
                            assert(ord[j + 1] != ord[i]);
                        }
                    }
                    assert(self@ =~= old_view.remove(i));
                    assert forall|j: int| 0 <= j < nord.len() implies self.map@.contains_key(
                        #[trigger] self.nodes@[nord[j] as int].key,
                    ) && self.map@[self.nodes@[nord[j] as int].key] == nord[j] by {
                        let jj = if j < i { j } else { j + 1 };
                        assert(map.contains_key(nodes[ord[jj] as int].key));
                        assert(old_view[jj].key != old_view[i].key);
                    }
                    assert forall|k: u64| #[trigger] self.map@.contains_key(k) implies nord.contains(
                        self.map@[k],
                    ) && self.nodes@[self.map@[k] as int].key == k by {
                        assert(map.contains_key(k));
                        let jj = choose|jj: int| 0 <= jj < ord.len() && ord[jj] == map[k];
                        assert(jj != i);
                        if jj < i {
                            assert(nord[jj] == ord[jj]);
                        } else {
                            assert(nord[jj - 1] == ord[jj]);
                        }
                    }
                    assert forall|j: int| 0 <= j < self.free@.len() implies (#[trigger] self.free@[j] as int)
                        < self.nodes@.len() && !nord.contains(self.free@[j]) by {
                        if j < self.free@.len() - 1 {
                            assert(!ord.contains(self.free@[j]));
                            if nord.contains(self.free@[j]) {
                                let t = choose|t: int| 0 <= t < nord.len() && nord[t] == self.free@[j];
                                if t < i {
                                    assert(ord[t] == self.free@[j]);
                                } else {
                                    assert(ord[t + 1] == self.free@[j]);
                                }
                            }
                        }
                    }
                    assert(self.free@.no_duplicates()) by {
                        assert forall|a: int| 0 <= a < self.free@.len() - 1 implies self.free@[a] != h by {
                            assert(!ord.contains(self.free@[a]));
                        }
                    }
                }
                Some((self.nodes[h].key, self.nodes[h].value))
            },
        }
    }
    /// Looks `key` up at instant `now` (in milliseconds). A live entry is
    /// returned and becomes the most-recently used, keeping its expiry; an
    /// expired one is dropped and nothing is returned.
    pub fn get_at(&mut self, key: u64, now: u64) -> (r: Option<V>)
        requires
            old(self).wf(),
        ensures
            final(self).wf(),
            final(self).spec_capacity() == old(self).spec_capacity(),
            final(self).spec_ttl() == old(self).spec_ttl(),
            final(self)@ == get_entries(old(self)@, key, now),
            r == get_value(old(self)@, key, now),
    {
        proof {
            self.lemma_lookup(key);
        }
        let found = match self.map.get(&key) {
            Some(h) => Some(*h),
            None => None,
        };
        match found {
            None => None,
            Some(h) => {
                if now >= self.nodes[h].expires_at {
                    let _ = self.remove(key);
                    None
                } else {
                    let v = self.nodes[h].value;
                    let ghost i = find(self@, key);
                    let ghost old_view = self@;
                    let ghost nodes = self.nodes@;
                    let ghost ord = self.order@;
                    self.move_to_head(h, Ghost(i));
                    proof {
                        lemma_reorder(self.map@, self.free@, nodes, self.nodes@, ord, self.order@);
                        let nord = self.order@;
                        assert forall|j: int| 0 < j < nord.len() implies nord[j] == if j - 1 < i {
                            ord[j - 1]
                        } else {
                            ord[j]
                        } by {}
                        assert(self@ =~= seq![old_view[i]] + old_view.remove(i));
                    }
                    Some(v)
                }
            },
        }
    }
    /// An empty cache keeping at most `capacity` entries, each living for
    /// `expires` milliseconds (one hour when not given).
    pub fn new(capacity: usize, expires: Option<u64>) -> (r: LRUCache<V>)
        requires
            capacity >= 1,
        ensures
            r.wf(),
            r@ == Seq::<Entry<V>>::empty(),
            r.spec_capacity() == capacity,
            r.spec_ttl() == match expires {
                Some(t) => t,
                None => DEFAULT_TTL_MS,
            },
    {
        let expires = match expires {
            Some(t) => t,
            None => DEFAULT_TTL_MS,
        };
        let r = LRUCache {
            map: HashMap::new(),
            nodes: Vec::new(),
            free: Vec::new(),
            len: 0,
            expires,
            head: None,
            tail: None,
            capacity,
            origin: Instant::now(),
            order: Ghost(Seq::empty()),
        };
        assert(r@ =~= Seq::<Entry<V>>::empty());
        r
    }

    /// Links a new entry for the absent `key` at the head, in a cache with
    /// room for it.
    fn insert_new(&mut self, key: u64, value: V, expires_at: u64)
        requires
            old(self).wf(),
            find(old(self)@, key) == -1,
            old(self)@.len() < old(self).spec_capacity(),
        ensures
            final(self).wf(),
            final(self).spec_capacity() == old(self).spec_capacity(),
            final(self).spec_ttl() == old(self).spec_ttl(),
            final(self)@ == seq![Entry { key, value, expires_at }] + old(self)@,
    {
        proof {
            self.lemma_lookup(key);
            self.lemma_wf_distinct();
        }
        let ghost old_view = self@;
        let ghost ord = self.order@;
        let ghost nodes = self.nodes@;
        let node = Node { key, value, expires_at, prev: None, next: None };
        let h = match self.free.pop() {
            Some(h) => {
                self.nodes.set(h, node);
                h
            },
            None => {
                self.nodes.push(node);
                self.nodes.len() - 1
            },
        };
        proof {
            assert(!ord.contains(h));
            assert forall|j: int| 0 <= j < ord.len() implies ord[j] != h && self.nodes@[ord[j] as int]
                == nodes[ord[j] as int] by {}
            assert(links_ok(self.nodes@, ord, self.head, self.tail));
        }
        self.push_front(h);
        self.map.insert(key, h);
        self.len = self.len + 1;
        proof {
            let nord = self.order@;
            assert forall|j: int| 0 < j < nord.len() implies nord[j] == ord[j - 1] && nord[j] != h
                && entry_of(self.nodes@[nord[j] as int]) == entry_of(nodes[ord[j - 1] as int]) by {}
            assert(self@ =~= seq![Entry { key, value, expires_at }] + old_view);
            assert forall|j: int| 0 <= j < nord.len() implies self.map@.contains_key(
                #[trigger] self.nodes@[nord[j] as int].key,
            ) && self.map@[self.nodes@[nord[j] as int].key] == nord[j] by {
                if j > 0 {
                    assert(old_view[j - 1].key != key);
                }
            }
            assert forall|k: u64| #[trigger] self.map@.contains_key(k) implies nord.contains(
                self.map@[k],
            ) && self.nodes@[self.map@[k] as int].key == k by {
                if k == key {
                    assert(nord[0] == h);
                } else {
                    let t = choose|t: int| 0 <= t < ord.len() && ord[t] == self.map@[k];
                    assert(nord[t + 1] == ord[t]);
                }
            }
            assert forall|j: int| 0 <= j < self.free@.len() implies (#[trigger] self.free@[j] as int)
                < self.nodes@.len() && !nord.contains(self.free@[j]) by {
                assert(self.free@[j] != h);
                if nord.contains(self.free@[j]) {
                    let t = choose|t: int| 0 <= t < nord.len() && nord[t] == self.free@[j];
                    assert(ord[t - 1] == self.free@[j]);
                }
            }
        }
    }

    /// Stores `value` under `key` at instant `now` (in milliseconds). The
    /// entry becomes the most-recently used and expires `ttl` after `now`; a
    /// new key in a full cache first pushes out the least-recently-used entry.
    pub fn put_at(&mut self, key: u64, value: V, now: u64)
        requires
            old(self).wf(),
        ensures
            final(self).wf(),
            final(self).spec_capacity() == old(self).spec_capacity(),
            final(self).spec_ttl() == old(self).spec_ttl(),
            final(self)@ == put_entries(
                old(self)@,
                old(self).spec_capacity(),
                old(self).spec_ttl(),
                key,
                value,
                now,
            ),
    {
        proof {
            self.lemma_lookup(key);
            self.lemma_wf_distinct();
        }
        let expires_at = now.saturating_add(self.expires);
        assert(expires_at == expiry(now, self.expires));
        let found = match self.map.get(&key) {
            Some(h) => Some(*h),
            None => None,
        };
        match found {
            Some(h) => {
                let ghost i = find(self@, key);
                let ghost old_view = self@;
                let ghost ord = self.order@;
                self.nodes[h].value = value;
                self.nodes[h].expires_at = expires_at;
                proof {
                    assert(links_ok(self.nodes@, ord, self.head, self.tail));
                    assert(index_ok(self.map@, self.nodes@, ord));
                    assert(self@ =~= old_view.update(i, Entry { key, value, expires_at }));
                }
                let ghost nodes1 = self.nodes@;
                let ghost view1 = self@;
                self.move_to_head(h, Ghost(i));
                proof {
                    lemma_reorder(self.map@, self.free@, nodes1, self.nodes@, ord, self.order@);
                    let nord = self.order@;
                    assert forall|j: int| 0 < j < nord.len() implies nord[j] == if j - 1 < i {
                        ord[j - 1]
                    } else {
                        ord[j]
                    } by {}
                    assert(self@ =~= seq![view1[i]] + view1.remove(i));
                    assert(self@ =~= seq![Entry { key, value, expires_at }] + old_view.remove(i));
                }
            },
            None => {
                if self.len >= self.capacity {
                    let ghost old_view = self@;
                    let t = self.tail.unwrap();
                    let tk = self.nodes[t].key;
                    proof {
                        let last = old_view.len() - 1;
                        assert(key_at(old_view, tk, last));
                        lemma_find(old_view, tk, last);
                    }
                    let _ = self.remove(tk);
                    proof {
                        assert(self@ =~= old_view.drop_last());
                        assert forall|j: int| 0 <= j < self@.len() implies self@[j].key != key by {
                            assert(self@[j] == old_view[j]);
                        }
                        lemma_find_absent(self@, key);
                    }
                }
                self.insert_new(key, value, expires_at);
            },
        }
    }
    /// Lists the live entries at instant `now` (in milliseconds), most-recently
    /// used first, as (key, value) pairs; the expired ones met on the way are
    /// dropped from the cache.
    pub fn print_at(&mut self, now: u64) -> (r: Vec<(u64, V)>)
        requires
            old(self).wf(),
        ensures
            final(self).wf(),
            final(self).spec_capacity() == old(self).spec_capacity(),
            final(self).spec_ttl() == old(self).spec_ttl(),
            final(self)@ == live_entries(old(self)@, now),
            r@ == pairs(live_entries(old(self)@, now)),
    {
        let ghost s0 = self@;
        let mut out: Vec<(u64, V)> = Vec::new();
        let mut current = self.head;
        let ghost mut j: int = 0;
        proof {
            assert(s0.take(0) =~= Seq::<Entry<V>>::empty());
            assert(self@ =~= live_entries(s0.take(0), now) + s0.skip(0));
            assert(out@ =~= pairs(live_entries(s0.take(0), now)));
        }
        while current.is_some()
            invariant
                self.wf(),
                self.spec_capacity() == old(self).spec_capacity(),
                self.spec_ttl() == old(self).spec_ttl(),
                s0 == old(self)@,
                0 <= j <= s0.len(),
                self@ == live_entries(s0.take(j), now) + s0.skip(j),
                out@ == pairs(live_entries(s0.take(j), now)),
                current == if j < s0.len() {
                    Some(self.order@[live_entries(s0.take(j), now).len() as int])
                } else {
                    None::<usize>
                },
            decreases s0.len() - j,
        {
            let h = current.unwrap();
            let ghost p = live_entries(s0.take(j), now).len() as int;
            let ghost ord = self.order@;
            let ghost view = self@;
            proof {
                self.lemma_wf_distinct();
                assert(view[p] == s0[j]);
                assert(s0.take(j + 1).drop_last() =~= s0.take(j));
                assert(s0.take(j + 1).last() == s0[j]);
            }
            let next = self.nodes[h].next;
            let key = self.nodes[h].key;
            if now >= self.nodes[h].expires_at {
                proof {
                    assert(key_at(view, key, p));
                    lemma_find(view, key, p);
                }
                let _ = self.remove(key);
                proof {
                    assert(self@ =~= live_entries(s0.take(j + 1), now) + s0.skip(j + 1));
                }
            } else {
                out.push((key, self.nodes[h].value));
                proof {
                    assert(self@ =~= live_entries(s0.take(j + 1), now) + s0.skip(j + 1));
                    assert(out@ =~= pairs(live_entries(s0.take(j + 1), now)));
                }
            }
            current = next;
            proof {
                j = j + 1;
            }
        }
        proof {
            assert(s0.take(j) =~= s0);
            assert(self@ =~= live_entries(s0, now));
        }
        out
    }
    /// Looks `key` up at the current time, as `get_at` does.
    pub fn get(&mut self, key: u64) -> (r: Option<V>)
        requires
            old(self).wf(),
        ensures
            final(self).wf(),
            final(self).spec_capacity() == old(self).spec_capacity(),
            final(self).spec_ttl() == old(self).spec_ttl(),
            exists|now: u64|
                #![trigger get_entries(old(self)@, key, now)]
                final(self)@ == get_entries(old(self)@, key, now) && r == get_value(
                    old(self)@,
                    key,
                    now,
                ),
    {
        let now = millis_since(&self.origin);
        self.get_at(key, now)
    }

    /// Stores `value` under `key` at the current time, as `put_at` does.
    pub fn put(&mut self, key: u64, value: V)
        requires
            old(self).wf(),
        ensures
            final(self).wf(),
            final(self).spec_capacity() == old(self).spec_capacity(),
            final(self).spec_ttl() == old(self).spec_ttl(),
            exists|now: u64|
                #![trigger put_entries(old(self)@, old(self).spec_capacity(), old(self).spec_ttl(), key, value, now)]
                final(self)@ == put_entries(
                    old(self)@,
                    old(self).spec_capacity(),
                    old(self).spec_ttl(),
                    key,
                    value,
                    now,
                ),
    {
        let now = millis_since(&self.origin);
        self.put_at(key, value, now);
    }

    /// Lists the live entries at the current time, as `print_at` does.
    pub fn print(&mut self) -> (r: Vec<(u64, V)>)
        requires
            old(self).wf(),
        ensures
            final(self).wf(),
            final(self).spec_capacity() == old(self).spec_capacity(),
            final(self).spec_ttl() == old(self).spec_ttl(),
            exists|now: u64|
                #![trigger live_entries(old(self)@, now)]
                final(self)@ == live_entries(old(self)@, now) && r@ == pairs(
                    live_entries(old(self)@, now),
                ),
    {
        let now = millis_since(&self.origin);
        self.print_at(now)
    }
}

} // verus!
