//! A cache of values under byte-string keys that evicts the entry used
//! least recently among those that nobody holds.

use crate::unit::hash::{hash_bytes, hash_spec};
use ahash::AHashMap;
use vstd::prelude::*;

verus! {

/// The hash map of the `ahash` crate.
#[verifier::external_type_specification]
#[verifier::external_body]
#[verifier::reject_recursive_types(K)]
#[verifier::reject_recursive_types(V)]
#[verifier::reject_recursive_types(S)]
pub struct ExAHashMap<K, V, S>(AHashMap<K, V, S>);

/// The hasher state of the `ahash` crate.
#[verifier::external_type_specification]
#[verifier::external_body]
pub struct ExRandomState(ahash::RandomState);

/// What a map from keys to slots holds.
pub uninterp spec fn index_contents(map: AHashMap<Vec<u8>, usize>) -> Map<Seq<u8>, usize>;

/// The map that binds no key.
pub open spec fn index_empty() -> Map<Seq<u8>, usize> {
    Map::empty()
}

/// Calls `AHashMap::new`, which makes an empty map.
#[verifier::external_body]
fn index_new() -> (created: AHashMap<Vec<u8>, usize>)
    ensures
        index_contents(created) == index_empty(),
{
    AHashMap::new()
}

/// Calls `AHashMap::get`, which looks a key up.
#[verifier::external_body]
fn index_get(map: &AHashMap<Vec<u8>, usize>, key: &[u8]) -> (slot: Option<usize>)
    ensures
        slot == if index_contents(*map).dom().contains(key@) {
            Some(index_contents(*map)[key@])
        } else {
            None
        },
{
    map.get(key).copied()
}

/// Calls `AHashMap::insert`, which binds a key to a value and returns the
/// value that the key was bound to before.
#[verifier::external_body]
fn index_insert(map: &mut AHashMap<Vec<u8>, usize>, key: Vec<u8>, slot: usize) -> (previous: Option<
    usize,
>)
    ensures
        index_contents(*final(map)) == index_contents(*old(map)).insert(key@, slot),
        previous == if index_contents(*old(map)).dom().contains(key@) {
            Some(index_contents(*old(map))[key@])
        } else {
            None
        },
{
    map.insert(key, slot)
}

/// Calls `AHashMap::remove`, which unbinds a key and returns the value
/// that it was bound to.
#[verifier::external_body]
fn index_remove(map: &mut AHashMap<Vec<u8>, usize>, key: &[u8]) -> (previous: Option<usize>)
    ensures
        index_contents(*final(map)) == index_contents(*old(map)).remove(key@),
        previous == if index_contents(*old(map)).dom().contains(key@) {
            Some(index_contents(*old(map))[key@])
        } else {
            None
        },
{
    map.remove(key)
}

/// Calls `HashMap::len` through `AHashMap`, which counts the keys bound.
#[verifier::external_body]
fn index_len(map: &AHashMap<Vec<u8>, usize>) -> (count: usize)
    ensures
        count == index_contents(*map).dom().len(),
{
    map.len()
}

/// An entry of a shard.
struct Node<V> {
    key: Vec<u8>,
    value: V,
    /// Number of handles that hold the entry.
    ref_count: u64,
    /// Whether the shard still finds the entry under its key.
    in_cache: bool,
}

/// Holds an entry of a shard: the entry stays until the handle is given
/// back with [`LRUCache::release`].
#[derive(Debug)]
pub struct LruRes {
    slot: usize,
    /// The shard of the entry, for a handle that a sharded cache gave out.
    shard: usize,
}

/// One shard: a map from keys to entries, and the order in which the
/// entries that nobody holds were used.
pub struct LRUCache<V> {
    capacity: usize,
    map: AHashMap<Vec<u8>, usize>,
    nodes: Vec<Option<Node<V>>>,
    /// The slots of `nodes` that hold no entry.
    free_: Vec<usize>,
    /// The slots of the entries that nobody holds, the one used least
    /// recently first.
    lru_: Vec<usize>,
}

impl<V> LRUCache<V> {
    spec fn live(&self, s: int) -> bool {
        0 <= s < self.nodes@.len() && self.nodes@[s] is Some
    }

    spec fn node(&self, s: int) -> Node<V> {
        self.nodes@[s].unwrap()
    }

    spec fn cached(&self, s: int) -> bool {
        self.live(s) && self.node(s).in_cache
    }

    spec fn index(&self) -> Map<Seq<u8>, usize> {
        index_contents(self.map)
    }

    /// What the shard relies on between calls.
    pub closed spec fn wf(&self) -> bool {
        &&& self.index().dom().finite()
        &&& forall|k: Seq<u8>| #[trigger]
            self.index().dom().contains(k) ==> self.cached(self.index()[k] as int) && self.node(
                self.index()[k] as int,
            ).key@ == k
        &&& forall|s: int| #[trigger]
            self.cached(s) ==> self.index().dom().contains(self.node(s).key@) && self.index()[self.node(
                s,
            ).key@] == s
        &&& forall|i: int|
            0 <= i < self.lru_@.len() ==> self.cached(#[trigger] self.lru_@[i] as int) && self.node(
                self.lru_@[i] as int,
            ).ref_count == 0
        &&& self.lru_@.no_duplicates()
        &&& forall|s: int| #[trigger]
            self.cached(s) && self.node(s).ref_count == 0 ==> self.lru_@.contains(s as usize)
        &&& forall|i: int|
            0 <= i < self.free_@.len() ==> (#[trigger] self.free_@[i]) < self.nodes@.len()
                && !self.live(self.free_@[i] as int)
        &&& self.free_@.no_duplicates()
        &&& forall|s: int| #[trigger] self.live(s) && !self.node(s).in_cache ==> self.node(s).ref_count > 0
    }

    /// The entries of the shard and the order of those that nobody holds.
    pub closed spec fn view(&self) -> crate::util::cache_model::CacheModel<V> {
        crate::util::cache_model::CacheModel {
            capacity: self.capacity as nat,
            entries: Map::new(
                |k: Seq<u8>| self.index().dom().contains(k),
                |k: Seq<u8>|
                    (
                        self.node(self.index()[k] as int).value,
                        self.node(self.index()[k] as int).ref_count as nat,
                    ),
            ),
            lru: Seq::new(self.lru_@.len(), |i: int| self.node(self.lru_@[i] as int).key@),
        }
    }

    /// What a shard holds is in order as the model of a shard is: the
    /// keys that nobody holds are the entries without handles, each once.
    pub proof fn lemma_view_wf(&self)
        requires
            self.wf(),
        ensures
            crate::util::cache_model::model_wf(self@),
    {
        let m = self@;
        assert(m.entries.dom() =~= self.index().dom());
        assert forall|i: int, j: int| 0 <= i < m.lru.len() && 0 <= j < m.lru.len() && i != j implies m.lru[i]
            != m.lru[j] by {
            assert(self.cached(self.lru_@[i] as int));
            assert(self.cached(self.lru_@[j] as int));
        }
        assert forall|i: int| 0 <= i < m.lru.len() implies m.entries.dom().contains(
            #[trigger] m.lru[i],
        ) && m.entries[m.lru[i]].1 == 0 by {
            assert(self.cached(self.lru_@[i] as int));
        }
        assert forall|k: Seq<u8>|
            m.entries.dom().contains(k) && (#[trigger] m.entries[k]).1 == 0 implies m.lru.contains(
            k,
        ) by {
            let slot = self.index()[k];
            assert(self.index().dom().contains(k));
            assert(self.cached(slot as int));
            assert(self.lru_@.contains(slot));
            let i = choose|i: int| 0 <= i < self.lru_@.len() && self.lru_@[i] == slot;
            assert(m.lru[i] == k);
        }
    }

    /// Whether `h` holds an entry.
    pub closed spec fn pinned(&self, h: LruRes) -> bool {
        self.live(h.slot as int) && self.node(h.slot as int).ref_count > 0
    }

    /// The key of the entry that `h` holds.
    pub closed spec fn handle_key(&self, h: LruRes) -> Seq<u8> {
        self.node(h.slot as int).key@
    }

    /// The value of the entry that `h` holds.
    pub closed spec fn handle_value(&self, h: LruRes) -> V {
        self.node(h.slot as int).value
    }

    /// Number of handles on the entry that `h` holds.
    pub closed spec fn handle_refs(&self, h: LruRes) -> nat {
        self.node(h.slot as int).ref_count as nat
    }

    /// Whether the shard still finds the entry that `h` holds under its
    /// key.
    pub closed spec fn attached(&self, h: LruRes) -> bool {
        self.node(h.slot as int).in_cache
    }

    /// Every entry that a handle holds is as it was, but for the entry in
    /// the slot `touched`.
    spec fn kept_but(&self, before: &Self, touched: int) -> bool {
        forall|s: int|
            s != touched && #[trigger] before.live(s) && before.node(s).ref_count > 0 ==> self.live(s)
                && self.node(s) == before.node(s)
    }

    /// Every entry that a handle holds is as it was, but for the entry
    /// that `h` holds.
    pub closed spec fn others_kept(&self, before: &Self, h: LruRes) -> bool {
        self.kept_but(before, h.slot as int)
    }

    /// Whether two handles hold the same entry.
    pub closed spec fn same_entry(a: LruRes, b: LruRes) -> bool {
        a.slot == b.slot
    }

    /// Whether `h` holds another entry than every handle that holds an
    /// entry of this shard, but for the handles on the entry that the
    /// shard finds under `key`.
    pub closed spec fn apart(&self, h: LruRes, key: Seq<u8>) -> bool {
        forall|o: LruRes| #[trigger]
            self.pinned(o) && !(self.attached(o) && self.handle_key(o) == key) ==> !Self::same_entry(
                o,
                h,
            )
    }

    /// What `apart` says of a handle.
    pub proof fn lemma_apart(&self, h: LruRes, key: Seq<u8>, other: LruRes)
        requires
            self.apart(h, key),
            self.pinned(other),
            !(self.attached(other) && self.handle_key(other) == key),
        ensures
            !Self::same_entry(other, h),
    {
    }

    /// A handle that held an entry before a `put` or `get` of another key
    /// holds it as it was.
    pub proof fn lemma_held_across(&self, before: &Self, h: LruRes, key: Seq<u8>, other: LruRes)
        requires
            self.others_kept(before, h),
            before.apart(h, key),
            before.pinned(other),
            !(before.attached(other) && before.handle_key(other) == key),
        ensures
            self.pinned(other),
            self.handle_key(other) == before.handle_key(other),
            self.handle_value(other) == before.handle_value(other),
            self.handle_refs(other) == before.handle_refs(other),
            self.attached(other) == before.attached(other),
            !Self::same_entry(other, h),
            !Self::same_entry(h, other),
    {
        before.lemma_apart(h, key, other);
        self.lemma_others_kept(before, h, other);
    }

    /// Handles on entries that the shard finds under different keys hold
    /// different entries.
    pub proof fn lemma_different_keys(&self, a: LruRes, b: LruRes)
        requires
            self.wf(),
            self.pinned(a),
            self.pinned(b),
            self.attached(a),
            self.attached(b),
            self.handle_key(a) != self.handle_key(b),
        ensures
            !Self::same_entry(a, b),
    {
    }

    /// What `others_kept` says of a handle on another entry: it holds what
    /// it held.
    pub proof fn lemma_others_kept(&self, before: &Self, h: LruRes, other: LruRes)
        requires
            self.others_kept(before, h),
            before.pinned(other),
            !Self::same_entry(other, h),
        ensures
            self.pinned(other),
            self.handle_key(other) == before.handle_key(other),
            self.handle_value(other) == before.handle_value(other),
            self.handle_refs(other) == before.handle_refs(other),
            self.attached(other) == before.attached(other),
    {
        assert(before.live(other.slot as int));
    }

    /// A shard that holds nothing and keeps up to `capacity` entries that
    /// nobody holds.
    pub fn new(capacity: usize) -> (c: Self)
        requires
            capacity > 0,
        ensures
            c.wf(),
            c@ == crate::util::cache_model::model_empty::<V>(capacity as nat),
    {
        let c = LRUCache {
            capacity,
            map: index_new(),
            nodes: Vec::new(),
            free_: Vec::new(),
            lru_: Vec::new(),
        };
        proof {
            assert(c@.entries =~= Map::<Seq<u8>, (V, nat)>::empty());
            assert(c@.lru =~= Seq::<Seq<u8>>::empty());
        }
        c
    }

    /// Whether `h` holds an entry of this shard.
    pub fn holds(&self, h: &LruRes) -> (b: bool)
        ensures
            b == self.pinned(*h),
    {
        if h.slot >= self.nodes.len() {
            return false;
        }
        match &self.nodes[h.slot] {
            Some(node) => node.ref_count > 0,
            None => false,
        }
    }

    /// The value of the entry that `h` holds.
    pub fn value(&self, h: &LruRes) -> (v: &V)
        requires
            self.pinned(*h),
        ensures
            *v == self.handle_value(*h),
    {
        match &self.nodes[h.slot] {
            Some(node) => &node.value,
            None => vstd::pervasive::unreached(),
        }
    }

    /// Takes the slot `slot` out of the order of entries that nobody holds.
    fn lru_remove(&mut self, slot: usize) -> (at: usize)
        requires
            old(self).lru_@.contains(slot),
            old(self).lru_@.no_duplicates(),
        ensures
            at < old(self).lru_@.len(),
            old(self).lru_@[at as int] == slot,
            final(self).lru_@ == old(self).lru_@.remove(at as int),
            final(self).capacity == old(self).capacity,
            final(self).map == old(self).map,
            final(self).nodes == old(self).nodes,
            final(self).free_ == old(self).free_,
    {
        let mut i: usize = 0;
        let len = self.lru_.len();
        while self.lru_[i] != slot
            invariant
                *self == *old(self),
                len == self.lru_@.len(),
                i < self.lru_@.len(),
                self.lru_@.contains(slot),
                forall|j: int| 0 <= j < i ==> self.lru_@[j] != slot,
            decreases self.lru_@.len() - i,
        {
            proof {
                let w = choose|w: int| 0 <= w < self.lru_@.len() && self.lru_@[w] == slot;
                assert(w > i);
            }
            i = i + 1;
        }
        self.lru_.remove(i);
        i
    }

    /// The entry in `slot` with another count of handles and another mark
    /// of being found, and with another value where one is given.
    spec fn node_with(&self, slot: int, value: Option<V>, refs: u64, in_cache: bool) -> Node<V> {
        Node {
            key: self.node(slot).key,
            value: match value {
                Some(v) => v,
                None => self.node(slot).value,
            },
            ref_count: refs,
            in_cache,
        }
    }

    /// Changes the entry in `slot`.
    fn replace_node(&mut self, slot: usize, value: Option<V>, refs: u64, in_cache: bool)
        requires
            old(self).live(slot as int),
        ensures
            final(self).nodes@ == old(self).nodes@.update(
                slot as int,
                Some(old(self).node_with(slot as int, value, refs, in_cache)),
            ),
            final(self).capacity == old(self).capacity,
            final(self).map == old(self).map,
            final(self).lru_ == old(self).lru_,
            final(self).free_ == old(self).free_,
    {
        let mut taken: Option<Node<V>> = None;
        std::mem::swap(&mut self.nodes[slot], &mut taken);
        match taken {
            Some(node) => {
                let updated = Node {
                    key: node.key,
                    value: match value {
                        Some(v) => v,
                        None => node.value,
                    },
                    ref_count: refs,
                    in_cache,
                };
                self.nodes[slot] = Some(updated);
            },
            None => {},
        }
    }

    /// Looks `key` up and, where it is there, returns a handle on its
    /// entry.  An entry that the largest count of handles holds already is
    /// not handed out.
    pub fn get(&mut self, key: &[u8]) -> (r: Option<LruRes>)
        requires
            old(self).wf(),
        ensures
            final(self).wf(),
            r is Some <==> old(self)@.entries.dom().contains(key@) && old(self)@.entries[key@].1
                < u64::MAX,
            match r {
                Some(h) => {
                    &&& final(self)@ == crate::util::cache_model::model_get(old(self)@, key@)
                    &&& final(self).pinned(h)
                    &&& final(self).attached(h)
                    &&& final(self).handle_key(h) == key@
                    &&& final(self).handle_value(h) == old(self)@.entries[key@].0
                    &&& final(self).handle_refs(h) == old(self)@.entries[key@].1 + 1
                    &&& final(self).others_kept(old(self), h)
                    &&& old(self).apart(h, key@)
                },
                None => *final(self) == *old(self),
            },
    {
        let slot = match index_get(&self.map, key) {
            Some(slot) => slot,
            None => { return None; },
        };
        let refs = match &self.nodes[slot] {
            Some(node) => node.ref_count,
            None => 0,
        };
        if refs == u64::MAX {
            return None;
        }
        let ghost before = *self;
        if refs == 0 {
            let at = self.lru_remove(slot);
            proof {
                before.lemma_lru_index(key@, at as int);
            }
        }
        self.replace_node(slot, None, refs + 1, true);
        proof {
            self.lemma_bumped(&before, key@, slot, None);
            assert(self@.entries =~= crate::util::cache_model::model_get(before@, key@).entries);
            assert(before.cached(slot as int));
        }
        Some(LruRes { slot, shard: 0 })
    }

    /// In the order of the keys that nobody holds, a key stands where its
    /// slot stands in the order of slots.
    proof fn lemma_lru_index(&self, key: Seq<u8>, at: int)
        requires
            self.wf(),
            self.index().dom().contains(key),
            0 <= at < self.lru_@.len(),
            self.lru_@[at] == self.index()[key],
        ensures
            self@.lru.contains(key),
            self@.lru.index_of(key) == at,
            self@.lru.len() == self.lru_@.len(),
    {
        let lru = self@.lru;
        assert(lru[at] == key);
        let j = lru.index_of(key);
        assert(0 <= j < lru.len() && lru[j] == key);
        assert(self.cached(self.lru_@[j] as int));
        assert(self.index()[key] == self.lru_@[j]);
    }

    /// The view of a shard in which one more handle holds the entry of
    /// `key`, which left the order of entries that nobody holds.
    proof fn lemma_bumped(&self, before: &Self, key: Seq<u8>, slot: usize, value: Option<V>)
        requires
            before.wf(),
            before.index().dom().contains(key),
            before.index()[key] == slot,
            self.capacity == before.capacity,
            self.map == before.map,
            self.free_ == before.free_,
            before.node(slot as int).ref_count < u64::MAX,
            self.nodes@ == before.nodes@.update(
                slot as int,
                Some(
                    before.node_with(
                        slot as int,
                        value,
                        (before.node(slot as int).ref_count + 1) as u64,
                        true,
                    ),
                ),
            ),
            before.node(slot as int).ref_count == 0 ==> before.lru_@.contains(slot) && self.lru_@
                == before.lru_@.remove(before.lru_@.index_of(slot)),
            before.node(slot as int).ref_count > 0 ==> self.lru_@ == before.lru_@,
        ensures
            self.wf(),
            self@.capacity == before@.capacity,
            self@.entries == before@.entries.insert(
                key,
                (
                    match value {
                        Some(v) => v,
                        None => before@.entries[key].0,
                    },
                    before@.entries[key].1 + 1,
                ),
            ),
            self@.lru == crate::util::cache_model::without(before@.lru, key),
            self.kept_but(before, slot as int),
    {
        assert forall|s: int| self.live(s) == before.live(s) by {}
        assert forall|s: int| s != slot && before.live(s) implies self.node(s) == before.node(s) by {}
        assert forall|s: int| self.cached(s) == before.cached(s) by {}
        if before.node(slot as int).ref_count == 0 {
            let at = before.lru_@.index_of(slot);
            assert(0 <= at < before.lru_@.len() && before.lru_@[at] == slot);
            before.lemma_lru_index(key, at);
            assert forall|i: int| 0 <= i < self.lru_@.len() implies self.lru_@[i] != slot by {
                if i < at {
                    assert(self.lru_@[i] == before.lru_@[i]);
                } else {
                    assert(self.lru_@[i] == before.lru_@[i + 1]);
                }
            }
            assert forall|i: int| 0 <= i < self.lru_@.len() implies self.cached(
                #[trigger] self.lru_@[i] as int,
            ) && self.node(self.lru_@[i] as int).ref_count == 0 by {
                if i < at {
                    assert(self.lru_@[i] == before.lru_@[i]);
                } else {
                    assert(self.lru_@[i] == before.lru_@[i + 1]);
                }
            }
            assert(self.lru_@.no_duplicates()) by {
                assert forall|i: int, j: int|
                    0 <= i < self.lru_@.len() && 0 <= j < self.lru_@.len() && i != j implies self.lru_@[i]
                    != self.lru_@[j] by {
                    let a = if i < at {
                        i
                    } else {
                        i + 1
                    };
                    let b = if j < at {
                        j
                    } else {
                        j + 1
                    };
                    assert(self.lru_@[i] == before.lru_@[a] && self.lru_@[j] == before.lru_@[b]);
                }
            }
            assert forall|s: int| #[trigger]
                self.cached(s) && self.node(s).ref_count == 0 implies self.lru_@.contains(
                s as usize,
            ) by {
                assert(s != slot);
                assert(before.cached(s));
                assert(before.lru_@.contains(s as usize));
                let w = choose|w: int| 0 <= w < before.lru_@.len() && before.lru_@[w] == s as usize;
                if w < at {
                    assert(self.lru_@[w] == s as usize);
                } else {
                    assert(self.lru_@[w - 1] == s as usize);
                }
            }
            assert(self@.lru =~= before@.lru.remove(at)) by {
                assert forall|i: int| 0 <= i < self.lru_@.len() implies self@.lru[i]
                    == before@.lru.remove(at)[i] by {
                    if i < at {
                        assert(self.lru_@[i] == before.lru_@[i]);
                    } else {
                        assert(self.lru_@[i] == before.lru_@[i + 1]);
                    }
                }
            }
        } else {
            assert forall|i: int| 0 <= i < self.lru_@.len() implies self.lru_@[i] != slot by {}
            assert(self@.lru =~= before@.lru);
            assert(!before@.lru.contains(key)) by {
                if before@.lru.contains(key) {
                    let j = choose|j: int| 0 <= j < before@.lru.len() && before@.lru[j] == key;
                    assert(before.cached(before.lru_@[j] as int));
                }
            }
        }
        assert(self@.entries =~= before@.entries.insert(
            key,
            (
                match value {
                    Some(v) => v,
                    None => before@.entries[key].0,
                },
                before@.entries[key].1 + 1,
            ),
        ));
    }

    /// Gives a handle back.  An entry that no handle holds any more can be
    /// evicted, or is dropped where the shard no longer finds it.
    pub fn release(&mut self, h: LruRes)
        requires
            old(self).wf(),
            old(self).pinned(h),
        ensures
            final(self).wf(),
            final(self)@ == if old(self).attached(h) {
                crate::util::cache_model::model_release(old(self)@, old(self).handle_key(h))
            } else {
                old(self)@
            },
            final(self).others_kept(old(self), h),
            old(self).handle_refs(h) > 1 ==> final(self).pinned(h) && final(self).handle_refs(h)
                == old(self).handle_refs(h) - 1 && final(self).handle_key(h) == old(
                self,
            ).handle_key(h) && final(self).handle_value(h) == old(self).handle_value(h)
                && final(self).attached(h) == old(self).attached(h),
    {
        let slot = h.slot;
        let (refs, in_cache) = match &self.nodes[slot] {
            Some(node) => (node.ref_count, node.in_cache),
            None => (1, false),
        };
        let ghost before = *self;
        let ghost key = self.node(slot as int).key@;
        if refs > 1 || in_cache {
            self.replace_node(slot, None, refs - 1, in_cache);
            if refs == 1 {
                self.lru_.push(slot);
            }
            proof {
                self.lemma_released(&before, slot);
            }
        } else {
            self.nodes[slot] = None;
            self.free_.push(slot);
            proof {
                self.lemma_dropped(&before, slot);
            }
        }
    }

    proof fn lemma_released(&self, before: &Self, slot: usize)
        requires
            before.wf(),
            before.live(slot as int),
            before.node(slot as int).ref_count > 0,
            before.node(slot as int).ref_count > 1 || before.node(slot as int).in_cache,
            self.capacity == before.capacity,
            self.map == before.map,
            self.free_ == before.free_,
            self.nodes@ == before.nodes@.update(
                slot as int,
                Some(
                    before.node_with(
                        slot as int,
                        None,
                        (before.node(slot as int).ref_count - 1) as u64,
                        before.node(slot as int).in_cache,
                    ),
                ),
            ),
            self.lru_@ == if before.node(slot as int).ref_count == 1 {
                before.lru_@.push(slot)
            } else {
                before.lru_@
            },
        ensures
            self.wf(),
            self@ == if before.node(slot as int).in_cache {
                crate::util::cache_model::model_release(before@, before.node(slot as int).key@)
            } else {
                before@
            },
            self.kept_but(before, slot as int),
    {
        let key = before.node(slot as int).key@;
        assert forall|s: int| self.live(s) == before.live(s) by {}
        assert forall|s: int| s != slot && before.live(s) implies self.node(s) == before.node(s) by {}
        assert forall|s: int| self.cached(s) == before.cached(s) by {}
        assert forall|i: int| 0 <= i < before.lru_@.len() implies before.lru_@[i] != slot by {
            assert(before.cached(before.lru_@[i] as int));
        }
        if before.node(slot as int).ref_count == 1 {
            assert(before.node(slot as int).in_cache);
            assert(self.lru_@.no_duplicates());
            assert forall|s: int| #[trigger]
                self.cached(s) && self.node(s).ref_count == 0 implies self.lru_@.contains(
                s as usize,
            ) by {
                if s == slot {
                    assert(self.lru_@[self.lru_@.len() - 1] == slot);
                } else {
                    assert(before.cached(s));
                    let w = choose|w: int|
                        0 <= w < before.lru_@.len() && before.lru_@[w] == s as usize;
                    assert(self.lru_@[w] == s as usize);
                }
            }
            assert(self@.lru =~= before@.lru.push(key));
        } else {
            assert forall|s: int| #[trigger]
                self.cached(s) && self.node(s).ref_count == 0 implies self.lru_@.contains(
                s as usize,
            ) by {
                assert(s != slot);
                assert(before.cached(s));
            }
            assert(self@.lru =~= before@.lru);
        }
        if before.node(slot as int).in_cache {
            assert(before.cached(slot as int));
            assert(before.index().dom().contains(key) && before.index()[key] == slot);
            assert(self@.entries =~= crate::util::cache_model::model_release(before@, key).entries);
        } else {
            assert(self@.entries =~= before@.entries);
        }
    }

    proof fn lemma_dropped(&self, before: &Self, slot: usize)
        requires
            before.wf(),
            before.live(slot as int),
            !before.cached(slot as int) || before.node(slot as int).ref_count == 0 && !before.lru_@.contains(
                slot,
            ) && !before.index().dom().contains(before.node(slot as int).key@),
            self.capacity == before.capacity,
            self.map == before.map,
            self.lru_ == before.lru_,
            self.free_@ == before.free_@.push(slot),
            self.nodes@ == before.nodes@.update(slot as int, None),
        ensures
            self.wf(),
            self.kept_but(before, slot as int),
            !before.cached(slot as int) ==> self@ == before@,
    {
        assert forall|s: int| s != slot implies self.live(s) == before.live(s) by {}
        assert forall|s: int| s != slot && before.live(s) implies self.node(s) == before.node(s) by {}
        assert forall|s: int| s != slot implies self.cached(s) == before.cached(s) by {}
        assert forall|i: int| 0 <= i < before.lru_@.len() implies before.lru_@[i] != slot by {
            if before.lru_@[i] == slot {
                assert(before.cached(before.lru_@[i] as int));
                assert(before.lru_@.contains(slot));
            }
        }
        assert forall|i: int| 0 <= i < before.free_@.len() implies before.free_@[i] != slot by {
            assert(!before.live(before.free_@[i] as int));
        }
        assert(self.free_@.no_duplicates());
        assert forall|k: Seq<u8>| #[trigger] self.index().dom().contains(k) implies self.cached(
            self.index()[k] as int,
        ) && self.node(self.index()[k] as int).key@ == k by {
            assert(before.cached(before.index()[k] as int));
            if before.index()[k] == slot {
                assert(before.node(slot as int).key@ == k);
            }
        }
        if !before.cached(slot as int) {
            assert(self@.lru =~= before@.lru);
            assert(self@.entries =~= before@.entries);
        }
    }

    /// Every entry that a handle holds is as it was, but that the shard no
    /// longer finds the entry of `key`.
    pub closed spec fn erased(&self, before: &Self, key: Seq<u8>) -> bool {
        forall|s: int| #[trigger]
            before.live(s) && before.node(s).ref_count > 0 ==> self.live(s) && self.node(s).key
                == before.node(s).key && self.node(s).value == before.node(s).value && self.node(
                s,
            ).ref_count == before.node(s).ref_count && self.node(s).in_cache == (before.node(
                s,
            ).in_cache && before.node(s).key@ != key)
    }

    /// What `erased` says of a handle: it holds what it held.
    pub proof fn lemma_erased_handle(&self, before: &Self, key: Seq<u8>, h: LruRes)
        requires
            self.erased(before, key),
            before.pinned(h),
        ensures
            self.pinned(h),
            self.handle_key(h) == before.handle_key(h),
            self.handle_value(h) == before.handle_value(h),
            self.handle_refs(h) == before.handle_refs(h),
            self.attached(h) == (before.attached(h) && before.handle_key(h) != key),
    {
        assert(before.live(h.slot as int));
    }

    /// Takes the entry of `key` out.  Handles on it keep it until they are
    /// given back.
    pub fn erase(&mut self, key: &[u8])
        requires
            old(self).wf(),
        ensures
            final(self).wf(),
            final(self)@ == crate::util::cache_model::model_erase(old(self)@, key@),
            final(self).erased(old(self), key@),
    {
        let ghost before = *self;
        let slot = match index_remove(&mut self.map, key) {
            Some(slot) => slot,
            None => {
                proof {
                    assert(self.index() =~= before.index());
                    self.lemma_not_there(&before, key@);
                }
                return ;
            },
        };
        let refs = match &self.nodes[slot] {
            Some(node) => node.ref_count,
            None => 0,
        };
        if refs == 0 {
            proof {
                assert(before.cached(slot as int));
            }
            let at = self.lru_remove(slot);
            self.nodes[slot] = None;
            self.free_.push(slot);
            proof {
                before.lemma_lru_index(key@, at as int);
                self.lemma_erased_free(&before, key@, slot, at as int);
            }
        } else {
            self.replace_node(slot, None, refs, false);
            proof {
                self.lemma_erased_held(&before, key@, slot);
            }
        }
    }

    proof fn lemma_not_there(&self, before: &Self, key: Seq<u8>)
        requires
            before.wf(),
            !before.index().dom().contains(key),
            self.index() == before.index(),
            self.capacity == before.capacity,
            self.nodes == before.nodes,
            self.lru_ == before.lru_,
            self.free_ == before.free_,
        ensures
            self.wf(),
            self@ == crate::util::cache_model::model_erase(before@, key),
            self.erased(before, key),
    {
        assert forall|s: int| self.live(s) == before.live(s) by {}
        assert forall|s: int| self.cached(s) == before.cached(s) by {}
        assert(self@.entries =~= before@.entries.remove(key));
        assert(!before@.lru.contains(key)) by {
            if before@.lru.contains(key) {
                let j = choose|j: int| 0 <= j < before@.lru.len() && before@.lru[j] == key;
                assert(before.cached(before.lru_@[j] as int));
            }
        }
        assert(self@.lru =~= before@.lru);
        assert forall|s: int| #[trigger] before.live(s) && before.node(s).ref_count > 0 implies self.node(
            s,
        ).in_cache == (before.node(s).in_cache && before.node(s).key@ != key) by {
            if before.node(s).in_cache {
                assert(before.cached(s));
            }
        }
    }

    proof fn lemma_erased_free(&self, before: &Self, key: Seq<u8>, slot: usize, at: int)
        requires
            before.wf(),
            before.index().dom().contains(key),
            before.index()[key] == slot,
            before.node(slot as int).ref_count == 0,
            0 <= at < before.lru_@.len(),
            before.lru_@[at] == slot,
            self.index() == before.index().remove(key),
            self.capacity == before.capacity,
            self.nodes@ == before.nodes@.update(slot as int, None),
            self.lru_@ == before.lru_@.remove(at),
            self.free_@ == before.free_@.push(slot),
        ensures
            self.wf(),
            self@ == crate::util::cache_model::model_erase(before@, key),
            self.erased(before, key),
    {
        assert(before.cached(slot as int));
        assert forall|s: int| s != slot implies self.live(s) == before.live(s) by {}
        assert forall|s: int| s != slot && before.live(s) implies self.node(s) == before.node(s) by {}
        assert forall|s: int| s != slot implies self.cached(s) == before.cached(s) by {}
        assert forall|k: Seq<u8>| #[trigger] self.index().dom().contains(k) implies self.cached(
            self.index()[k] as int,
        ) && self.node(self.index()[k] as int).key@ == k by {
            assert(before.index().dom().contains(k));
            assert(before.cached(before.index()[k] as int));
            if before.index()[k] == slot {
                assert(before.node(slot as int).key@ == k);
            }
        }
        assert forall|s: int| #[trigger] self.cached(s) implies self.index().dom().contains(
            self.node(s).key@,
        ) && self.index()[self.node(s).key@] == s by {
            assert(before.cached(s));
            if before.node(s).key@ == key {
                assert(before.index()[key] == s);
            }
        }
        assert forall|i: int| 0 <= i < self.lru_@.len() implies self.lru_@[i] != slot
            && self.lru_@[i] == before.lru_@[if i < at {
            i
        } else {
            i + 1
        }] by {}
        assert forall|i: int| 0 <= i < self.lru_@.len() implies self.cached(
            #[trigger] self.lru_@[i] as int,
        ) && self.node(self.lru_@[i] as int).ref_count == 0 by {
            let a = if i < at {
                i
            } else {
                i + 1
            };
            assert(self.lru_@[i] == before.lru_@[a]);
            assert(before.cached(before.lru_@[a] as int));
        }
        assert(self.lru_@.no_duplicates()) by {
            assert forall|i: int, j: int|
                0 <= i < self.lru_@.len() && 0 <= j < self.lru_@.len() && i != j implies self.lru_@[i]
                != self.lru_@[j] by {
                let a = if i < at {
                    i
                } else {
                    i + 1
                };
                let b = if j < at {
                    j
                } else {
                    j + 1
                };
                assert(self.lru_@[i] == before.lru_@[a] && self.lru_@[j] == before.lru_@[b]);
            }
        }
        assert forall|s: int| #[trigger]
            self.cached(s) && self.node(s).ref_count == 0 implies self.lru_@.contains(
            s as usize,
        ) by {
            assert(before.cached(s));
            let w = choose|w: int| 0 <= w < before.lru_@.len() && before.lru_@[w] == s as usize;
            if w < at {
                assert(self.lru_@[w] == s as usize);
            } else {
                assert(self.lru_@[w - 1] == s as usize);
            }
        }
        assert forall|i: int| 0 <= i < before.free_@.len() implies before.free_@[i] != slot by {
            assert(!before.live(before.free_@[i] as int));
        }
        assert(self.free_@.no_duplicates());
        before.lemma_lru_index(key, at);
        assert(self@.lru =~= before@.lru.remove(at)) by {
            assert forall|i: int| 0 <= i < self.lru_@.len() implies self@.lru[i]
                == before@.lru.remove(at)[i] by {
                let a = if i < at {
                    i
                } else {
                    i + 1
                };
                assert(self.lru_@[i] == before.lru_@[a]);
            }
        }
        assert(self@.entries =~= before@.entries.remove(key)) by {
            assert forall|k: Seq<u8>| self@.entries.dom().contains(k) implies self@.entries[k]
                == before@.entries[k] by {
                assert(before.index().dom().contains(k));
                assert(before.cached(before.index()[k] as int));
                if before.index()[k] == slot {
                    assert(before.node(slot as int).key@ == k);
                }
            }
        }
        assert forall|s: int| #[trigger] before.live(s) && before.node(s).ref_count > 0 implies self.node(
            s,
        ).in_cache == (before.node(s).in_cache && before.node(s).key@ != key) by {
            if before.node(s).in_cache && before.node(s).key@ == key {
                assert(before.cached(s));
            }
        }
    }

    proof fn lemma_erased_held(&self, before: &Self, key: Seq<u8>, slot: usize)
        requires
            before.wf(),
            before.index().dom().contains(key),
            before.index()[key] == slot,
            before.node(slot as int).ref_count > 0,
            self.index() == before.index().remove(key),
            self.capacity == before.capacity,
            self.nodes@ == before.nodes@.update(
                slot as int,
                Some(
                    before.node_with(slot as int, None, before.node(slot as int).ref_count, false),
                ),
            ),
            self.lru_ == before.lru_,
            self.free_ == before.free_,
        ensures
            self.wf(),
            self@ == crate::util::cache_model::model_erase(before@, key),
            self.erased(before, key),
    {
        assert(before.cached(slot as int));
        assert forall|s: int| self.live(s) == before.live(s) by {}
        assert forall|s: int| s != slot && before.live(s) implies self.node(s) == before.node(s) by {}
        assert forall|s: int| s != slot implies self.cached(s) == before.cached(s) by {}
        assert(!self.cached(slot as int));
        assert forall|k: Seq<u8>| #[trigger] self.index().dom().contains(k) implies self.cached(
            self.index()[k] as int,
        ) && self.node(self.index()[k] as int).key@ == k by {
            assert(before.index().dom().contains(k));
            assert(before.cached(before.index()[k] as int));
            if before.index()[k] == slot {
                assert(before.node(slot as int).key@ == k);
            }
        }
        assert forall|s: int| #[trigger] self.cached(s) implies self.index().dom().contains(
            self.node(s).key@,
        ) && self.index()[self.node(s).key@] == s by {
            assert(before.cached(s));
            if before.node(s).key@ == key {
                assert(before.index()[key] == s);
            }
        }
        assert forall|i: int| 0 <= i < before.lru_@.len() implies before.lru_@[i] != slot by {
            assert(before.cached(before.lru_@[i] as int));
        }
        assert forall|i: int| 0 <= i < self.lru_@.len() implies self.cached(
            #[trigger] self.lru_@[i] as int,
        ) && self.node(self.lru_@[i] as int).ref_count == 0 by {
            assert(before.cached(before.lru_@[i] as int));
        }
        assert forall|s: int| #[trigger]
            self.cached(s) && self.node(s).ref_count == 0 implies self.lru_@.contains(
            s as usize,
        ) by {
            assert(before.cached(s));
        }
        assert(!before@.lru.contains(key)) by {
            if before@.lru.contains(key) {
                let j = choose|j: int| 0 <= j < before@.lru.len() && before@.lru[j] == key;
                assert(before.cached(before.lru_@[j] as int));
                assert(before.index()[key] == before.lru_@[j]);
            }
        }
        assert(self@.lru =~= before@.lru);
        assert(self@.entries =~= before@.entries.remove(key)) by {
            assert forall|k: Seq<u8>| self@.entries.dom().contains(k) implies self@.entries[k]
                == before@.entries[k] by {
                assert(before.index().dom().contains(k));
                assert(before.cached(before.index()[k] as int));
                if before.index()[k] == slot {
                    assert(before.node(slot as int).key@ == k);
                }
            }
        }
        assert forall|s: int| #[trigger] before.live(s) && before.node(s).ref_count > 0 implies self.node(
            s,
        ).in_cache == (before.node(s).in_cache && before.node(s).key@ != key) by {
            if s != slot && before.node(s).in_cache && before.node(s).key@ == key {
                assert(before.cached(s));
            }
        }
    }

    /// Binds `key` to `value` and returns a handle on the entry.  Where
    /// the key is new and the shard then holds more entries than its
    /// capacity, entries that nobody holds are evicted, the one used least
    /// recently first.  `None`, with nothing changed, where the key is
    /// bound and the largest count of handles holds its entry already.
    pub fn put(&mut self, key: &[u8], value: V) -> (r: Option<LruRes>)
        requires
            old(self).wf(),
        ensures
            final(self).wf(),
            r is None <==> old(self)@.entries.dom().contains(key@) && old(self)@.entries[key@].1
                >= u64::MAX,
            match r {
                Some(h) => {
                    &&& final(self)@ == crate::util::cache_model::model_put(
                        old(self)@,
                        key@,
                        value,
                    )
                    &&& final(self).pinned(h)
                    &&& final(self).attached(h)
                    &&& final(self).handle_key(h) == key@
                    &&& final(self).handle_value(h) == value
                    &&& final(self).handle_refs(h) == if old(self)@.entries.dom().contains(key@) {
                        old(self)@.entries[key@].1 + 1
                    } else {
                        1
                    }
                    &&& final(self).others_kept(old(self), h)
                    &&& old(self).apart(h, key@)
                },
                None => *final(self) == *old(self),
            },
    {
        let ghost before = *self;
        match index_get(&self.map, key) {
            Some(slot) => {
                let refs = match &self.nodes[slot] {
                    Some(node) => node.ref_count,
                    None => 0,
                };
                if refs == u64::MAX {
                    return None;
                }
                if refs == 0 {
                    let at = self.lru_remove(slot);
                    proof {
                        before.lemma_lru_index(key@, at as int);
                    }
                }
                self.replace_node(slot, Some(value), refs + 1, true);
                proof {
                    self.lemma_bumped(&before, key@, slot, Some(value));
                    assert(before.cached(slot as int));
                }
                Some(LruRes { slot, shard: 0 })
            },
            None => {
                let node = Node {
                    key: vstd::slice::slice_to_vec(key),
                    value,
                    ref_count: 1,
                    in_cache: true,
                };
                let slot = match self.free_.pop() {
                    Some(slot) => {
                        self.nodes[slot] = Some(node);
                        slot
                    },
                    None => {
                        self.nodes.push(Some(node));
                        self.nodes.len() - 1
                    },
                };
                index_insert(&mut self.map, vstd::slice::slice_to_vec(key), slot);
                proof {
                    if before.free_@.len() > 0 {
                        assert(self.free_@ =~= before.free_@.drop_last());
                        assert(self.nodes@ =~= before.nodes@.update(
                            slot as int,
                            self.nodes@[slot as int],
                        ));
                    } else {
                        assert(self.nodes@ =~= before.nodes@.push(self.nodes@[slot as int]));
                    }
                    self.lemma_inserted(&before, key@, value, slot);
                }
                let ghost grown = *self;
                while index_len(&self.map) > self.capacity && self.lru_.len() > 0
                    invariant
                        self.wf(),
                        self.live(slot as int),
                        self.node(slot as int).ref_count == 1,
                        self.node(slot as int).in_cache,
                        self.node(slot as int).key@ == key@,
                        self.node(slot as int).value == value,
                        self.kept_but(&before, slot as int),
                        crate::util::cache_model::model_evict(self@)
                            == crate::util::cache_model::model_evict(grown@),
                    decreases self.lru_@.len(),
                {
                    let ghost earlier = *self;
                    let victim = self.lru_.remove(0);
                    proof {
                        assert(earlier.cached(earlier.lru_@[0] as int));
                    }
                    match &self.nodes[victim] {
                        Some(gone) => {
                            index_remove(&mut self.map, gone.key.as_slice());
                        },
                        None => {},
                    }
                    self.nodes[victim] = None;
                    self.free_.push(victim);
                    proof {
                        earlier.lemma_lru_index(earlier.node(victim as int).key@, 0);
                        self.lemma_erased_free(
                            &earlier,
                            earlier.node(victim as int).key@,
                            victim,
                            0,
                        );
                        assert(earlier@.entries.dom() =~= earlier.index().dom());
                        assert(earlier@.lru.remove(0) =~= earlier@.lru.skip(1));
                        assert(self.kept_but(&before, slot as int)) by {
                            assert forall|s: int|
                                s != slot as int && #[trigger] before.live(s) && before.node(
                                    s,
                                ).ref_count > 0 implies self.live(s) && self.node(s) == before.node(
                                s,
                            ) by {
                                assert(earlier.live(s) && earlier.node(s) == before.node(s));
                                assert(s != victim);
                            }
                        }
                    }
                }
                proof {
                    assert(self@.entries.dom() =~= self.index().dom());
                    assert(!before.live(slot as int));
                }
                Some(LruRes { slot, shard: 0 })
            },
        }
    }

    proof fn lemma_inserted(&self, before: &Self, key: Seq<u8>, value: V, slot: usize)
        requires
            before.wf(),
            !before.index().dom().contains(key),
            self.index() == before.index().insert(key, slot),
            self.capacity == before.capacity,
            self.lru_ == before.lru_,
            slot < self.nodes@.len(),
            self.nodes@[slot as int] is Some,
            self.node(slot as int).key@ == key,
            self.node(slot as int).value == value,
            self.node(slot as int).ref_count == 1,
            self.node(slot as int).in_cache,
            !before.live(slot as int),
            ({
                ||| (before.free_@.len() > 0 && slot == before.free_@.last() && self.free_@
                    == before.free_@.drop_last() && self.nodes@ == before.nodes@.update(
                    slot as int,
                    self.nodes@[slot as int],
                ))
                ||| (before.free_@.len() == 0 && self.free_@ == before.free_@ && slot
                    == before.nodes@.len() && self.nodes@ == before.nodes@.push(
                    self.nodes@[slot as int],
                ))
            }),
        ensures
            self.wf(),
            self.kept_but(before, slot as int),
            self@ == (crate::util::cache_model::CacheModel {
                capacity: before@.capacity,
                entries: before@.entries.insert(key, (value, 1nat)),
                lru: before@.lru,
            }),
    {
        assert forall|s: int| s != slot implies self.live(s) == before.live(s) by {}
        assert forall|s: int| s != slot && before.live(s) implies self.node(s) == before.node(s) by {}
        assert forall|s: int| s != slot implies self.cached(s) == before.cached(s) by {}
        assert forall|k: Seq<u8>| #[trigger] self.index().dom().contains(k) implies self.cached(
            self.index()[k] as int,
        ) && self.node(self.index()[k] as int).key@ == k by {
            if k != key {
                assert(before.index().dom().contains(k));
                assert(before.cached(before.index()[k] as int));
            }
        }
        assert forall|s: int| #[trigger] self.cached(s) implies self.index().dom().contains(
            self.node(s).key@,
        ) && self.index()[self.node(s).key@] == s by {
            if s != slot {
                assert(before.cached(s));
            }
        }
        assert forall|i: int| 0 <= i < self.lru_@.len() implies self.cached(
            #[trigger] self.lru_@[i] as int,
        ) && self.node(self.lru_@[i] as int).ref_count == 0 by {
            assert(before.cached(before.lru_@[i] as int));
        }
        assert forall|s: int| #[trigger]
            self.cached(s) && self.node(s).ref_count == 0 implies self.lru_@.contains(
            s as usize,
        ) by {
            assert(before.cached(s));
        }
        assert forall|i: int| 0 <= i < self.free_@.len() implies (#[trigger] self.free_@[i])
            < self.nodes@.len() && !self.live(self.free_@[i] as int) by {
            assert(self.free_@[i] == before.free_@[i]);
            assert(!before.live(before.free_@[i] as int));
            if before.free_@.len() > 0 {
                assert(before.free_@[i] != before.free_@[before.free_@.len() - 1]);
            }
        }
        assert(self.free_@.no_duplicates()) by {
            assert forall|i: int, j: int|
                0 <= i < self.free_@.len() && 0 <= j < self.free_@.len() && i != j implies self.free_@[i]
                != self.free_@[j] by {
                assert(self.free_@[i] == before.free_@[i] && self.free_@[j] == before.free_@[j]);
            }
        }
        assert(self@.lru =~= before@.lru) by {
            assert forall|i: int| 0 <= i < self.lru_@.len() implies self@.lru[i] == before@.lru[i] by {
                assert(before.cached(before.lru_@[i] as int));
            }
        }
        assert(self@.entries =~= before@.entries.insert(key, (value, 1nat))) by {
            assert forall|k: Seq<u8>| k != key && self@.entries.dom().contains(k) implies self@.entries[k]
                == before@.entries[k] by {
                assert(before.index().dom().contains(k));
                assert(before.cached(before.index()[k] as int));
            }
        }
    }
}

pub const K_NUM_SHARD_BITS: usize = 4;

pub const K_NUM_SHARDS: usize = 16;

/// The shard of a key: the top four bits of its hash.
pub open spec fn shard_of(key: Seq<u8>) -> nat {
    (hash_spec(key, 0) >> 28) as nat
}

/// A key lives in one of the sixteen shards.
pub proof fn lemma_shard_of(key: Seq<u8>)
    ensures
        shard_of(key) < 16,
{
    lemma_shard_in_range(hash_spec(key, 0));
}

proof fn lemma_shard_in_range(hash: u32)
    by (bit_vector)
    ensures
        (hash >> 28) < 16,
{
}

/// Sixteen shards, each with a sixteenth of the capacity; a key lives in
/// the shard that the top bits of its hash name.
pub struct ShardedLRUCache<V> {
    shared: Vec<LRUCache<V>>,
    last_id_: u64,
}

impl<V> ShardedLRUCache<V> {
    /// What the cache relies on between calls.
    pub closed spec fn wf(&self) -> bool {
        &&& self.shared@.len() == 16
        &&& forall|i: int| 0 <= i < 16 ==> (#[trigger] self.shared@[i]).wf()
    }

    /// What the shard `i` holds.
    pub closed spec fn shard_view(&self, i: int) -> crate::util::cache_model::CacheModel<V> {
        self.shared@[i]@
    }

    /// The identifier handed out last.
    pub closed spec fn last_id(&self) -> u64 {
        self.last_id_
    }

    /// Whether `h` holds an entry.
    pub closed spec fn pinned(&self, h: LruRes) -> bool {
        h.shard < 16 && self.shared@[h.shard as int].pinned(h)
    }

    /// The key of the entry that `h` holds.
    pub closed spec fn handle_key(&self, h: LruRes) -> Seq<u8> {
        self.shared@[h.shard as int].handle_key(h)
    }

    /// The value of the entry that `h` holds.
    pub closed spec fn handle_value(&self, h: LruRes) -> V {
        self.shared@[h.shard as int].handle_value(h)
    }

    /// What each shard holds is in order as the model of a shard is.
    pub proof fn lemma_shard_wf(&self, i: int)
        requires
            self.wf(),
            0 <= i < 16,
        ensures
            crate::util::cache_model::model_wf(self.shard_view(i)),
    {
        self.shared@[i].lemma_view_wf();
    }

    /// Number of handles on the entry that `h` holds.
    pub closed spec fn handle_refs(&self, h: LruRes) -> nat {
        self.shared@[h.shard as int].handle_refs(h)
    }

    /// Whether two handles hold the same entry.
    pub closed spec fn same_entry(a: LruRes, b: LruRes) -> bool {
        a.shard == b.shard && a.slot == b.slot
    }

    /// Whether `o`, which held an entry in `before`, holds it as it was:
    /// with its key, its value, its count of handles, and found by the
    /// cache or not as before.
    pub closed spec fn kept(&self, before: &Self, o: LruRes) -> bool {
        &&& self.pinned(o)
        &&& self.handle_key(o) == before.handle_key(o)
        &&& self.handle_value(o) == before.handle_value(o)
        &&& self.handle_refs(o) == before.handle_refs(o)
        &&& self.attached(o) == before.attached(o)
    }

    /// Whether two handles hold the same entry does not hang on their
    /// order.
    pub proof fn lemma_same_entry(a: LruRes, b: LruRes)
        ensures
            Self::same_entry(a, b) == Self::same_entry(b, a),
    {
    }

    /// What `kept` says.
    pub proof fn lemma_kept(&self, before: &Self, o: LruRes)
        requires
            self.kept(before, o),
        ensures
            self.pinned(o),
            self.handle_key(o) == before.handle_key(o),
            self.handle_value(o) == before.handle_value(o),
            self.handle_refs(o) == before.handle_refs(o),
            self.attached(o) == before.attached(o),
            self.handle_shard(o) == before.handle_shard(o),
    {
    }

    /// Handles on entries of different keys hold different entries.
    pub proof fn lemma_different_keys(&self, a: LruRes, b: LruRes)
        requires
            self.handle_key(a) != self.handle_key(b),
        ensures
            !Self::same_entry(a, b),
    {
    }

    /// A step of one shard keeps the handles of the others, and those of
    /// the shard that the shard kept.
    proof fn lemma_shard_step(&self, before: &Self, i: int, h: LruRes, key: Seq<u8>, o: LruRes)
        requires
            before.wf(),
            self.shared@.len() == 16,
            0 <= i < 16,
            forall|j: int| 0 <= j < 16 && j != i ==> self.shared@[j] == before.shared@[j],
            self.shared@[i].others_kept(&before.shared@[i], h),
            before.shared@[i].apart(h, key),
            before.pinned(o),
            !(before.attached(o) && before.handle_key(o) == key),
        ensures
            self.kept(before, o),
            !Self::same_entry(o, LruRes { slot: h.slot, shard: i as usize }),
    {
        if o.shard as int == i {
            self.shared@[i].lemma_held_across(&before.shared@[i], h, key, o);
        }
    }

    /// The shard of the entry that `h` holds.
    pub closed spec fn handle_shard(&self, h: LruRes) -> int {
        h.shard as int
    }

    /// Whether the cache still finds the entry that `h` holds under its
    /// key.
    pub closed spec fn attached(&self, h: LruRes) -> bool {
        self.shared@[h.shard as int].attached(h)
    }

    /// A cache that keeps up to `capacity` entries that nobody holds,
    /// rounded up to a multiple of sixteen.
    pub fn new(capacity: usize) -> (c: Self)
        requires
            capacity > 0,
        ensures
            c.wf(),
            c.last_id() == 0,
            forall|i: int|
                0 <= i < 16 ==> #[trigger] c.shard_view(i)
                    == crate::util::cache_model::model_empty::<V>(
                    ((capacity - 1) / 16 + 1) as nat,
                ),
    {
        let per_shard = (capacity - 1) / K_NUM_SHARDS + 1;
        let mut shared: Vec<LRUCache<V>> = Vec::new();
        while shared.len() < K_NUM_SHARDS
            invariant
                per_shard > 0,
                shared@.len() <= 16,
                forall|i: int|
                    0 <= i < shared@.len() ==> (#[trigger] shared@[i]).wf() && shared@[i]@
                        == crate::util::cache_model::model_empty::<V>(per_shard as nat),
            decreases 16 - shared@.len(),
        {
            shared.push(LRUCache::new(per_shard));
        }
        ShardedLRUCache { shared, last_id_: 0 }
    }

    /// The index of the shard for a hash.
    pub fn shard(hash: u32) -> (i: usize)
        ensures
            i == (hash >> 28),
            i < 16,
    {
        proof {
            lemma_shard_in_range(hash);
        }
        (hash >> 28) as usize
    }

    /// Binds `key` to `value` in the shard of `key`; see
    /// [`LRUCache::put`].
    pub fn insert(&mut self, key: &[u8], value: V) -> (r: Option<LruRes>)
        requires
            old(self).wf(),
        ensures
            final(self).wf(),
            final(self).last_id() == old(self).last_id(),
            forall|o: LruRes| #[trigger]
                old(self).pinned(o) && (r is None || !(old(self).attached(o) && old(
                    self,
                ).handle_key(o) == key@)) ==> final(self).kept(old(self), o) && (r matches Some(h)
                    ==> !Self::same_entry(o, h)),
            forall|i: int|
                0 <= i < 16 && i != shard_of(key@) ==> #[trigger] final(self).shard_view(i) == old(
                    self,
                ).shard_view(i),
            r is None <==> old(self).shard_view(shard_of(key@) as int).entries.dom().contains(key@)
                && old(self).shard_view(shard_of(key@) as int).entries[key@].1 >= u64::MAX,
            match r {
                Some(h) => {
                    &&& final(self).shard_view(shard_of(key@) as int)
                        == crate::util::cache_model::model_put(
                        old(self).shard_view(shard_of(key@) as int),
                        key@,
                        value,
                    )
                    &&& final(self).pinned(h)
                    &&& final(self).attached(h)
                    &&& final(self).handle_shard(h) == shard_of(key@)
                    &&& final(self).handle_key(h) == key@
                    &&& final(self).handle_value(h) == value
                },
                None => final(self).shard_view(shard_of(key@) as int) == old(self).shard_view(
                    shard_of(key@) as int,
                ),
            },
    {
        let i = Self::shard(hash_bytes(key, 0));
        let ghost before = self.shared@;
        let r = self.shared[i].put(key, value);
        proof {
            assert forall|j: int| 0 <= j < 16 implies (#[trigger] self.shared@[j]).wf() by {
                if j != i {
                    assert(self.shared@[j] == before[j]);
                }
            }
        }
        proof {
            assert forall|o: LruRes| #[trigger]
                old(self).pinned(o) && (r is None || !(old(self).attached(o) && old(
                    self,
                ).handle_key(o) == key@)) implies self.kept(old(self), o) && (r matches Some(h)
                ==> !Self::same_entry(o, LruRes { slot: h.slot, shard: i })) by {
                match r {
                    Some(h) => {
                        self.lemma_shard_step(old(self), i as int, h, key@, o);
                    },
                    None => {
                        if o.shard != i {
                            assert(self.shared@[o.shard as int] == before[o.shard as int]);
                        }
                    },
                }
            }
        }
        match r {
            Some(h) => Some(LruRes { slot: h.slot, shard: i }),
            None => None,
        }
    }

    /// A new identifier, larger than all handed out before, as long as
    /// identifiers are left.
    pub fn new_id(&mut self) -> (id: u64)
        requires
            old(self).wf(),
        ensures
            final(self).wf(),
            id == if old(self).last_id() < u64::MAX {
                old(self).last_id() + 1
            } else {
                u64::MAX as int
            },
            final(self).last_id() == id,
            forall|i: int|
                0 <= i < 16 ==> #[trigger] final(self).shard_view(i) == old(self).shard_view(i),
    {
        if self.last_id_ < u64::MAX {
            self.last_id_ = self.last_id_ + 1;
        }
        self.last_id_
    }

    /// Looks `key` up in its shard; see [`LRUCache::get`].
    pub fn get(&mut self, key: &[u8]) -> (r: Option<LruRes>)
        requires
            old(self).wf(),
        ensures
            final(self).wf(),
            final(self).last_id() == old(self).last_id(),
            forall|o: LruRes| #[trigger]
                old(self).pinned(o) && (r is None || !(old(self).attached(o) && old(
                    self,
                ).handle_key(o) == key@)) ==> final(self).kept(old(self), o) && (r matches Some(h)
                    ==> !Self::same_entry(o, h)),
            forall|i: int|
                0 <= i < 16 && i != shard_of(key@) ==> #[trigger] final(self).shard_view(i) == old(
                    self,
                ).shard_view(i),
            r is Some <==> old(self).shard_view(shard_of(key@) as int).entries.dom().contains(key@)
                && old(self).shard_view(shard_of(key@) as int).entries[key@].1 < u64::MAX,
            match r {
                Some(h) => {
                    &&& final(self).shard_view(shard_of(key@) as int)
                        == crate::util::cache_model::model_get(
                        old(self).shard_view(shard_of(key@) as int),
                        key@,
                    )
                    &&& final(self).pinned(h)
                    &&& final(self).attached(h)
                    &&& final(self).handle_shard(h) == shard_of(key@)
                    &&& final(self).handle_key(h) == key@
                    &&& final(self).handle_value(h) == old(self).shard_view(
                        shard_of(key@) as int,
                    ).entries[key@].0
                },
                None => final(self).shard_view(shard_of(key@) as int) == old(self).shard_view(
                    shard_of(key@) as int,
                ),
            },
    {
        let i = Self::shard(hash_bytes(key, 0));
        let ghost before = self.shared@;
        let r = self.shared[i].get(key);
        proof {
            assert forall|j: int| 0 <= j < 16 implies (#[trigger] self.shared@[j]).wf() by {
                if j != i {
                    assert(self.shared@[j] == before[j]);
                }
            }
        }
        proof {
            assert forall|o: LruRes| #[trigger]
                old(self).pinned(o) && (r is None || !(old(self).attached(o) && old(
                    self,
                ).handle_key(o) == key@)) implies self.kept(old(self), o) && (r matches Some(h)
                ==> !Self::same_entry(o, LruRes { slot: h.slot, shard: i })) by {
                match r {
                    Some(h) => {
                        self.lemma_shard_step(old(self), i as int, h, key@, o);
                    },
                    None => {
                        if o.shard != i {
                            assert(self.shared@[o.shard as int] == before[o.shard as int]);
                        }
                    },
                }
            }
        }
        match r {
            Some(h) => Some(LruRes { slot: h.slot, shard: i }),
            None => None,
        }
    }

    /// Whether `h` holds an entry of this cache.
    pub fn holds(&self, h: &LruRes) -> (b: bool)
        requires
            self.wf(),
        ensures
            b == self.pinned(*h),
    {
        h.shard < K_NUM_SHARDS && self.shared[h.shard].holds(h)
    }

    /// The value of the entry that `h` holds.
    pub fn value(&self, h: &LruRes) -> (v: &V)
        requires
            self.wf(),
            self.pinned(*h),
        ensures
            *v == self.handle_value(*h),
    {
        self.shared[h.shard].value(h)
    }

    /// Every entry of every shard was there before, with the same value.
    pub closed spec fn values_kept(&self, before: &Self) -> bool {
        forall|i: int, k: Seq<u8>|
            0 <= i < 16 && #[trigger] self.shared@[i]@.entries.dom().contains(k)
                ==> before.shared@[i]@.entries.dom().contains(k) && self.shared@[i]@.entries[k].0
                == before.shared@[i]@.entries[k].0
    }

    /// What `values_kept` says.
    pub proof fn lemma_values_kept(&self, before: &Self)
        requires
            self.values_kept(before),
        ensures
            forall|i: int, k: Seq<u8>|
                0 <= i < 16 && #[trigger] self.shard_view(i).entries.dom().contains(k)
                    ==> before.shard_view(i).entries.dom().contains(k) && self.shard_view(
                    i,
                ).entries[k].0 == before.shard_view(i).entries[k].0,
    {
    }

    /// Gives a handle back; see [`LRUCache::release`].
    pub fn release(&mut self, h: LruRes)
        requires
            old(self).wf(),
            old(self).pinned(h),
        ensures
            final(self).wf(),
            final(self).last_id() == old(self).last_id(),
            final(self).values_kept(old(self)),
            forall|o: LruRes| #[trigger]
                old(self).pinned(o) && !Self::same_entry(o, h) ==> final(self).kept(old(self), o),
            old(self).handle_refs(h) > 1 ==> final(self).pinned(h) && final(self).handle_refs(h)
                == old(self).handle_refs(h) - 1 && final(self).handle_key(h) == old(
                self,
            ).handle_key(h) && final(self).handle_value(h) == old(self).handle_value(h)
                && final(self).attached(h) == old(self).attached(h),
            0 <= old(self).handle_shard(h) < 16,
            forall|i: int|
                0 <= i < 16 && i != old(self).handle_shard(h) ==> #[trigger] final(self).shard_view(
                    i,
                ) == old(self).shard_view(i),
            final(self).shard_view(old(self).handle_shard(h)) == if old(self).attached(h) {
                crate::util::cache_model::model_release(
                    old(self).shard_view(old(self).handle_shard(h)),
                    old(self).handle_key(h),
                )
            } else {
                old(self).shard_view(old(self).handle_shard(h))
            },
    {
        let i = h.shard;
        let ghost before = self.shared@;
        let ghost key = self.shared@[i as int].handle_key(h);
        let ghost held = h;
        self.shared[i].release(h);
        proof {
            assert forall|j: int| 0 <= j < 16 implies (#[trigger] self.shared@[j]).wf() by {
                if j != i {
                    assert(self.shared@[j] == before[j]);
                }
            }
            assert forall|o: LruRes| #[trigger]
                old(self).pinned(o) && !Self::same_entry(o, held) implies self.kept(
                old(self),
                o,
            ) by {
                if o.shard == i {
                    self.shared@[i as int].lemma_others_kept(&before[i as int], held, o);
                } else {
                    assert(self.shared@[o.shard as int] == before[o.shard as int]);
                }
            }
            assert forall|j: int, k: Seq<u8>|
                0 <= j < 16 && #[trigger] self.shared@[j]@.entries.dom().contains(
                    k,
                ) implies before[j]@.entries.dom().contains(k) && self.shared@[j]@.entries[k].0
                == before[j]@.entries[k].0 by {
                if j != i {
                    assert(self.shared@[j] == before[j]);
                }
            }
        }
    }

    /// Takes the entry of `key` out of its shard; see [`LRUCache::erase`].
    pub fn erase(&mut self, key: &[u8])
        requires
            old(self).wf(),
        ensures
            final(self).wf(),
            final(self).last_id() == old(self).last_id(),
            forall|o: LruRes| #[trigger]
                old(self).pinned(o) ==> {
                    &&& final(self).pinned(o)
                    &&& final(self).handle_key(o) == old(self).handle_key(o)
                    &&& final(self).handle_value(o) == old(self).handle_value(o)
                    &&& final(self).handle_refs(o) == old(self).handle_refs(o)
                    &&& final(self).attached(o) == (old(self).attached(o) && !(old(
                        self,
                    ).handle_key(o) == key@ && old(self).handle_shard(o) == shard_of(key@)))
                },
            forall|i: int|
                0 <= i < 16 && i != shard_of(key@) ==> #[trigger] final(self).shard_view(i) == old(
                    self,
                ).shard_view(i),
            final(self).shard_view(shard_of(key@) as int)
                == crate::util::cache_model::model_erase(
                old(self).shard_view(shard_of(key@) as int),
                key@,
            ),
    {
        let i = Self::shard(hash_bytes(key, 0));
        let ghost before = self.shared@;
        self.shared[i].erase(key);
        proof {
            assert forall|j: int| 0 <= j < 16 implies (#[trigger] self.shared@[j]).wf() by {
                if j != i {
                    assert(self.shared@[j] == before[j]);
                }
            }
            assert forall|o: LruRes| #[trigger] old(self).pinned(o) implies self.pinned(o)
                && self.handle_key(o) == old(self).handle_key(o) && self.handle_value(o) == old(
                self,
            ).handle_value(o) && self.handle_refs(o) == old(self).handle_refs(o) && self.attached(
                o,
            ) == (old(self).attached(o) && !(old(self).handle_key(o) == key@ && old(
                self,
            ).handle_shard(o) == shard_of(key@))) by {
                if o.shard == i {
                    self.shared@[i as int].lemma_erased_handle(&before[i as int], key@, o);
                } else {
                    assert(self.shared@[o.shard as int] == before[o.shard as int]);
                }
            }
        }
    }
}

} // verus!
