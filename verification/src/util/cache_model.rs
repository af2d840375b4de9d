//! What a cache shard holds, told without its storage, and the laws of
//! eviction.

use vstd::prelude::*;

verus! {

/// The entries of a cache shard: each key with its value and the count of
/// handles that hold it; and the keys that nobody holds, the one used least
/// recently first.
pub struct CacheModel<V> {
    pub capacity: nat,
    pub entries: Map<Seq<u8>, (V, nat)>,
    pub lru: Seq<Seq<u8>>,
}

/// A shard of the given capacity that holds nothing.
pub open spec fn model_empty<V>(capacity: nat) -> CacheModel<V> {
    CacheModel { capacity, entries: Map::empty(), lru: Seq::empty() }
}

/// An entry is among the keys that nobody holds if and only if no handle
/// holds it, and there only once.
pub open spec fn model_wf<V>(m: CacheModel<V>) -> bool {
    &&& m.entries.dom().finite()
    &&& m.lru.no_duplicates()
    &&& forall|i: int|
        0 <= i < m.lru.len() ==> m.entries.dom().contains(#[trigger] m.lru[i]) && m.entries[m.lru[i]].1
            == 0
    &&& forall|k: Seq<u8>|
        m.entries.dom().contains(k) && (#[trigger] m.entries[k]).1 == 0 ==> m.lru.contains(k)
}

/// Evicts the entries that nobody holds, the one used least recently
/// first, for as long as the shard holds more entries than its capacity.
pub open spec fn model_evict<V>(m: CacheModel<V>) -> CacheModel<V>
    decreases m.lru.len(),
{
    if m.entries.dom().len() > m.capacity && m.lru.len() > 0 {
        model_evict(
            CacheModel {
                capacity: m.capacity,
                entries: m.entries.remove(m.lru[0]),
                lru: m.lru.skip(1),
            },
        )
    } else {
        m
    }
}

/// `lru` without `key`.
pub open spec fn without(lru: Seq<Seq<u8>>, key: Seq<u8>) -> Seq<Seq<u8>> {
    if lru.contains(key) {
        lru.remove(lru.index_of(key))
    } else {
        lru
    }
}

/// A key is looked up and, where it is there, held by one more handle.
pub open spec fn model_get<V>(m: CacheModel<V>, key: Seq<u8>) -> CacheModel<V> {
    if m.entries.dom().contains(key) {
        CacheModel {
            capacity: m.capacity,
            entries: m.entries.insert(key, (m.entries[key].0, m.entries[key].1 + 1)),
            lru: without(m.lru, key),
        }
    } else {
        m
    }
}

/// A key is bound to a value and held by one more handle.  A key that was
/// not there may push out entries that nobody holds.
pub open spec fn model_put<V>(m: CacheModel<V>, key: Seq<u8>, value: V) -> CacheModel<V> {
    if m.entries.dom().contains(key) {
        CacheModel {
            capacity: m.capacity,
            entries: m.entries.insert(key, (value, m.entries[key].1 + 1)),
            lru: without(m.lru, key),
        }
    } else {
        model_evict(
            CacheModel {
                capacity: m.capacity,
                entries: m.entries.insert(key, (value, 1)),
                lru: m.lru,
            },
        )
    }
}

/// A handle on a key lets go.  An entry that no handle holds any more
/// becomes the one used most recently among those that nobody holds.
pub open spec fn model_release<V>(m: CacheModel<V>, key: Seq<u8>) -> CacheModel<V> {
    if m.entries.dom().contains(key) && m.entries[key].1 > 0 {
        let left = (m.entries[key].1 - 1) as nat;
        CacheModel {
            capacity: m.capacity,
            entries: m.entries.insert(key, (m.entries[key].0, left)),
            lru: if left == 0 {
                m.lru.push(key)
            } else {
                m.lru
            },
        }
    } else {
        m
    }
}

/// A key is taken out, whoever holds it.
pub open spec fn model_erase<V>(m: CacheModel<V>, key: Seq<u8>) -> CacheModel<V> {
    CacheModel { capacity: m.capacity, entries: m.entries.remove(key), lru: without(m.lru, key) }
}

/// What is left behind eviction was there before, with the same value
/// and the same count of handles.
pub proof fn lemma_evict_keeps_entries<V>(m: CacheModel<V>, k: Seq<u8>)
    requires
        model_evict(m).entries.dom().contains(k),
    ensures
        m.entries.dom().contains(k),
        model_evict(m).entries[k] == m.entries[k],
    decreases m.lru.len(),
{
    if m.entries.dom().len() > m.capacity && m.lru.len() > 0 {
        let next = CacheModel {
            capacity: m.capacity,
            entries: m.entries.remove(m.lru[0]),
            lru: m.lru.skip(1),
        };
        lemma_evict_keeps_entries(next, k);
    }
}

/// Eviction takes out only entries that nobody holds.
pub proof fn lemma_evict_spares_held<V>(m: CacheModel<V>, held: Seq<u8>)
    requires
        model_wf(m),
        m.entries.dom().contains(held),
        m.entries[held].1 > 0,
    ensures
        model_evict(m).entries.dom().contains(held),
        model_evict(m).entries[held] == m.entries[held],
    decreases m.lru.len(),
{
    if m.entries.dom().len() > m.capacity && m.lru.len() > 0 {
        let next = CacheModel {
            capacity: m.capacity,
            entries: m.entries.remove(m.lru[0]),
            lru: m.lru.skip(1),
        };
        lemma_evict_step_wf(m);
        assert(m.lru[0] != held);
        lemma_evict_spares_held(next, held);
    }
}

proof fn lemma_evict_step_wf<V>(m: CacheModel<V>)
    requires
        model_wf(m),
        m.lru.len() > 0,
    ensures
        model_wf(
            CacheModel {
                capacity: m.capacity,
                entries: m.entries.remove(m.lru[0]),
                lru: m.lru.skip(1),
            },
        ),
{
    let next = CacheModel {
        capacity: m.capacity,
        entries: m.entries.remove(m.lru[0]),
        lru: m.lru.skip(1),
    };
    assert forall|i: int| 0 <= i < next.lru.len() implies next.entries.dom().contains(
        #[trigger] next.lru[i],
    ) && next.entries[next.lru[i]].1 == 0 by {
        assert(next.lru[i] == m.lru[i + 1]);
    }
    assert forall|k: Seq<u8>|
        next.entries.dom().contains(k) && (#[trigger] next.entries[k]).1
            == 0 implies next.lru.contains(k) by {
        assert(m.entries[k].1 == 0);
        assert(m.lru.contains(k));
        let j = choose|j: int| 0 <= j < m.lru.len() && m.lru[j] == k;
        assert(j > 0);
        assert(next.lru[j - 1] == k);
    }
}

/// What was put under a key is there behind the `put`, held once where
/// the key was new.
pub proof fn lemma_put_is_there<V>(m: CacheModel<V>, key: Seq<u8>, value: V)
    requires
        model_wf(m),
    ensures
        model_put(m, key, value).entries.dom().contains(key),
        model_put(m, key, value).entries[key] == (
            value,
            if m.entries.dom().contains(key) {
                m.entries[key].1 + 1
            } else {
                1nat
            },
        ),
{
    if !m.entries.dom().contains(key) {
        let grown = CacheModel {
            capacity: m.capacity,
            entries: m.entries.insert(key, (value, 1nat)),
            lru: m.lru,
        };
        assert(model_wf(grown)) by {
            assert forall|k: Seq<u8>|
                grown.entries.dom().contains(k) && (#[trigger] grown.entries[k]).1
                    == 0 implies grown.lru.contains(k) by {
                assert(m.entries.dom().contains(k));
            }
        }
        lemma_evict_spares_held(grown, key);
    }
}

/// Cache eviction, second part: an entry that a handle holds outlasts
/// every `put`.
pub proof fn lemma_held_outlasts_put<V>(m: CacheModel<V>, key: Seq<u8>, value: V, held: Seq<u8>)
    requires
        model_wf(m),
        m.entries.dom().contains(held),
        m.entries[held].1 > 0,
    ensures
        model_put(m, key, value).entries.dom().contains(held),
        model_put(m, key, value).entries[held].1 > 0,
{
    if !m.entries.dom().contains(key) {
        let grown = CacheModel {
            capacity: m.capacity,
            entries: m.entries.insert(key, (value, 1nat)),
            lru: m.lru,
        };
        assert(model_wf(grown)) by {
            assert forall|k: Seq<u8>|
                grown.entries.dom().contains(k) && (#[trigger] grown.entries[k]).1
                    == 0 implies grown.lru.contains(k) by {
                assert(m.entries[k].1 == 0);
            }
        }
        lemma_evict_spares_held(grown, held);
    }
}

/// The shard after each of `keys` was put with its value and let go at
/// once, in order.
pub open spec fn model_fill<V>(m: CacheModel<V>, keys: Seq<Seq<u8>>, values: Seq<V>) -> CacheModel<
    V,
>
    decreases keys.len(),
{
    if keys.len() == 0 {
        m
    } else {
        model_release(
            model_put(
                model_fill(m, keys.drop_last(), values.drop_last()),
                keys.last(),
                values.last(),
            ),
            keys.last(),
        )
    }
}

/// The last `count` of `keys`, or all where there are fewer.
pub open spec fn last_keys(keys: Seq<Seq<u8>>, count: nat) -> Seq<Seq<u8>> {
    if keys.len() <= count {
        keys
    } else {
        keys.skip(keys.len() - count)
    }
}

proof fn lemma_fill_state<V>(capacity: nat, keys: Seq<Seq<u8>>, values: Seq<V>)
    requires
        capacity >= 1,
        keys.no_duplicates(),
        values.len() == keys.len(),
    ensures
        ({
            let m = model_fill(model_empty::<V>(capacity), keys, values);
            &&& m.capacity == capacity
            &&& m.lru == last_keys(keys, capacity)
            &&& m.entries.dom() == m.lru.to_set()
            &&& forall|k: Seq<u8>| m.entries.dom().contains(k) ==> (#[trigger] m.entries[k]).1 == 0
        }),
    decreases keys.len(),
{
    let empty = model_empty::<V>(capacity);
    if keys.len() == 0 {
        assert(empty.entries.dom() =~= empty.lru.to_set());
    } else {
        let n = keys.len() as int;
        let front = keys.drop_last();
        let key = keys.last();
        lemma_fill_state(capacity, front, values.drop_last());
        let before = model_fill(empty, front, values.drop_last());
        assert(!before.lru.contains(key)) by {
            if before.lru.contains(key) {
                let j = choose|j: int| 0 <= j < before.lru.len() && before.lru[j] == key;
                if front.len() <= capacity {
                    assert(keys[j] == keys[n - 1]);
                } else {
                    assert(keys[j + front.len() - capacity] == keys[n - 1]);
                }
            }
        }
        assert(!before.entries.dom().contains(key));
        assert(before.lru.no_duplicates()) by {
            assert forall|i: int, j: int|
                0 <= i < before.lru.len() && 0 <= j < before.lru.len() && i != j implies before.lru[i]
                != before.lru[j] by {
                if front.len() <= capacity {
                    assert(before.lru[i] == keys[i] && before.lru[j] == keys[j]);
                } else {
                    assert(before.lru[i] == keys[i + front.len() - capacity]);
                    assert(before.lru[j] == keys[j + front.len() - capacity]);
                }
            }
        }
        before.lru.unique_seq_to_set();
        let grown = CacheModel {
            capacity,
            entries: before.entries.insert(key, (values.last(), 1nat)),
            lru: before.lru,
        };
        assert(grown.entries.dom().len() == before.lru.len() + 1);
        let put = model_put(before, key, values.last());
        assert(put == model_evict(grown));
        if grown.entries.dom().len() > capacity {
            assert(before.lru.len() == capacity);
            let next = CacheModel {
                capacity,
                entries: grown.entries.remove(grown.lru[0]),
                lru: grown.lru.skip(1),
            };
            assert(grown.entries.dom().contains(grown.lru[0])) by {
                assert(before.lru.to_set().contains(before.lru[0]));
            }
            assert(next.entries.dom().len() == capacity);
            assert(model_evict(grown) == model_evict(next));
            assert(model_evict(next) == next);
            let m = model_release(next, key);
            assert(m.lru =~= last_keys(keys, capacity));
            assert(m.entries.dom() =~= m.lru.to_set()) by {
                assert forall|k: Seq<u8>| m.entries.dom().contains(k) implies m.lru.to_set().contains(
                    k,
                ) by {
                    if k != key {
                        assert(before.lru.to_set().contains(k));
                        let j = choose|j: int| 0 <= j < before.lru.len() && before.lru[j] == k;
                        assert(j > 0);
                        assert(m.lru[j - 1] == k);
                    } else {
                        assert(m.lru[m.lru.len() - 1] == key);
                    }
                }
                assert forall|k: Seq<u8>| m.lru.to_set().contains(k) implies m.entries.dom().contains(
                    k,
                ) by {
                    let j = choose|j: int| 0 <= j < m.lru.len() && m.lru[j] == k;
                    if j < m.lru.len() - 1 {
                        assert(before.lru[j + 1] == k);
                        assert(before.lru.to_set().contains(k));
                        assert(before.lru[0] != before.lru[j + 1]);
                    }
                }
            }
        } else {
            assert(model_evict(grown) == grown);
            let m = model_release(grown, key);
            assert(m.lru =~= last_keys(keys, capacity));
            assert(m.entries.dom() =~= m.lru.to_set()) by {
                assert forall|k: Seq<u8>| m.entries.dom().contains(k) implies m.lru.to_set().contains(
                    k,
                ) by {
                    if k != key {
                        assert(before.lru.to_set().contains(k));
                        let j = choose|j: int| 0 <= j < before.lru.len() && before.lru[j] == k;
                        assert(m.lru[j] == k);
                    } else {
                        assert(m.lru[m.lru.len() - 1] == key);
                    }
                }
                assert forall|k: Seq<u8>| m.lru.to_set().contains(k) implies m.entries.dom().contains(
                    k,
                ) by {
                    let j = choose|j: int| 0 <= j < m.lru.len() && m.lru[j] == k;
                    if j < m.lru.len() - 1 {
                        assert(before.lru[j] == k);
                        assert(before.lru.to_set().contains(k));
                    }
                }
            }
        }
    }
}

/// Cache eviction, first part: after keys that all differ were put into an
/// empty shard and let go, one after another, the shard holds exactly the
/// last `capacity` of them; of `n` keys, `n - capacity` are gone.
pub proof fn lemma_cache_eviction<V>(capacity: nat, keys: Seq<Seq<u8>>, values: Seq<V>)
    requires
        capacity >= 1,
        keys.no_duplicates(),
        values.len() == keys.len(),
    ensures
        forall|i: int|
            0 <= i < keys.len() ==> (model_fill(
                model_empty::<V>(capacity),
                keys,
                values,
            ).entries.dom().contains(#[trigger] keys[i]) <==> i >= keys.len() - capacity),
{
    lemma_fill_state(capacity, keys, values);
    let m = model_fill(model_empty::<V>(capacity), keys, values);
    let n = keys.len() as int;
    assert forall|i: int| 0 <= i < n implies (m.entries.dom().contains(#[trigger] keys[i]) <==> i
        >= n - capacity) by {
        if i >= n - capacity {
            if n <= capacity {
                assert(m.lru[i] == keys[i]);
            } else {
                assert(m.lru[i - (n - capacity)] == keys[i]);
            }
            assert(m.lru.to_set().contains(keys[i]));
        } else {
            if m.entries.dom().contains(keys[i]) {
                assert(m.lru.to_set().contains(keys[i]));
                let j = choose|j: int| 0 <= j < m.lru.len() && m.lru[j] == keys[i];
                assert(keys[j + n - capacity] == keys[i]);
            }
        }
    }
}

} // verus!
