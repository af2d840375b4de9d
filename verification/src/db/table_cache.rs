//! Keeps the tables that were opened last at hand, one for each file
//! number.

use crate::db::file_name::{sst_table_file_name, table_file_name};
use crate::obj::options::{Options, ReadOptions};
use crate::obj::slice::Slice;
use crate::obj::status_rs::{Status, StatusCode};
use crate::table::block::Block;
use crate::table::table::{block_in_order, cache_last_id, cache_ok, cache_same, Table};
use crate::unit::filter_policy::FilterPolicy;
use crate::util::cache::{lemma_shard_of, shard_of, LruRes, ShardedLRUCache};
use crate::util::cache_model::{lemma_put_is_there, model_get, model_put};
use crate::util::coding::{fixed64_bytes, put_fixed64};
use crate::util::comparator::Comparator;
use crate::util::env::Env;
use vstd::prelude::*;

verus! {

/// Files that a database keeps open beside its tables.
pub const K_NUM_NON_TABLE_CACHE_FILES: u64 = 10;

/// The capacity of the table cache for a bound on open files: the bound
/// less the files kept open for other uses, and 1 at least.
pub fn table_cache_size(max_open_files: u64) -> (size: usize)
    ensures
        size >= 1,
        K_NUM_NON_TABLE_CACHE_FILES < max_open_files <= usize::MAX ==> size == max_open_files
            - K_NUM_NON_TABLE_CACHE_FILES,
        max_open_files <= K_NUM_NON_TABLE_CACHE_FILES ==> size == 1,
{
    if max_open_files <= K_NUM_NON_TABLE_CACHE_FILES {
        1
    } else if max_open_files - K_NUM_NON_TABLE_CACHE_FILES > usize::MAX as u64 {
        usize::MAX
    } else {
        (max_open_files - K_NUM_NON_TABLE_CACHE_FILES) as usize
    }
}

/// The key of a table in the table cache: its file number in eight bytes,
/// least significant first.
pub open spec fn table_cache_key(file_number: u64) -> Seq<u8> {
    fixed64_bytes(file_number)
}

/// The key of a table in the table cache.
fn make_table_key(file_number: u64) -> (key: Vec<u8>)
    ensures
        key@ == table_cache_key(file_number),
{
    let mut key: Vec<u8> = Vec::new();
    put_fixed64(&mut key, file_number);
    proof {
        assert(key@ =~= fixed64_bytes(file_number));
    }
    key
}

/// A cache of open tables.
pub struct TableCache<E: Env, C: Comparator + Copy, P: FilterPolicy + Copy> {
    env_: E,
    db_name: String,
    options: Options,
    comparator: C,
    policy: Option<P>,
    cache_: ShardedLRUCache<Table<E::File, C, P>>,
}

impl<E: Env, C: Comparator + Copy, P: FilterPolicy + Copy> TableCache<E, C, P> {
    /// What the cache relies on between calls: every table in it is in the
    /// order of the cache.
    pub closed spec fn inv(&self) -> bool {
        &&& self.cache_.wf()
        &&& Self::tables_ordered(self.cache_, self.comparator)
    }

    /// Every table in `cache` is in the order `order`.
    #[verifier::opaque]
    spec fn tables_ordered(cache: ShardedLRUCache<Table<E::File, C, P>>, order: C) -> bool {
        forall|i: int, k: Seq<u8>|
            0 <= i < 16 && #[trigger] cache.shard_view(i).entries.dom().contains(k)
                ==> cache.shard_view(i).entries[k].0.order() == order
    }

    /// The order of the keys of the tables.
    pub closed spec fn order(&self) -> C {
        self.comparator
    }

    /// The table that the cache hands out for a file number: the one that
    /// it holds under the key of that number, unless its count of handles
    /// is used up.
    pub closed spec fn cached_table(&self, file_number: u64) -> Option<Table<E::File, C, P>> {
        let key = table_cache_key(file_number);
        let shard = self.cache_.shard_view(shard_of(key) as int);
        if shard.entries.dom().contains(key) && shard.entries[key].1 < u64::MAX {
            Some(shard.entries[key].0)
        } else {
            None
        }
    }

    /// The tables that the cache holds are in its order.
    pub proof fn lemma_cached_table(&self, file_number: u64)
        requires
            self.inv(),
        ensures
            match self.cached_table(file_number) {
                Some(table) => table.order() == self.order(),
                None => true,
            },
    {
        reveal(TableCache::tables_ordered);
        lemma_shard_of(table_cache_key(file_number));
    }

    /// A cache of up to `entries` tables of the database `db_name`.
    pub fn new(
        db_name: String,
        options: Options,
        comparator: C,
        policy: Option<P>,
        env: E,
        entries: usize,
    ) -> (c: Self)
        requires
            entries > 0,
        ensures
            c.inv(),
            c.order() == comparator,
            forall|file_number: u64| c.cached_table(file_number) is None,
    {
        let c = TableCache {
            env_: env,
            db_name,
            options,
            comparator,
            policy,
            cache_: ShardedLRUCache::new(entries),
        };
        proof {
            reveal(TableCache::tables_ordered);
            assert forall|file_number: u64| c.cached_table(file_number) is None by {
                lemma_shard_of(table_cache_key(file_number));
            }
        }
        c
    }

    /// Opens the table of number `file_number`, under the name of its file
    /// or, where that cannot be opened, under the name that table files
    /// had before.
    fn open_table(
        &mut self,
        file_number: u64,
        file_size: u64,
        block_cache: &mut Option<ShardedLRUCache<Block>>,
    ) -> (r: Result<Table<E::File, C, P>, Status>)
        requires
            cache_ok(*old(block_cache)),
        ensures
            final(self).cache_ == old(self).cache_,
            final(self).comparator == old(self).comparator,
            (*final(block_cache)) is Some == (*old(block_cache)) is Some,
            cache_ok(*final(block_cache)),
            cache_same(*old(block_cache), *final(block_cache)),
            match r {
                Ok(table) => table.order() == old(self).comparator,
                Err(status) => status.spec_code() != StatusCode::Kok,
            },
    {
        let file_name = table_file_name(&self.db_name, file_number);
        let file = match self.env_.new_random_access_file(file_name.as_str()) {
            Ok(file) => file,
            Err(_) => {
                let old_file_name = sst_table_file_name(&self.db_name, file_number);
                match self.env_.new_random_access_file(old_file_name.as_str()) {
                    Ok(file) => file,
                    Err(status) => {
                        if status.is_ok() {
                            return Err(Status::io_error(old_file_name.as_str(), None));
                        }
                        return Err(status);
                    },
                }
            },
        };
        Table::open(self.options, self.comparator, self.policy, file, file_size, block_cache)
    }

    /// Looks the table of the given cache key up.
    fn lookup(&mut self, key: &[u8]) -> (r: Option<LruRes>)
        requires
            old(self).inv(),
        ensures
            final(self).inv(),
            final(self).comparator == old(self).comparator,
            final(self).env_ == old(self).env_,
            final(self).db_name == old(self).db_name,
            final(self).options == old(self).options,
            final(self).policy == old(self).policy,
            forall|i: int|
                0 <= i < 16 && i != shard_of(key@) ==> #[trigger] final(self).cache_.shard_view(i)
                    == old(self).cache_.shard_view(i),
            r is Some <==> old(self).cache_.shard_view(shard_of(key@) as int).entries.dom().contains(
                key@,
            ) && old(self).cache_.shard_view(shard_of(key@) as int).entries[key@].1 < u64::MAX,
            match r {
                Some(h) => {
                    &&& final(self).cache_.pinned(h)
                    &&& final(self).cache_.attached(h)
                    &&& final(self).cache_.handle_shard(h) == shard_of(key@)
                    &&& final(self).cache_.handle_key(h) == key@
                    &&& final(self).cache_.handle_value(h).order() == old(self).comparator
                    &&& final(self).cache_.handle_value(h) == old(self).cache_.shard_view(
                        shard_of(key@) as int,
                    ).entries[key@].0
                    &&& final(self).cache_.shard_view(shard_of(key@) as int) == model_get(
                        old(self).cache_.shard_view(shard_of(key@) as int),
                        key@,
                    )
                },
                None => final(self).cache_.shard_view(shard_of(key@) as int) == old(
                    self,
                ).cache_.shard_view(shard_of(key@) as int),
            },
    {
        let ghost before = self.cache_;
        let r = self.cache_.get(key);
        proof {
            self.lemma_after_get(&before, key@);
            reveal(TableCache::tables_ordered);
            crate::util::cache::lemma_shard_of(key@);
        }
        r
    }

    /// Puts a table under the given cache key.
    fn keep(&mut self, key: &[u8], table: Table<E::File, C, P>) -> (r: Option<LruRes>)
        requires
            old(self).inv(),
            table.order() == old(self).comparator,
        ensures
            final(self).inv(),
            final(self).comparator == old(self).comparator,
            forall|i: int|
                0 <= i < 16 && i != shard_of(key@) ==> #[trigger] final(self).cache_.shard_view(i)
                    == old(self).cache_.shard_view(i),
            r is None <==> old(self).cache_.shard_view(shard_of(key@) as int).entries.dom().contains(
                key@,
            ) && old(self).cache_.shard_view(shard_of(key@) as int).entries[key@].1 >= u64::MAX,
            match r {
                Some(h) => {
                    &&& final(self).cache_.pinned(h)
                    &&& final(self).cache_.attached(h)
                    &&& final(self).cache_.handle_shard(h) == shard_of(key@)
                    &&& final(self).cache_.handle_key(h) == key@
                    &&& final(self).cache_.handle_value(h) == table
                    &&& final(self).cache_.shard_view(shard_of(key@) as int) == model_put(
                        old(self).cache_.shard_view(shard_of(key@) as int),
                        key@,
                        table,
                    )
                },
                None => true,
            },
    {
        let ghost before = self.cache_;
        let r = self.cache_.insert(key, table);
        proof {
            self.lemma_after_insert(&before, key@, table);
        }
        r
    }

    /// Finds the table of number `file_number`, whose file is `file_size`
    /// bytes long, in the cache, or opens it and puts it there.
    fn find_table(
        &mut self,
        file_number: u64,
        file_size: u64,
        block_cache: &mut Option<ShardedLRUCache<Block>>,
    ) -> (r: Result<LruRes, Status>)
        requires
            old(self).inv(),
            cache_ok(*old(block_cache)),
        ensures
            final(self).inv(),
            final(self).order() == old(self).order(),
            (*final(block_cache)) is Some == (*old(block_cache)) is Some,
            cache_ok(*final(block_cache)),
            cache_same(*old(block_cache), *final(block_cache)),
            old(self).cached_table(file_number) is Some ==> r is Ok && cache_last_id(
                *final(block_cache),
            ) == cache_last_id(*old(block_cache)),
            match r {
                Ok(h) => {
                    let key = table_cache_key(file_number);
                    let shard = old(self).cache_.shard_view(shard_of(key) as int);
                    &&& final(self).cache_.pinned(h)
                    &&& final(self).cache_.attached(h)
                    &&& final(self).cache_.handle_shard(h) == shard_of(key)
                    &&& final(self).cache_.handle_key(h) == key
                    &&& final(self).cache_.handle_value(h).order() == old(self).order()
                    &&& final(self).cache_.shard_view(shard_of(key) as int) == match old(
                        self,
                    ).cached_table(file_number) {
                        Some(table) => model_get(shard, key),
                        None => model_put(shard, key, final(self).cache_.handle_value(h)),
                    }
                    &&& match old(self).cached_table(file_number) {
                        Some(table) => final(self).cache_.handle_value(h) == table,
                        None => !shard.entries.dom().contains(key),
                    }
                },
                Err(status) => status.spec_code() != StatusCode::Kok,
            },
    {
        let key = make_table_key(file_number);
        match self.lookup(key.as_slice()) {
            Some(h) => { return Ok(h); },
            None => {},
        }
        let table = match self.open_table(file_number, file_size, block_cache) {
            Ok(table) => table,
            Err(status) => { return Err(status); },
        };
        match self.keep(key.as_slice(), table) {
            Some(h) => Ok(h),
            None => Err(Status::io_error("table cache entry is held too often", None)),
        }
    }

    proof fn lemma_after_get(&self, before: &ShardedLRUCache<Table<E::File, C, P>>, key: Seq<u8>)
        requires
            before.wf(),
            self.cache_.wf(),
            Self::tables_ordered(*before, self.comparator),
            forall|i: int|
                0 <= i < 16 && i != crate::util::cache::shard_of(key)
                    ==> #[trigger] self.cache_.shard_view(i) == before.shard_view(i),
            self.cache_.shard_view(crate::util::cache::shard_of(key) as int)
                == crate::util::cache_model::model_get(
                before.shard_view(crate::util::cache::shard_of(key) as int),
                key,
            ) || self.cache_.shard_view(crate::util::cache::shard_of(key) as int)
                == before.shard_view(crate::util::cache::shard_of(key) as int),
        ensures
            self.inv(),
    {
        reveal(TableCache::tables_ordered);
        let s = crate::util::cache::shard_of(key) as int;
        assert forall|i: int, k: Seq<u8>|
            0 <= i < 16 && #[trigger] self.cache_.shard_view(i).entries.dom().contains(
                k,
            ) implies self.cache_.shard_view(i).entries[k].0.order() == self.comparator by {
            if self.cache_.shard_view(i) == before.shard_view(i) {
                assert(before.shard_view(i).entries.dom().contains(k));
            } else {
                assert(i == s);
                assert(before.shard_view(i).entries.dom().contains(k));
            }
        }
    }

    proof fn lemma_after_insert(
        &self,
        before: &ShardedLRUCache<Table<E::File, C, P>>,
        key: Seq<u8>,
        table: Table<E::File, C, P>,
    )
        requires
            before.wf(),
            self.cache_.wf(),
            table.order() == self.comparator,
            Self::tables_ordered(*before, self.comparator),
            forall|i: int|
                0 <= i < 16 && i != crate::util::cache::shard_of(key)
                    ==> #[trigger] self.cache_.shard_view(i) == before.shard_view(i),
            self.cache_.shard_view(crate::util::cache::shard_of(key) as int)
                == crate::util::cache_model::model_put(
                before.shard_view(crate::util::cache::shard_of(key) as int),
                key,
                table,
            ) || self.cache_.shard_view(crate::util::cache::shard_of(key) as int)
                == before.shard_view(crate::util::cache::shard_of(key) as int),
        ensures
            self.inv(),
    {
        reveal(TableCache::tables_ordered);
        let s = crate::util::cache::shard_of(key) as int;
        let m = before.shard_view(s);
        assert forall|i: int, k: Seq<u8>|
            0 <= i < 16 && #[trigger] self.cache_.shard_view(i).entries.dom().contains(
                k,
            ) implies self.cache_.shard_view(i).entries[k].0.order() == self.comparator by {
            if self.cache_.shard_view(i) == before.shard_view(i) {
                assert(before.shard_view(i).entries.dom().contains(k));
            } else if i == s {
                if m.entries.dom().contains(key) {
                    if k != key {
                        assert(m.entries.dom().contains(k));
                    }
                } else {
                    let grown = crate::util::cache_model::CacheModel {
                        capacity: m.capacity,
                        entries: m.entries.insert(key, (table, 1nat)),
                        lru: m.lru,
                    };
                    crate::util::cache_model::lemma_evict_keeps_entries(grown, k);
                    if k != key {
                        assert(m.entries.dom().contains(k));
                    }
                }
            } else {
                assert(self.cache_.shard_view(i) == before.shard_view(i));
                assert(before.shard_view(i).entries.dom().contains(k));
            }
        }
    }

    /// Looks `key` up in the table of number `file_number`: in the table
    /// that the cache hands out for that number or, where it has none, in
    /// the table that is opened for it and then kept in the cache.  What
    /// is returned is what [`Table::internal_get`] gives for that table.  A
    /// table that cannot be opened gives its error and no entry.
    pub fn get(
        &mut self,
        options: &ReadOptions,
        file_number: u64,
        file_size: u64,
        key: &[u8],
        block_cache: &mut Option<ShardedLRUCache<Block>>,
    ) -> (r: (Status, Option<(Slice, Slice)>))
        requires
            old(self).inv(),
            old(self).order().accepts(key@),
            cache_ok(*old(block_cache)),
        ensures
            final(self).inv(),
            final(self).order() == old(self).order(),
            (*final(block_cache)) is Some == (*old(block_cache)) is Some,
            cache_ok(*final(block_cache)),
            r.0.spec_code() != StatusCode::Kok ==> r.1 is None,
            match r.1 {
                Some((found_key, found_value)) => old(self).order().accepts(found_key@)
                    && !old(self).order().less(found_key@, key@),
                None => true,
            },
            match old(self).cached_table(file_number) {
                Some(table) => {
                    &&& final(self).cached_table(file_number) == Some(table)
                    &&& cache_last_id(*final(block_cache)) == cache_last_id(*old(block_cache))
                    &&& block_in_order(table.order(), table.index_bytes()) ==> table.looked_up(
                        *old(block_cache),
                        *final(block_cache),
                        *options,
                        key@,
                        r.0.spec_code(),
                        r.1,
                    )
                },
                None => r.0.spec_code() == StatusCode::Kok ==> match final(self).cached_table(
                    file_number,
                ) {
                    Some(table) => block_in_order(table.order(), table.index_bytes())
                        ==> table.looked_up(
                        *old(block_cache),
                        *final(block_cache),
                        *options,
                        key@,
                        r.0.spec_code(),
                        r.1,
                    ),
                    None => false,
                },
            },
    {
        let ghost cache_key = table_cache_key(file_number);
        proof {
            lemma_shard_of(cache_key);
        }
        let h = match self.find_table(file_number, file_size, block_cache) {
            Ok(h) => h,
            Err(status) => { return (status, None); },
        };
        let ghost opened = *block_cache;
        let ghost table = self.cache_.handle_value(h);
        let r = self.cache_.value(&h).internal_get(options, key, block_cache);
        let ghost before = self.cache_;
        self.cache_.release(h);
        proof {
            self.lemma_after_release(&before);
            let shard = old(self).cache_.shard_view(shard_of(cache_key) as int);
            old(self).cache_.lemma_shard_wf(shard_of(cache_key) as int);
            lemma_put_is_there(shard, cache_key, table);
            assert(self.cached_table(file_number) == Some(table));
            if block_in_order(table.order(), table.index_bytes()) {
                table.lemma_looked_up_from(
                    *old(block_cache),
                    opened,
                    *block_cache,
                    *options,
                    key@,
                    r.0.spec_code(),
                    r.1,
                );
            }
        }
        r
    }

    proof fn lemma_after_release(&self, before: &ShardedLRUCache<Table<E::File, C, P>>)
        requires
            before.wf(),
            self.cache_.wf(),
            Self::tables_ordered(*before, self.comparator),
            self.cache_.values_kept(before),
        ensures
            self.inv(),
    {
        reveal(TableCache::tables_ordered);
        self.cache_.lemma_values_kept(before);
    }

    /// Drops the table of number `file_number` from the cache.
    pub fn evict(&mut self, file_number: u64)
        requires
            old(self).inv(),
        ensures
            final(self).inv(),
            final(self).order() == old(self).order(),
            final(self).cached_table(file_number) is None,
    {
        let key = make_table_key(file_number);
        let ghost before = self.cache_;
        self.cache_.erase(key.as_slice());
        proof {
            lemma_shard_of(key@);
            reveal(TableCache::tables_ordered);
            let s = crate::util::cache::shard_of(key@) as int;
            assert forall|i: int, k: Seq<u8>|
                0 <= i < 16 && #[trigger] self.cache_.shard_view(i).entries.dom().contains(
                    k,
                ) implies self.cache_.shard_view(i).entries[k].0.order() == self.comparator by {
                if i != s {
                    assert(self.cache_.shard_view(i) == before.shard_view(i));
                }
                assert(before.shard_view(i).entries.dom().contains(k));
            }
        }
    }
}

} // verus!
