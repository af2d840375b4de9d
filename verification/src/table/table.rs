//! An open table: its index block, its filter, and the reads of its data
//! blocks through the block cache.

use crate::obj::options::{Options, ReadOptions};
use crate::obj::slice::Slice;
use crate::obj::status_rs::{Status, StatusCode};
use crate::table::block::{block_restarts, Block, BlockIterator};
use crate::table::block_laws::{
    block_items, block_ordered, first_not_before, lemma_count_before, lemma_scan_unfold,
};
use crate::table::filter_block::{filter_block_matches, FilterBlockReader};
use crate::table::format::{
    block_cachable, block_of_file, block_wire_parse, footer_parse, handle_parse, read_block,
    BlockContents, BlockError, BlockHandle, Footer, K_ENCODED_LENGTH,
};
use crate::table::iterator::{keys_before, Iter};
use crate::table::table_model::{
    block_entries, block_well, entries_ahead, flat, index_parts, lemma_flat_seek,
};
use crate::unit::filter_policy::FilterPolicy;
use crate::util::bytewise_comparator_impl::{bytes_three_way, BytewiseComparatorImpl};
use crate::util::cache::{shard_of, ShardedLRUCache};
use crate::util::cache_model::{
    lemma_evict_keeps_entries, model_get, model_put, model_release, CacheModel,
};
use crate::util::coding::{
    append_bytes, fixed64_bytes, lemma_fixed64_roundtrip, put_fixed64, varint64_parse,
};
use crate::util::comparator::Comparator;
use crate::util::random_access_file::{file_range, RandomAccessFile};
use std::sync::Arc;
use vstd::prelude::*;

verus! {

/// The key of a data block in the block cache: the identifier of its table
/// and its offset in the file, each in eight bytes.
pub open spec fn block_cache_key(cache_id: u64, offset: u64) -> Seq<u8> {
    fixed64_bytes(cache_id) + fixed64_bytes(offset)
}

/// The key under which the meta-index block names the filter of a policy
/// of the given name: the bytes of `filter.` and of the name.
pub open spec fn filter_key(name: Seq<char>) -> Seq<u8> {
    seq![102u8, 105u8, 108u8, 116u8, 101u8, 114u8, 46u8] + vstd::utf8::encode_utf8(name)
}

/// The value under which a meta-index block of the given bytes names the
/// filter of the policy of the given name: the value of its first entry
/// whose key is not before the key of the policy, where that entry has just
/// that key.
pub open spec fn named_handle(meta: Seq<u8>, name: Seq<char>) -> Option<Seq<u8>> {
    match block_lookup(BytewiseComparatorImpl {  }, meta, filter_key(name)) {
        Some((key, value)) => if key == filter_key(name) {
            Some(value)
        } else {
            None
        },
        None => None,
    }
}

/// Whether `filter` is the filter block that a file names for a policy:
/// the meta-index block of the file is read and, where it is in order, it
/// names for the policy a value that holds the handle of a block, which
/// holds `filter`.
pub open spec fn named_filter(
    contents: Seq<u8>,
    meta_index_handle: BlockHandle,
    name: Seq<char>,
    verify: bool,
    filter: Seq<u8>,
) -> bool {
    match block_of_file(contents, meta_index_handle, verify) {
        Ok(meta) => block_in_order(BytewiseComparatorImpl {  }, meta) ==> match named_handle(
            meta,
            name,
        ) {
            Some(value) => match handle_parse(value) {
                Some((handle, _)) => block_of_file(contents, handle, verify) == Ok::<
                    Seq<u8>,
                    BlockError,
                >(filter),
                None => false,
            },
            None => false,
        },
        Err(_) => false,
    }
}

/// Whether a block cache, where there is one, is in order.
pub open spec fn cache_ok(cache: Option<ShardedLRUCache<Block>>) -> bool {
    match cache {
        Some(c) => c.wf(),
        None => true,
    }
}

/// Blocks at different offsets have different keys in the block cache.
pub proof fn lemma_block_cache_key(cache_id: u64, first: u64, second: u64)
    requires
        block_cache_key(cache_id, first) == block_cache_key(cache_id, second),
    ensures
        first == second,
{
    lemma_fixed64_roundtrip(cache_id, Seq::empty());
    lemma_fixed64_roundtrip(first, Seq::empty());
    lemma_fixed64_roundtrip(second, Seq::empty());
    let a = block_cache_key(cache_id, first);
    let b = block_cache_key(cache_id, second);
    assert(a.skip(8) =~= fixed64_bytes(first) + Seq::<u8>::empty());
    assert(b.skip(8) =~= fixed64_bytes(second) + Seq::<u8>::empty());
}

/// Whether a block of the given bytes is in order: it ends in a restart
/// array that fits, and it has no restart points or is in order as
/// [`block_ordered`] says.
pub open spec fn block_in_order<C: Comparator>(order: C, bytes: Seq<u8>) -> bool {
    match block_restarts(bytes) {
        Some((limit, count)) => count == 0 || block_ordered(order, bytes, limit, count),
        None => false,
    }
}

/// What a lookup of `key` finds in a block of the given bytes: the first
/// entry whose key is not before `key`.
pub open spec fn block_lookup<C: Comparator>(order: C, bytes: Seq<u8>, key: Seq<u8>) -> Option<
    (Seq<u8>, Seq<u8>),
> {
    match block_restarts(bytes) {
        Some((limit, count)) => first_not_before(
            order,
            block_items(
                bytes,
                if count == 0 {
                    0
                } else {
                    limit
                },
            ),
            key,
        ),
        None => None,
    }
}

/// The key and the value that a lookup returned.
pub open spec fn found_view(found: Option<(Slice, Slice)>) -> Option<(Seq<u8>, Seq<u8>)> {
    match found {
        Some((key, value)) => Some((key@, value@)),
        None => None,
    }
}

/// Whether a lookup in a block of the given bytes may have returned
/// `status` and `found`: `Corruption` and nothing where the bytes do not
/// end in a restart array that fits; where the block is in order, `OK` and
/// what [`block_lookup`] finds.
pub open spec fn lookup_result<C: Comparator>(
    order: C,
    bytes: Seq<u8>,
    key: Seq<u8>,
    status: StatusCode,
    found: Option<(Slice, Slice)>,
) -> bool {
    &&& block_restarts(bytes) is None ==> status == StatusCode::KCorruption && found is None
    &&& block_in_order(order, bytes) ==> status == StatusCode::Kok && found_view(found)
        == block_lookup(order, bytes, key)
}

/// The block that the block cache hands out for `key`: the one that it
/// holds under `key`, unless its count of handles is used up.
pub open spec fn cached_block(cache: Option<ShardedLRUCache<Block>>, key: Seq<u8>) -> Option<
    Block,
> {
    match cache {
        Some(c) => {
            let shard = c.shard_view(shard_of(key) as int);
            if shard.entries.dom().contains(key) && shard.entries[key].1 < u64::MAX {
                Some(shard.entries[key].0)
            } else {
                None
            }
        },
        None => None,
    }
}

/// The identifier that a block cache handed out last; 0 where there is
/// no cache.
pub open spec fn cache_last_id(cache: Option<ShardedLRUCache<Block>>) -> u64 {
    match cache {
        Some(c) => c.last_id(),
        None => 0,
    }
}

/// The cache holds the blocks that it held.
pub open spec fn cache_same(
    before: Option<ShardedLRUCache<Block>>,
    after: Option<ShardedLRUCache<Block>>,
) -> bool {
    match (before, after) {
        (Some(b), Some(a)) => forall|i: int|
            0 <= i < 16 ==> #[trigger] a.shard_view(i) == b.shard_view(i),
        (None, None) => true,
        _ => false,
    }
}

/// The cache holds what it held but for the shard of `key`, which holds
/// `shard`.
pub open spec fn cache_changed(
    before: Option<ShardedLRUCache<Block>>,
    after: Option<ShardedLRUCache<Block>>,
    key: Seq<u8>,
    shard: CacheModel<Block>,
) -> bool {
    match (before, after) {
        (Some(b), Some(a)) => {
            &&& forall|i: int|
                0 <= i < 16 && i != shard_of(key) ==> #[trigger] a.shard_view(i) == b.shard_view(i)
            &&& a.shard_view(shard_of(key) as int) == shard
        },
        _ => false,
    }
}

/// What the cache holds behind a lookup of `key` that it answered: the
/// entry was taken and given back.
pub open spec fn cache_after_hit(
    before: Option<ShardedLRUCache<Block>>,
    after: Option<ShardedLRUCache<Block>>,
    key: Seq<u8>,
) -> bool {
    match before {
        Some(b) => cache_changed(
            before,
            after,
            key,
            model_release(model_get(b.shard_view(shard_of(key) as int), key), key),
        ),
        None => false,
    }
}

/// What the cache holds behind a lookup of `key` that it did not answer
/// and a read of the block from the file: where it is to be filled and
/// does not hold the key, a block of the bytes read was put in and given
/// back; else what it held.
pub open spec fn cache_after_read(
    before: Option<ShardedLRUCache<Block>>,
    after: Option<ShardedLRUCache<Block>>,
    key: Seq<u8>,
    bytes: Seq<u8>,
    fill: bool,
) -> bool {
    match before {
        Some(b) => {
            let shard = b.shard_view(shard_of(key) as int);
            if fill && !shard.entries.dom().contains(key) {
                exists|block: Block|
                    block.bytes() == bytes && #[trigger] cache_changed(
                        before,
                        after,
                        key,
                        model_release(model_put(shard, key, block), key),
                    )
            } else {
                cache_same(before, after)
            }
        },
        None => after is None,
    }
}

/// Asks the cache, where there is one, for the block under `key`, and
/// gives the handle back at once.
fn cache_fetch(cache: &mut Option<ShardedLRUCache<Block>>, key: &[u8]) -> (r: Option<Block>)
    requires
        cache_ok(*old(cache)),
    ensures
        (*final(cache)) is Some == (*old(cache)) is Some,
        cache_ok(*final(cache)),
        cache_last_id(*final(cache)) == cache_last_id(*old(cache)),
        r == cached_block(*old(cache), key@),
        match r {
            Some(_) => cache_after_hit(*old(cache), *final(cache), key@),
            None => cache_same(*old(cache), *final(cache)),
        },
{
    match cache {
        Some(c) => {
            proof {
                crate::util::cache::lemma_shard_of(key@);
            }
            match c.get(key) {
                Some(held) => {
                    let block = c.value(&held).clone();
                    c.release(held);
                    Some(block)
                },
                None => None,
            }
        },
        None => None,
    }
}

/// Puts a block that was read into the cache under `key`, where there is
/// a cache and it is to be filled, and gives the handle back at once.
fn cache_store(
    cache: &mut Option<ShardedLRUCache<Block>>,
    key: &[u8],
    block: &Block,
    fill: bool,
)
    requires
        cache_ok(*old(cache)),
        cached_block(*old(cache), key@) is None,
    ensures
        (*final(cache)) is Some == (*old(cache)) is Some,
        cache_ok(*final(cache)),
        cache_last_id(*final(cache)) == cache_last_id(*old(cache)),
        cache_after_read(*old(cache), *final(cache), key@, block.bytes(), fill),
{
    if fill {
        match cache {
            Some(c) => {
                proof {
                    crate::util::cache::lemma_shard_of(key@);
                }
                let ghost shard = c.shard_view(shard_of(key@) as int);
                match c.insert(key, block.clone()) {
                    Some(held) => {
                        c.release(held);
                        proof {
                            assert(cache_changed(
                                *old(cache),
                                *cache,
                                key@,
                                model_release(model_put(shard, key@, *block), key@),
                            ));
                        }
                    },
                    None => {},
                }
            },
            None => {},
        }
    }
}

/// Seeks `key` in the block of an iterator that has not moved, and
/// returns the entry at which the iterator then stands.
fn seek_in<C: Comparator>(it: &mut BlockIterator<C>, key: &[u8]) -> (found: Option<(Slice, Slice)>)
    requires
        old(it).inv(),
        !old(it).spec_valid(),
        old(it).order().accepts(key@),
    ensures
        final(it).inv(),
        final(it).order() == old(it).order(),
        match found {
            Some((found_key, found_value)) => old(it).order().accepts(found_key@) && !old(
                it,
            ).order().less(found_key@, key@),
            None => true,
        },
        final(it).spec_status_code() != StatusCode::Kok ==> found is None,
        old(it).spec_status_code() != StatusCode::Kok ==> final(it).spec_status_code() == old(
            it,
        ).spec_status_code(),
        old(it).opened_on(old(it).data()) ==> lookup_result(
            old(it).order(),
            old(it).data(),
            key@,
            final(it).spec_status_code(),
            found,
        ),
{
    let ghost fresh = *it;
    proof {
        fresh.lemma_block();
        fresh.lemma_not_valid_on_item();
        fresh.lemma_measures();
        lemma_scan_unfold(fresh.data(), 0, 0, Seq::empty());
    }
    it.seek(key);
    proof {
        it.lemma_same_block(&fresh);
        it.lemma_same_items(&fresh);
        it.lemma_block();
        it.lemma_measures();
        if fresh.opened_on(fresh.data()) && block_in_order(fresh.order(), fresh.data()) {
            if fresh.restart_count() > 0 {
                it.lemma_sought(key@);
            }
        }
    }
    if it.valid() {
        Some((it.key(), it.value()))
    } else {
        None
    }
}

/// The value under which the meta-index block `meta` names the filter of
/// the policy of the given name: the value of the entry at which a seek of
/// the key of the policy ends, where that entry has just that key.  None
/// where the block names no filter for the policy, or is damaged.
pub fn filter_handle_in(meta: &Block, name: &str) -> (value: Option<Slice>)
    ensures
        block_restarts(meta.bytes()) is None ==> value is None,
        block_in_order(BytewiseComparatorImpl {  }, meta.bytes()) ==> match value {
            Some(found) => Some(found@),
            None => None,
        } == named_handle(meta.bytes(), name@),
{
    let mut iter = meta.new_iterator(BytewiseComparatorImpl {  });
    let mut key: Vec<u8> = vec![102u8, 105u8, 108u8, 116u8, 101u8, 114u8, 46u8];
    append_bytes(&mut key, name.as_bytes());
    proof {
        assert(key@ =~= filter_key(name@));
    }
    let (found_key, handle_value) = match seek_in(&mut iter, key.as_slice()) {
        Some(found) => found,
        None => { return None; },
    };
    if bytes_three_way(found_key.data(), key.as_slice()) != 0 {
        return None;
    }
    Some(handle_value)
}

/// The reader of the filter block that a read gave: of the block where
/// the read gave one, none where it failed.
pub fn filter_of_read<P: FilterPolicy>(policy: P, read: Result<BlockContents, Status>) -> (filter:
    Option<FilterBlockReader<P>>)
    ensures
        match read {
            Ok(block) => match filter {
                Some(reader) => reader.policy() == policy && reader.bytes() == block.data@,
                None => false,
            },
            Err(_) => filter is None,
        },
{
    match read {
        Ok(block) => Some(FilterBlockReader::new(policy, block.data)),
        Err(_) => None,
    }
}

/// The key of a data block in the block cache.
fn make_cache_key(cache_id: u64, offset: u64) -> (key: Vec<u8>)
    ensures
        key@ == block_cache_key(cache_id, offset),
{
    let mut key: Vec<u8> = Vec::new();
    put_fixed64(&mut key, cache_id);
    put_fixed64(&mut key, offset);
    proof {
        assert(key@ =~= fixed64_bytes(cache_id) + fixed64_bytes(offset));
    }
    key
}

/// A cache that holds what it held hands out what it handed out.
proof fn lemma_cache_same_lookup(
    before: Option<ShardedLRUCache<Block>>,
    after: Option<ShardedLRUCache<Block>>,
    key: Seq<u8>,
)
    requires
        cache_same(before, after),
    ensures
        cached_block(before, key) == cached_block(after, key),
{
    crate::util::cache::lemma_shard_of(key);
    match (before, after) {
        (Some(b), Some(a)) => {
            assert(b.shard_view(shard_of(key) as int) == a.shard_view(shard_of(key) as int));
        },
        _ => {},
    }
}

/// A cache that first stays as it is and is then read into is one that
/// was read into.
proof fn lemma_cache_same_then(
    before: Option<ShardedLRUCache<Block>>,
    mid: Option<ShardedLRUCache<Block>>,
    after: Option<ShardedLRUCache<Block>>,
    key: Seq<u8>,
    bytes: Seq<u8>,
    fill: bool,
)
    requires
        cache_same(before, mid),
        cache_after_read(mid, after, key, bytes, fill),
    ensures
        cache_after_read(before, after, key, bytes, fill),
{
    crate::util::cache::lemma_shard_of(key);
    match (before, mid) {
        (Some(b), Some(m)) => {
            let shard = m.shard_view(shard_of(key) as int);
            assert(b.shard_view(shard_of(key) as int) == shard);
            if fill && !shard.entries.dom().contains(key) {
                let block = choose|block: Block|
                    block.bytes() == bytes && #[trigger] cache_changed(
                        mid,
                        after,
                        key,
                        model_release(model_put(shard, key, block), key),
                    );
                assert(cache_changed(
                    before,
                    after,
                    key,
                    model_release(model_put(shard, key, block), key),
                ));
            }
        },
        _ => {},
    }
}

/// A table file that was opened.
pub struct Table<F: RandomAccessFile, C: Comparator + Copy, P: FilterPolicy> {
    options: Options,
    comparator: C,
    file: F,
    cache_id: u64,
    filter: Option<FilterBlockReader<P>>,
    meta_index_handle: BlockHandle,
    index_block: Block,
}

impl<F: RandomAccessFile, C: Comparator + Copy, P: FilterPolicy> Table<F, C, P> {
    /// The bytes of the file.
    pub closed spec fn file_contents(&self) -> Seq<u8> {
        self.file.contents()
    }

    /// Whether no read of a block that the file holds fails: the file is
    /// steady, and a machine word counts its bytes.
    pub closed spec fn steady(&self) -> bool {
        self.file.steady() && self.file.contents().len() <= usize::MAX
    }

    /// Whether reads of the file hand out its own memory.
    pub closed spec fn file_lends(&self) -> bool {
        self.file.lends()
    }

    /// Whether the block at `handle`, read from the file, is put into the
    /// block cache: where the options say so and the block may be kept.
    pub open spec fn fills(&self, handle: BlockHandle, options: ReadOptions) -> bool {
        options.fill_cache && block_cachable(self.file_lends(), self.file_contents(), handle)
    }

    /// The order of the keys of the table.
    pub closed spec fn order(&self) -> C {
        self.comparator
    }

    /// The bytes of the index block.
    pub closed spec fn index_bytes(&self) -> Seq<u8> {
        self.index_block.bytes()
    }

    /// Where the meta-index block lies.
    pub closed spec fn spec_meta_index_handle(&self) -> BlockHandle {
        self.meta_index_handle
    }

    /// The bytes of the filter block, where the table has one.
    pub closed spec fn filter_bytes(&self) -> Option<Seq<u8>> {
        match self.filter {
            Some(reader) => Some(reader.bytes()),
            None => None,
        }
    }

    /// The identifier under which the table keeps its blocks in the block
    /// cache.
    pub closed spec fn spec_cache_id(&self) -> u64 {
        self.cache_id
    }

    pub closed spec fn spec_options(&self) -> Options {
        self.options
    }

    /// The reader of the filter block, where the table has one.
    pub closed spec fn spec_filter(&self) -> Option<FilterBlockReader<P>> {
        self.filter
    }

    /// The keys and values of the index block: for each data block a key
    /// and the handle of the block.
    pub open spec fn index_entries(&self) -> Seq<(Seq<u8>, Seq<u8>)> {
        block_entries(self.index_bytes())
    }

    /// The bytes of the data block that a value of the index block points
    /// to, where it holds a handle and the file holds a block there.
    pub open spec fn data_bytes(&self, handle_value: Seq<u8>, verify: bool) -> Option<Seq<u8>> {
        match handle_parse(handle_value) {
            Some((handle, _)) => match block_of_file(self.file_contents(), handle, verify) {
                Ok(bytes) => Some(bytes),
                Err(_) => None,
            },
            None => None,
        }
    }

    /// The entries of the data blocks, block by block in the order of the
    /// index block.
    pub open spec fn data_blocks(&self, verify: bool) -> Seq<Seq<(Seq<u8>, Seq<u8>)>> {
        Seq::new(
            self.index_entries().len(),
            |i: int|
                match self.data_bytes(self.index_entries()[i].1, verify) {
                    Some(bytes) => block_entries(bytes),
                    None => Seq::empty(),
                },
        )
    }

    /// The entries of the table: those of its data blocks, one block after
    /// another.
    pub open spec fn all_entries(&self, verify: bool) -> Seq<(Seq<u8>, Seq<u8>)> {
        flat(self.data_blocks(verify))
    }

    /// Whether the `i`-th data block is in order and in its place: the
    /// index block holds its handle, the file holds it there, it has
    /// restart points and is in order, none of its keys comes behind the
    /// key that the index block gives for it, all of them come behind the
    /// key that the index block gives for the block before it, and a block
    /// at the same offset holds the same bytes.
    pub open spec fn block_good(&self, i: int, verify: bool) -> bool {
        let index = self.index_entries();
        let blocks = self.data_blocks(verify);
        &&& match self.data_bytes(index[i].1, verify) {
            Some(bytes) => block_well(self.order(), bytes),
            None => false,
        }
        &&& forall|j: int|
            0 <= j < blocks[i].len() ==> !self.order().less(index[i].0, (#[trigger] blocks[i][j]).0)
        &&& i > 0 ==> forall|j: int|
            0 <= j < blocks[i].len() ==> self.order().less(
                index[i - 1].0,
                (#[trigger] blocks[i][j]).0,
            )
        &&& forall|k: int|
            0 <= k < index.len() && handle_parse(index[k].1)->Some_0.0.spec_offset() == handle_parse(
                index[i].1,
            )->Some_0.0.spec_offset() ==> self.data_bytes(#[trigger] index[k].1, verify)
                == self.data_bytes(index[i].1, verify)
    }

    /// Whether the table is in order: its index block has restart points
    /// and is in order, and so is each of its data blocks, in its place.
    pub open spec fn in_order(&self, verify: bool) -> bool {
        &&& block_well(self.order(), self.index_bytes())
        &&& forall|i: int|
            0 <= i < self.index_entries().len() ==> #[trigger] self.block_good(i, verify)
    }

    /// Whether what a block cache holds for the `i`-th data block, if
    /// anything, is that block.
    pub open spec fn block_agrees(&self, cache: ShardedLRUCache<Block>, i: int, verify: bool) -> bool {
        let handle_value = self.index_entries()[i].1;
        match handle_parse(handle_value) {
            Some((handle, _)) => {
                let key = block_cache_key(self.spec_cache_id(), handle.spec_offset());
                let shard = cache.shard_view(shard_of(key) as int);
                shard.entries.dom().contains(key) ==> Some(shard.entries[key].0.bytes())
                    == self.data_bytes(handle_value, verify)
            },
            None => true,
        }
    }

    /// Whether what a block cache holds for the data blocks of the table
    /// is those blocks.
    pub open spec fn cache_agrees(&self, cache: Option<ShardedLRUCache<Block>>, verify: bool) -> bool {
        match cache {
            Some(c) => forall|i: int|
                0 <= i < self.index_entries().len() ==> #[trigger] self.block_agrees(c, i, verify),
            None => true,
        }
    }

    /// The keys of the index block and of the data blocks of a table in
    /// order are keys of its order, and the keys of the index block rise.
    pub proof fn lemma_keys(&self, verify: bool)
        requires
            self.in_order(verify),
        ensures
            self.data_blocks(verify).len() == self.index_entries().len(),
            forall|i: int|
                0 <= i < self.index_entries().len() ==> self.order().accepts(
                    (#[trigger] self.index_entries()[i]).0,
                ),
            forall|i: int, k: int|
                0 <= i < k < self.index_entries().len() ==> self.order().less(
                    (#[trigger] self.index_entries()[i]).0,
                    (#[trigger] self.index_entries()[k]).0,
                ),
            forall|i: int, j: int|
                0 <= i < self.data_blocks(verify).len() && 0 <= j < self.data_blocks(verify)[i].len()
                    ==> self.order().accepts((#[trigger] self.data_blocks(verify)[i][j]).0),
    {
        let blocks = self.data_blocks(verify);
        assert forall|i: int, j: int|
            0 <= i < blocks.len() && 0 <= j < blocks[i].len() implies self.order().accepts(
            (#[trigger] blocks[i][j]).0,
        ) by {
            assert(self.block_good(i, verify));
            let bytes = self.data_bytes(self.index_entries()[i].1, verify)->Some_0;
            let (limit, count) = block_restarts(bytes)->Some_0;
            let items = block_items(bytes, limit);
            assert(blocks[i][j].0 == items[j].key);
        }
    }

    /// Table seek: in a table in order, the count of entries whose keys
    /// come before a key is the count of entries of the data blocks
    /// before the first block whose key in the index block is not before
    /// it, and of the entries of that block whose keys come before it.
    pub proof fn lemma_seek_place(&self, verify: bool, target: Seq<u8>)
        requires
            self.in_order(verify),
            self.order().accepts(target),
        ensures
            ({
                let index = self.index_entries();
                let blocks = self.data_blocks(verify);
                let i = keys_before(self.order(), index, target) as int;
                &&& i <= index.len()
                &&& keys_before(self.order(), self.all_entries(verify), target) == if i
                    < index.len() {
                    entries_ahead(blocks, i) + keys_before(self.order(), blocks[i], target)
                } else {
                    self.all_entries(verify).len()
                }
            }),
    {
        self.lemma_parts(verify);
        lemma_flat_seek(self.order(), self.index_entries(), self.data_blocks(verify), target);
    }

    /// The index block of a table in order parts its data blocks.
    pub proof fn lemma_parts(&self, verify: bool)
        requires
            self.in_order(verify),
        ensures
            index_parts(self.order(), self.index_entries(), self.data_blocks(verify)),
    {
        let order = self.order();
        let index = self.index_entries();
        let blocks = self.data_blocks(verify);
        self.lemma_keys(verify);
        assert forall|i: int, j: int| 0 <= i < blocks.len() && 0 <= j < blocks[i].len() implies {
            &&& order.accepts((#[trigger] blocks[i][j]).0)
            &&& !order.less(index[i].0, blocks[i][j].0)
            &&& i > 0 ==> order.less(index[i - 1].0, blocks[i][j].0)
        } by {
            assert(self.block_good(i, verify));
        }
    }

    /// Table point lookup: in a table in order, the lookup of a key that
    /// an entry of a data block holds leads in the index block to that data
    /// block, and finds in the data block that entry.
    pub proof fn lemma_lookup_finds(&self, verify: bool, i: int, j: int)
        requires
            self.in_order(verify),
            0 <= i < self.data_blocks(verify).len(),
            0 <= j < self.data_blocks(verify)[i].len(),
        ensures
            ({
                let key = self.data_blocks(verify)[i][j].0;
                &&& i < self.index_entries().len()
                &&& block_lookup(self.order(), self.index_bytes(), key) == Some(
                    self.index_entries()[i],
                )
                &&& match self.data_bytes(self.index_entries()[i].1, verify) {
                    Some(bytes) => block_in_order(self.order(), bytes) && block_lookup(
                        self.order(),
                        bytes,
                        key,
                    ) == Some(self.data_blocks(verify)[i][j]),
                    None => false,
                }
            }),
    {
        let order = self.order();
        let index = self.index_entries();
        let blocks = self.data_blocks(verify);
        let key = blocks[i][j].0;
        self.lemma_keys(verify);
        assert(self.block_good(i, verify));
        let (index_limit, index_count) = block_restarts(self.index_bytes())->Some_0;
        let index_items = block_items(self.index_bytes(), index_limit);
        assert forall|k: int| 0 <= k < index.len() implies index[k] == (
            (#[trigger] index_items[k]).key,
            index_items[k].value,
        ) by {}
        assert forall|k: int| 0 <= k < i implies order.less(
            #[trigger] index_items[k].key,
            key,
        ) by {
            assert(index[k].0 == index_items[k].key);
            assert(index[i - 1].0 == index_items[i - 1].key);
            if k < i - 1 {
                order.lemma_transitive(index[k].0, index[i - 1].0, key);
            }
        }
        assert(index[i].0 == index_items[i].key);
        lemma_count_before(order, index_items, key, i);
        let bytes = self.data_bytes(index[i].1, verify)->Some_0;
        let (limit, count) = block_restarts(bytes)->Some_0;
        let items = block_items(bytes, limit);
        assert(blocks[i][j] == (items[j].key, items[j].value));
        order.lemma_irreflexive(key);
        lemma_count_before(order, items, key, j);
    }

    /// In a table in order whose blocks the cache holds as they are, the
    /// block read for an entry of the index block is the block of that
    /// entry, unless the read failed, and the cache then still holds the
    /// blocks as they are.
    pub proof fn lemma_block_read(
        &self,
        before: Option<ShardedLRUCache<Block>>,
        after: Option<ShardedLRUCache<Block>>,
        options: ReadOptions,
        it: BlockIterator<C>,
        i: int,
    )
        requires
            self.in_order(options.verify_checksums),
            self.cache_agrees(before, options.verify_checksums),
            cache_ok(before),
            0 <= i < self.index_entries().len(),
            self.block_read(
                before,
                after,
                handle_parse(self.index_entries()[i].1)->Some_0.0,
                options,
                it,
            ),
        ensures
            self.cache_agrees(after, options.verify_checksums),
            it.spec_status_code() != StatusCode::Kok || it.opened_on(
                self.data_bytes(self.index_entries()[i].1, options.verify_checksums)->Some_0,
            ),
            self.steady() ==> it.spec_status_code() == StatusCode::Kok,
    {
        let verify = options.verify_checksums;
        let index = self.index_entries();
        assert(self.block_good(i, verify));
        let handle = handle_parse(index[i].1)->Some_0.0;
        let key = block_cache_key(self.spec_cache_id(), handle.spec_offset());
        let bytes = self.data_bytes(index[i].1, verify)->Some_0;
        crate::util::cache::lemma_shard_of(key);
        match (before, after) {
            (Some(b), Some(a)) => {
                assert(self.block_agrees(b, i, verify));
                let s = shard_of(key) as int;
                let m = b.shard_view(s);
                b.lemma_shard_wf(s);
                assert forall|k: int| 0 <= k < index.len() implies #[trigger] self.block_agrees(
                    a,
                    k,
                    verify,
                ) by {
                    assert(self.block_agrees(b, k, verify));
                    assert(self.block_good(k, verify));
                    let other = handle_parse(index[k].1)->Some_0.0;
                    let other_key = block_cache_key(self.spec_cache_id(), other.spec_offset());
                    crate::util::cache::lemma_shard_of(other_key);
                    if other_key == key {
                        lemma_block_cache_key(
                            self.spec_cache_id(),
                            other.spec_offset(),
                            handle.spec_offset(),
                        );
                    }
                    if shard_of(other_key) == shard_of(key) {
                        if cached_block(before, key) is None && self.fills(handle, options)
                            && !m.entries.dom().contains(key) && !cache_same(before, after) {
                            let block = choose|block: Block|
                                block.bytes() == it.data() && #[trigger] cache_changed(
                                    before,
                                    after,
                                    key,
                                    model_release(model_put(m, key, block), key),
                                );
                            let grown = CacheModel {
                                capacity: m.capacity,
                                entries: m.entries.insert(key, (block, 1nat)),
                                lru: m.lru,
                            };
                            if a.shard_view(s).entries.dom().contains(other_key) {
                                lemma_evict_keeps_entries(grown, other_key);
                            }
                        }
                    }
                }
            },
            _ => {},
        }
    }

    /// Whether the table has a filter that says that the data block at
    /// `offset` does not hold `key`.
    pub open spec fn filter_rejects(&self, offset: u64, key: Seq<u8>) -> bool {
        match self.spec_filter() {
            Some(reader) => !filter_block_matches(reader.policy(), reader.bytes(), offset, key),
            None => false,
        }
    }

    /// Whether a lookup of `key` in a table whose index block is in order
    /// may have returned `status` and `found` and left the block cache as
    /// it is.  Where no entry of the index block has a key that is not
    /// before `key`, nothing is found.  Else the value of the first such
    /// entry is to hold the handle of a data block, or the status is
    /// `Corruption`; where the filter of the table says that the block does
    /// not hold `key`, nothing is found; else the block is read through the
    /// cache as [`Self::block_read`] says, and the lookup in it gives what
    /// is returned, as [`lookup_result`] says.
    pub open spec fn looked_up(
        &self,
        before: Option<ShardedLRUCache<Block>>,
        after: Option<ShardedLRUCache<Block>>,
        options: ReadOptions,
        key: Seq<u8>,
        status: StatusCode,
        found: Option<(Slice, Slice)>,
    ) -> bool {
        match block_lookup(self.order(), self.index_bytes(), key) {
            None => status == StatusCode::Kok && found is None && cache_same(before, after),
            Some((_, handle_value)) => match handle_parse(handle_value) {
                None => status == StatusCode::KCorruption && found is None && cache_same(
                    before,
                    after,
                ),
                Some((handle, _)) => if self.filter_rejects(handle.spec_offset(), key) {
                    status == StatusCode::Kok && found is None && cache_same(before, after)
                } else {
                    let cache_key = block_cache_key(self.spec_cache_id(), handle.spec_offset());
                    match cached_block(before, cache_key) {
                        Some(block) => lookup_result(
                            self.order(),
                            block.bytes(),
                            key,
                            status,
                            found,
                        ) && cache_after_hit(before, after, cache_key),
                        None => {
                            ||| match block_of_file(
                                self.file_contents(),
                                handle,
                                options.verify_checksums,
                            ) {
                                Ok(bytes) => lookup_result(self.order(), bytes, key, status, found)
                                    && cache_after_read(
                                    before,
                                    after,
                                    cache_key,
                                    bytes,
                                    self.fills(handle, options),
                                ),
                                Err(_) => false,
                            }
                            ||| {
                                &&& status != StatusCode::Kok
                                &&& found is None
                                &&& cache_same(before, after)
                                &&& !(self.steady() && block_of_file(
                                    self.file_contents(),
                                    handle,
                                    options.verify_checksums,
                                ) is Ok)
                            }
                        },
                    }
                },
            },
        }
    }

    /// Reads the filter block whose handle `filter_handle_value` holds,
    /// and takes the handle off the front of `filter_handle_value`.
    /// `None` where it holds no handle, with what was decoded until then
    /// taken off, or where the block cannot be read; what a read gives
    /// says [`filter_of_read`].
    fn read_filter(file: &F, opt: &ReadOptions, policy: P, filter_handle_value: &mut Slice) -> (filter:
        Option<FilterBlockReader<P>>)
        ensures
            match handle_parse(old(filter_handle_value)@) {
                Some((handle, used)) => {
                    &&& final(filter_handle_value)@ == old(filter_handle_value)@.skip(used as int)
                    &&& match filter {
                        Some(reader) => reader.policy() == policy && block_of_file(
                            file.contents(),
                            handle,
                            opt.verify_checksums,
                        ) == Ok::<Seq<u8>, BlockError>(reader.bytes()),
                        None => true,
                    }
                },
                None => {
                    &&& filter is None
                    &&& final(filter_handle_value)@ == match varint64_parse(
                        old(filter_handle_value)@,
                    ) {
                        Some((offset, used)) => old(filter_handle_value)@.skip(used as int),
                        None => old(filter_handle_value)@,
                    }
                },
            },
    {
        let mut filter_handle = BlockHandle::new();
        if !filter_handle.decode_from(filter_handle_value).is_ok() {
            return None;
        }
        filter_of_read(policy, read_block(file, opt, &filter_handle))
    }

    /// Reads the meta-index block and the filter block that it names for
    /// `policy`.  `None` where a read fails, a block is damaged, or the
    /// meta-index block does not name one; what the meta-index block names
    /// says [`filter_handle_in`].
    fn read_meta(file: &F, options: &Options, policy: P, footer: &Footer) -> (filter: Option<
        FilterBlockReader<P>,
    >)
        ensures
            match filter {
                Some(reader) => reader.policy() == policy && named_filter(
                    file.contents(),
                    footer.spec_meta_index_handle(),
                    policy.spec_name(),
                    options.paranoid_checks,
                    reader.bytes(),
                ),
                None => true,
            },
    {
        let mut opt = ReadOptions::new();
        if options.paranoid_checks {
            opt.verify_checksums = true;
        }
        let contents = match read_block(file, &opt, footer.meta_index_handle()) {
            Ok(contents) => contents,
            Err(_) => { return None; },
        };
        let meta_block = Block::new(contents);
        let mut handle_value = match filter_handle_in(&meta_block, policy.name()) {
            Some(value) => value,
            None => { return None; },
        };
        Self::read_filter(file, &opt, policy, &mut handle_value)
    }

    /// Opens the table that `file` holds in its first `size` bytes: reads
    /// the footer, the index block and, where a policy is given and the
    /// table has a filter for it, the filter block.  Checksums are verified
    /// where the options say `paranoid_checks`.  A filter that cannot be
    /// read is done without.  A steady file that holds a footer and the
    /// index block that the footer names is opened.
    pub fn open(
        options: Options,
        comparator: C,
        policy: Option<P>,
        file: F,
        size: u64,
        cache: &mut Option<ShardedLRUCache<Block>>,
    ) -> (r: Result<Self, Status>)
        requires
            cache_ok(*old(cache)),
        ensures
            (*final(cache)) is Some == (*old(cache)) is Some,
            cache_ok(*final(cache)),
            size < K_ENCODED_LENGTH ==> r is Err && r->Err_0.spec_code() == StatusCode::KCorruption
                && r->Err_0.spec_message() == Some("file is too short to be an sstable"@),
            match r {
                Ok(table) => {
                    &&& table.file_contents() == file.contents()
                    &&& table.order() == comparator
                    &&& table.spec_options() == options
                    &&& size >= K_ENCODED_LENGTH
                    &&& match footer_parse(file_range(file.contents(), size - 48, 48)) {
                        Ok(footer) => {
                            &&& table.spec_meta_index_handle() == footer.spec_meta_index_handle()
                            &&& block_wire_parse(
                                file_range(
                                    file.contents(),
                                    footer.spec_index_handle().spec_offset() as int,
                                    footer.spec_index_handle().spec_size() + 5,
                                ),
                                footer.spec_index_handle().spec_size() as nat,
                                options.paranoid_checks,
                            ) == Ok::<Seq<u8>, BlockError>(table.index_bytes())
                        },
                        Err(_) => false,
                    }
                    &&& policy is None ==> table.filter_bytes() is None
                    &&& match table.spec_filter() {
                        Some(reader) => policy == Some(reader.policy()) && named_filter(
                            file.contents(),
                            table.spec_meta_index_handle(),
                            reader.policy().spec_name(),
                            options.paranoid_checks,
                            reader.bytes(),
                        ),
                        None => true,
                    }
                    &&& table.spec_cache_id() == cache_last_id(*final(cache))
                    &&& table.spec_cache_id() == match *old(cache) {
                        Some(c) => if c.last_id() < u64::MAX {
                            (c.last_id() + 1) as u64
                        } else {
                            u64::MAX
                        },
                        None => 0,
                    }
                },
                Err(status) => status.spec_code() != StatusCode::Kok && cache_last_id(
                    *final(cache),
                ) == cache_last_id(*old(cache)),
            },
            file.steady() && file.contents().len() <= usize::MAX && K_ENCODED_LENGTH <= size
                <= file.contents().len() && (match footer_parse(
                file_range(file.contents(), size - 48, 48),
            ) {
                Ok(footer) => block_of_file(
                    file.contents(),
                    footer.spec_index_handle(),
                    options.paranoid_checks,
                ) is Ok,
                Err(_) => false,
            }) ==> r is Ok,
            r matches Ok(table) ==> table.steady() == (file.steady() && file.contents().len()
                <= usize::MAX),
            cache_same(*old(cache), *final(cache)),
    {
        if size < K_ENCODED_LENGTH {
            return Err(Status::corruption("file is too short to be an sstable", None));
        }
        let mut footer_input = match file.read(size - K_ENCODED_LENGTH, K_ENCODED_LENGTH as usize) {
            Ok(data) => data,
            Err(status) => { return Err(status); },
        };
        let mut footer = Footer::new();
        let s = footer.decode_from(&mut footer_input);
        if !s.is_ok() {
            return Err(s);
        }
        let mut opt = ReadOptions::new();
        if options.paranoid_checks {
            opt.verify_checksums = true;
        }
        let index_contents = match read_block(&file, &opt, footer.index_handle()) {
            Ok(contents) => contents,
            Err(status) => { return Err(status); },
        };
        let index_block = Block::new(index_contents);
        let cache_id = match cache {
            Some(c) => c.new_id(),
            None => 0,
        };
        let filter = match policy {
            Some(p) => Self::read_meta(&file, &options, p, &footer),
            None => None,
        };
        Ok(
            Table {
                options,
                comparator,
                file,
                cache_id,
                filter,
                meta_index_handle: *footer.meta_index_handle(),
                index_block,
            },
        )
    }

    /// What reading the block at `handle` through the block cache gives
    /// and leaves.  Where the cache hands the block out, the iterator is
    /// one over that block.  Else the block is read from the file: the
    /// iterator is one over the block that the file holds there, and the
    /// cache was filled as [`cache_after_read`] says; or the read or the
    /// block failed, the status says so, and the cache holds what it held.
    /// The read of a block that a steady file holds does not fail.
    pub open spec fn block_read(
        &self,
        before: Option<ShardedLRUCache<Block>>,
        after: Option<ShardedLRUCache<Block>>,
        handle: BlockHandle,
        options: ReadOptions,
        it: BlockIterator<C>,
    ) -> bool {
        let key = block_cache_key(self.spec_cache_id(), handle.spec_offset());
        match cached_block(before, key) {
            Some(block) => it.opened_on(block.bytes()) && cache_after_hit(before, after, key),
            None => {
                ||| {
                    &&& block_of_file(self.file_contents(), handle, options.verify_checksums)
                        == Ok::<Seq<u8>, BlockError>(it.data())
                    &&& it.opened_on(it.data())
                    &&& cache_after_read(
                        before,
                        after,
                        key,
                        it.data(),
                        self.fills(handle, options),
                    )
                }
                ||| {
                    &&& it.spec_status_code() != StatusCode::Kok
                    &&& cache_same(before, after)
                    &&& !(self.steady() && block_of_file(
                        self.file_contents(),
                        handle,
                        options.verify_checksums,
                    ) is Ok)
                }
            },
        }
    }

    /// An iterator over the block at `handle`, from the block cache or
    /// from the file.
    fn read_through(
        &self,
        read_options: &ReadOptions,
        handle: &BlockHandle,
        cache: &mut Option<ShardedLRUCache<Block>>,
    ) -> (it: BlockIterator<C>)
        requires
            cache_ok(*old(cache)),
        ensures
            (*final(cache)) is Some == (*old(cache)) is Some,
            cache_ok(*final(cache)),
            cache_last_id(*final(cache)) == cache_last_id(*old(cache)),
            it.inv(),
            !it.spec_valid(),
            it.order() == self.order(),
            self.block_read(*old(cache), *final(cache), *handle, *read_options, it),
    {
        let cache_key = make_cache_key(self.cache_id, handle.offset());
        let ghost key = block_cache_key(self.cache_id, handle.spec_offset());
        let cached = cache_fetch(cache, cache_key.as_slice());
        match cached {
            Some(block) => block.new_iterator(self.comparator),
            None => {
                let contents = match read_block(&self.file, read_options, handle) {
                    Ok(contents) => contents,
                    Err(status) => {
                        return BlockIterator::new_failed(
                            self.comparator,
                            Arc::new(Vec::new()),
                            status,
                        );
                    },
                };
                let need_cache = contents.cachable && read_options.fill_cache;
                let block = Block::new(contents);
                let ghost mid = *cache;
                proof {
                    lemma_cache_same_lookup(*old(cache), mid, key);
                }
                cache_store(cache, cache_key.as_slice(), &block, need_cache);
                proof {
                    lemma_cache_same_then(*old(cache), mid, *cache, key, block.bytes(), need_cache);
                }
                block.new_iterator(self.comparator)
            },
        }
    }

    /// An iterator over the data block that an entry of the index block
    /// points to.  The block comes from the block cache where it is there,
    /// else from the file, and is then kept in the cache where the read
    /// options say `fill_cache`.  Where the entry holds no block handle or
    /// the block cannot be read, the iterator is never valid and has the
    /// status of the failure.
    pub fn block_reader(
        &self,
        read_options: &ReadOptions,
        index_value: &[u8],
        cache: &mut Option<ShardedLRUCache<Block>>,
    ) -> (it: BlockIterator<C>)
        requires
            cache_ok(*old(cache)),
        ensures
            (*final(cache)) is Some == (*old(cache)) is Some,
            cache_ok(*final(cache)),
            cache_last_id(*final(cache)) == cache_last_id(*old(cache)),
            it.inv(),
            !it.spec_valid(),
            it.order() == self.order(),
            match handle_parse(index_value@) {
                None => it.spec_status_code() == StatusCode::KCorruption && cache_same(
                    *old(cache),
                    *final(cache),
                ),
                Some((handle, _)) => self.block_read(
                    *old(cache),
                    *final(cache),
                    handle,
                    *read_options,
                    it,
                ),
            },
    {
        let mut handle = BlockHandle::new();
        let mut input = Slice::new_from_array(index_value);
        let status = handle.decode_from(&mut input);
        if !status.is_ok() {
            return BlockIterator::new_failed(self.comparator, Arc::new(Vec::new()), status);
        }
        self.read_through(read_options, &handle, cache)
    }

    /// A lookup that left the cache as it says, from a cache that held
    /// the same blocks as another, left the cache as it says from that
    /// other.
    pub proof fn lemma_looked_up_from(
        &self,
        before: Option<ShardedLRUCache<Block>>,
        mid: Option<ShardedLRUCache<Block>>,
        after: Option<ShardedLRUCache<Block>>,
        options: ReadOptions,
        key: Seq<u8>,
        status: StatusCode,
        found: Option<(Slice, Slice)>,
    )
        requires
            cache_same(before, mid),
            self.looked_up(mid, after, options, key, status, found),
        ensures
            self.looked_up(before, after, options, key, status, found),
    {
        match block_lookup(self.order(), self.index_bytes(), key) {
            None => {},
            Some((_, handle_value)) => match handle_parse(handle_value) {
                None => {},
                Some((handle, _)) => {
                    let cache_key = block_cache_key(self.spec_cache_id(), handle.spec_offset());
                    lemma_cache_same_lookup(before, mid, cache_key);
                    crate::util::cache::lemma_shard_of(cache_key);
                    if !self.filter_rejects(handle.spec_offset(), key) {
                        match cached_block(before, cache_key) {
                            Some(block) => {},
                            None => {
                                match block_of_file(
                                    self.file_contents(),
                                    handle,
                                    options.verify_checksums,
                                ) {
                                    Ok(bytes) => {
                                        if cache_after_read(
                                            mid,
                                            after,
                                            cache_key,
                                            bytes,
                                            self.fills(handle, options),
                                        ) {
                                            lemma_cache_same_then(
                                                before,
                                                mid,
                                                after,
                                                cache_key,
                                                bytes,
                                                self.fills(handle, options),
                                            );
                                        }
                                    },
                                    Err(_) => {},
                                }
                            },
                        }
                    }
                },
            },
        }
    }

    /// Looks `key` up: finds in the index block the data block that may
    /// hold it, asks the filter, if there is one, whether the block may
    /// hold it, and seeks in the block.  Returns the first entry of that
    /// block whose key is not before `key`, if there is one, and the status
    /// of the block iterator or, where that is `OK`, of the index iterator.
    /// What that comes to in a table whose index block is in order says
    /// [`Self::looked_up`].
    pub fn internal_get(
        &self,
        options: &ReadOptions,
        key: &[u8],
        cache: &mut Option<ShardedLRUCache<Block>>,
    ) -> (r: (Status, Option<(Slice, Slice)>))
        requires
            self.order().accepts(key@),
            cache_ok(*old(cache)),
        ensures
            (*final(cache)) is Some == (*old(cache)) is Some,
            cache_ok(*final(cache)),
            cache_last_id(*final(cache)) == cache_last_id(*old(cache)),
            r.0.spec_code() != StatusCode::Kok ==> r.1 is None,
            match r.1 {
                Some((found_key, found_value)) => self.order().accepts(found_key@)
                    && !self.order().less(found_key@, key@),
                None => true,
            },
            block_in_order(self.order(), self.index_bytes()) ==> self.looked_up(
                *old(cache),
                *final(cache),
                *options,
                key@,
                r.0.spec_code(),
                r.1,
            ),
    {
        let mut s = Status::ok();
        let mut found: Option<(Slice, Slice)> = None;
        let mut iiter = self.index_block.new_iterator(self.comparator);
        let at_index = seek_in(&mut iiter, key);
        match at_index {
            Some((_, handle_value)) => {
                let mut filtered_out = false;
                match &self.filter {
                    Some(filter) => {
                        let mut handle = BlockHandle::new();
                        let mut input = handle_value.clone();
                        if handle.decode_from(&mut input).is_ok() && !filter.key_may_match(
                            key,
                            handle.offset(),
                        ) {
                            filtered_out = true;
                        }
                    },
                    None => {},
                }
                if !filtered_out {
                    let mut block_iter = self.block_reader(options, handle_value.data(), cache);
                    found = seek_in(&mut block_iter, key);
                    s = block_iter.status();
                }
            },
            None => {},
        }
        if s.is_ok() {
            s = iiter.status();
        }
        (s, found)
    }

    /// An iterator over the index block.
    pub fn index_iterator(&self) -> (it: BlockIterator<C>)
        ensures
            it.inv(),
            !it.spec_valid(),
            it.order() == self.order(),
            it.data() == self.index_bytes(),
            it.opened_on(self.index_bytes()),
    {
        self.index_block.new_iterator(self.comparator)
    }

    /// About where in the file the data of `key` starts: the offset of the
    /// data block that may hold it, or of the meta-index block where `key`
    /// is behind all keys of the table or the index block names no data
    /// block for it.
    pub fn approximate_offset_of(&self, key: &[u8]) -> (offset: u64)
        requires
            self.order().accepts(key@),
        ensures
            block_in_order(self.order(), self.index_bytes()) ==> offset == match block_lookup(
                self.order(),
                self.index_bytes(),
                key@,
            ) {
                Some((_, handle_value)) => match handle_parse(handle_value) {
                    Some((handle, _)) => handle.spec_offset(),
                    None => self.spec_meta_index_handle().spec_offset(),
                },
                None => self.spec_meta_index_handle().spec_offset(),
            },
            block_restarts(self.index_bytes()) is None ==> offset
                == self.spec_meta_index_handle().spec_offset(),
    {
        let mut index_iter = self.index_block.new_iterator(self.comparator);
        match seek_in(&mut index_iter, key) {
            Some((_, handle_value)) => {
                let mut handle = BlockHandle::new();
                let mut input = handle_value;
                if handle.decode_from(&mut input).is_ok() {
                    return handle.offset();
                }
            },
            None => {},
        }
        self.meta_index_handle.offset()
    }
}

} // verus!
