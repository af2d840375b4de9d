//! The layout of a table file whose blocks are stored as they are: data
//! blocks, the meta-index block, the index block, the footer; and what a
//! table holds whose file is laid out so.

use crate::table::block_laws::{encode_entries, sizes_fit};
use crate::table::built_block::{built_block, keys_rise, lemma_built_block, lemma_restart_count};
use crate::table::format::{
    block_of_file, block_wire_parse, footer_bytes, footer_parse, handle_bytes, handle_parse,
    lemma_footer_roundtrip, lemma_handle_roundtrip, BlockError, BlockHandle, Footer, FooterError,
};
use crate::table::table::Table;
use crate::table::table_model::{block_entries, block_well, flat};
use crate::unit::filter_policy::FilterPolicy;
use crate::util::coding::{fixed32_bytes, lemma_fixed32_roundtrip};
use crate::util::comparator::Comparator;
use crate::util::crc32c::{crc32c_of, lemma_unmask_mask, mask_spec};
use crate::util::random_access_file::{file_range, RandomAccessFile};
use vstd::prelude::*;

verus! {

/// A block as it stands in a file where it is stored as it is: its
/// bytes, the type byte 0, and the masked CRC32C of both.
pub open spec fn stored_block(body: Seq<u8>) -> Seq<u8> {
    body + seq![0u8] + fixed32_bytes(mask_spec(crc32c_of(body + seq![0u8])))
}

/// A block stored as it is reads back as it was, with or without a
/// comparison of its checksum.
pub proof fn lemma_stored_block(body: Seq<u8>, verify: bool)
    ensures
        stored_block(body).len() == body.len() + 5,
        block_wire_parse(stored_block(body), body.len(), verify) == Ok::<Seq<u8>, BlockError>(
            body,
        ),
{
    let raw = stored_block(body);
    let n = body.len() as int;
    let crc = crc32c_of(body + seq![0u8]);
    lemma_fixed32_roundtrip(mask_spec(crc), Seq::empty());
    lemma_unmask_mask(crc);
    assert(raw.skip(n + 1) =~= fixed32_bytes(mask_spec(crc)) + Seq::<u8>::empty());
    assert(raw.take(n + 1) =~= body + seq![0u8]);
    assert(raw.take(n) =~= body);
    assert(raw[n] == 0u8);
}

/// Blocks stored one behind another.
pub open spec fn stored_blocks(bodies: Seq<Seq<u8>>) -> Seq<u8>
    decreases bodies.len(),
{
    if bodies.len() == 0 {
        Seq::empty()
    } else {
        stored_blocks(bodies.drop_last()) + stored_block(bodies.last())
    }
}

/// Where the `i`-th of the blocks starts.
pub open spec fn stored_offset(bodies: Seq<Seq<u8>>, i: int) -> nat {
    stored_blocks(bodies.take(i)).len()
}

/// The handle of the `i`-th of the blocks.
pub open spec fn stored_handle(bodies: Seq<Seq<u8>>, i: int) -> BlockHandle {
    BlockHandle::spec_new(stored_offset(bodies, i) as u64, bodies[i].len() as u64)
}

/// The first blocks stand at the front of all blocks.
pub proof fn lemma_stored_prefix(bodies: Seq<Seq<u8>>, i: int)
    requires
        0 <= i <= bodies.len(),
    ensures
        stored_offset(bodies, i) <= stored_blocks(bodies).len(),
        stored_blocks(bodies.take(i)) == stored_blocks(bodies).take(stored_offset(bodies, i) as int),
        i < bodies.len() ==> stored_offset(bodies, i + 1) == stored_offset(bodies, i)
            + bodies[i].len() + 5,
        i < bodies.len() ==> stored_blocks(bodies.take(i + 1)) == stored_blocks(bodies.take(i))
            + stored_block(bodies[i]),
    decreases bodies.len() - i,
{
    if i == bodies.len() {
        assert(bodies.take(i) =~= bodies);
        assert(stored_blocks(bodies).take(stored_blocks(bodies).len() as int) =~= stored_blocks(
            bodies,
        ));
    } else {
        lemma_stored_prefix(bodies, i + 1);
        lemma_stored_block(bodies[i], false);
        assert(bodies.take(i + 1).drop_last() =~= bodies.take(i));
        assert(bodies.take(i + 1).last() == bodies[i]);
        let more = stored_blocks(bodies.take(i + 1));
        assert(stored_blocks(bodies.take(i)) =~= more.take(stored_offset(bodies, i) as int));
        assert(more.take(stored_offset(bodies, i) as int) =~= stored_blocks(bodies).take(
            stored_offset(bodies, i) as int,
        ));
    }
}

/// The `i`-th block stands where its handle says, in the blocks and in
/// a file that holds the blocks at its front, and reads back as it was.
pub proof fn lemma_stored_at(bodies: Seq<Seq<u8>>, rest: Seq<u8>, i: int, verify: bool)
    requires
        0 <= i < bodies.len(),
        stored_blocks(bodies).len() + rest.len() <= u64::MAX,
    ensures
        stored_offset(bodies, i) + bodies[i].len() + 5 <= stored_blocks(bodies).len(),
        block_of_file(stored_blocks(bodies) + rest, stored_handle(bodies, i), verify) == Ok::<
            Seq<u8>,
            BlockError,
        >(bodies[i]),
{
    broadcast use BlockHandle::lemma_new;

    lemma_stored_prefix(bodies, i);
    lemma_stored_prefix(bodies, i + 1);
    lemma_stored_block(bodies[i], verify);
    let file = stored_blocks(bodies) + rest;
    let at = stored_offset(bodies, i) as int;
    let end = stored_offset(bodies, i + 1) as int;
    let more = stored_blocks(bodies.take(i + 1));
    assert(file.subrange(at, end) =~= more.subrange(at, end));
    assert(more.subrange(at, end) =~= stored_block(bodies[i]));
    assert(file_range(file, at, (bodies[i].len() + 5) as int) == stored_block(bodies[i]));
}

/// Blocks further behind start further behind.
pub proof fn lemma_stored_offsets_rise(bodies: Seq<Seq<u8>>, i: int, k: int)
    requires
        0 <= i < k <= bodies.len(),
    ensures
        stored_offset(bodies, i) < stored_offset(bodies, k),
    decreases k - i,
{
    lemma_stored_prefix(bodies, k - 1);
    if i < k - 1 {
        lemma_stored_offsets_rise(bodies, i, k - 1);
    }
}

/// The bytes of a table file: the data blocks, the meta-index block and
/// the index block, each stored as it is, and the footer with the handles
/// of the last two.
pub open spec fn table_file(bodies: Seq<Seq<u8>>, meta: Seq<u8>, index: Seq<u8>) -> Seq<u8> {
    let blocks = bodies.push(meta).push(index);
    stored_blocks(blocks) + footer_bytes(
        Footer::spec_new(
            stored_handle(blocks, bodies.len() as int),
            stored_handle(blocks, (bodies.len() + 1) as int),
        ),
    )
}

/// A table file ends in its footer, and each of its blocks reads back as
/// it was from where its handle says.
pub proof fn lemma_table_file(bodies: Seq<Seq<u8>>, meta: Seq<u8>, index: Seq<u8>, verify: bool)
    requires
        table_file(bodies, meta, index).len() <= u64::MAX,
    ensures
        ({
            let file = table_file(bodies, meta, index);
            let blocks = bodies.push(meta).push(index);
            let n = bodies.len() as int;
            &&& file.len() >= 48
            &&& footer_parse(file_range(file, file.len() - 48, 48)) == Ok::<Footer, FooterError>(
                Footer::spec_new(stored_handle(blocks, n), stored_handle(blocks, n + 1)),
            )
            &&& block_of_file(file, stored_handle(blocks, n), verify) == Ok::<Seq<u8>, BlockError>(
                meta,
            )
            &&& block_of_file(file, stored_handle(blocks, n + 1), verify) == Ok::<
                Seq<u8>,
                BlockError,
            >(index)
            &&& forall|i: int|
                0 <= i < n ==> #[trigger] stored_handle(blocks, i) == stored_handle(bodies, i)
                    && block_of_file(file, stored_handle(bodies, i), verify) == Ok::<
                    Seq<u8>,
                    BlockError,
                >(bodies[i])
        }),
{
    let blocks = bodies.push(meta).push(index);
    let n = bodies.len() as int;
    let footer = Footer::spec_new(stored_handle(blocks, n), stored_handle(blocks, n + 1));
    let file = table_file(bodies, meta, index);
    lemma_footer_roundtrip(footer, Seq::empty());
    assert(file_range(file, file.len() - 48, 48) =~= footer_bytes(footer) + Seq::<u8>::empty());
    lemma_stored_at(blocks, footer_bytes(footer), n, verify);
    lemma_stored_at(blocks, footer_bytes(footer), n + 1, verify);
    assert forall|i: int| 0 <= i < n implies #[trigger] stored_handle(blocks, i) == stored_handle(
        bodies,
        i,
    ) && block_of_file(file, stored_handle(bodies, i), verify) == Ok::<Seq<u8>, BlockError>(
        bodies[i],
    ) by {
        assert(blocks.take(i) =~= bodies.take(i));
        lemma_stored_at(blocks, footer_bytes(footer), i, verify);
    }
}

/// The bytes of the blocks that a builder makes of lists of entries.
pub open spec fn built_blocks(
    entries: Seq<Seq<(Seq<u8>, Seq<u8>)>>,
    interval: nat,
) -> Seq<Seq<u8>> {
    Seq::new(entries.len(), |i: int| built_block(entries[i], interval))
}

/// The entries of the index block of a table of the given data blocks: for
/// each block a key and the encoding of its handle.
pub open spec fn index_of(keys: Seq<Seq<u8>>, bodies: Seq<Seq<u8>>) -> Seq<(Seq<u8>, Seq<u8>)> {
    Seq::new(bodies.len(), |i: int| (keys[i], handle_bytes(stored_handle(bodies, i))))
}

/// Whether a builder takes the entries: their keys rise in the order, and
/// their keys, their values and their encoding are short enough.
pub open spec fn buildable<C: Comparator>(
    order: C,
    entries: Seq<(Seq<u8>, Seq<u8>)>,
    interval: nat,
) -> bool {
    &&& interval >= 1
    &&& sizes_fit(entries)
    &&& keys_rise(order, entries)
    &&& encode_entries(entries, Seq::empty(), 0, interval).len() <= u32::MAX
}

/// Whether the keys part the blocks: there is one for each block, no key
/// of a block comes behind the key for it, and every key of a block comes
/// behind the key for the block before it.
pub open spec fn keys_part<C: Comparator>(
    order: C,
    keys: Seq<Seq<u8>>,
    entries: Seq<Seq<(Seq<u8>, Seq<u8>)>>,
) -> bool {
    &&& keys.len() == entries.len()
    &&& forall|i: int, j: int|
        0 <= i < entries.len() && 0 <= j < entries[i].len() ==> !order.less(
            keys[i],
            (#[trigger] entries[i][j]).0,
        )
    &&& forall|i: int, j: int|
        0 < i < entries.len() && 0 <= j < entries[i].len() ==> order.less(
            keys[i - 1],
            (#[trigger] entries[i][j]).0,
        )
}

/// A built block holds the entries it was made of, and is in order.
pub proof fn lemma_built_entries<C: Comparator>(
    order: C,
    entries: Seq<(Seq<u8>, Seq<u8>)>,
    interval: nat,
)
    requires
        buildable(order, entries, interval),
    ensures
        block_well(order, built_block(entries, interval)),
        block_entries(built_block(entries, interval)) == entries,
{
    lemma_built_block(order, entries, interval);
    lemma_restart_count(entries, interval);
}

/// Table round trip: a table whose file holds blocks that a builder made
/// of lists of entries, block by block, with an index block made of keys
/// that part the blocks and of the handles of the blocks, is in order and
/// holds those entries, one list after another.
pub proof fn lemma_table_round_trip<F: RandomAccessFile, C: Comparator + Copy, P: FilterPolicy>(
    table: Table<F, C, P>,
    entries: Seq<Seq<(Seq<u8>, Seq<u8>)>>,
    keys: Seq<Seq<u8>>,
    interval: nat,
    index_interval: nat,
    meta: Seq<u8>,
    verify: bool,
)
    requires
        forall|i: int|
            0 <= i < entries.len() ==> buildable(table.order(), #[trigger] entries[i], interval),
        keys_part(table.order(), keys, entries),
        buildable(
            table.order(),
            index_of(keys, built_blocks(entries, interval)),
            index_interval,
        ),
        table.file_contents() == table_file(
            built_blocks(entries, interval),
            meta,
            built_block(index_of(keys, built_blocks(entries, interval)), index_interval),
        ),
        table.index_bytes() == built_block(
            index_of(keys, built_blocks(entries, interval)),
            index_interval,
        ),
        table.file_contents().len() <= u64::MAX,
    ensures
        table.in_order(verify),
        table.all_entries(verify) == flat(entries),
{
    broadcast use BlockHandle::lemma_new;

    let order = table.order();
    let bodies = built_blocks(entries, interval);
    let index_entries = index_of(keys, bodies);
    let index = built_block(index_entries, index_interval);
    let file = table.file_contents();
    let n = entries.len() as int;
    lemma_built_entries(order, index_entries, index_interval);
    lemma_table_file(bodies, meta, index, verify);
    assert(table.index_entries() == index_entries);
    let blocks = table.data_blocks(verify);
    assert forall|i: int| 0 <= i < n implies table.data_bytes(index_entries[i].1, verify) == Some(
        bodies[i],
    ) && #[trigger] blocks[i] == entries[i] && block_well(order, bodies[i]) by {
        let handle = stored_handle(bodies, i);
        lemma_handle_roundtrip(handle, Seq::empty());
        assert(handle_bytes(handle) + Seq::<u8>::empty() =~= handle_bytes(handle));
        assert(stored_handle(bodies.push(meta).push(index), i) == handle);
        lemma_built_entries(order, entries[i], interval);
    }
    assert(blocks =~= entries);
    assert forall|i: int| 0 <= i < table.index_entries().len() implies #[trigger] table.block_good(
        i,
        verify,
    ) by {
        assert(blocks[i] == entries[i]);
        assert forall|k: int|
            0 <= k < index_entries.len() && handle_parse(
                index_entries[k].1,
            )->Some_0.0.spec_offset() == handle_parse(
                index_entries[i].1,
            )->Some_0.0.spec_offset() implies table.data_bytes(
            #[trigger] index_entries[k].1,
            verify,
        ) == table.data_bytes(index_entries[i].1, verify) by {
            assert(blocks[k] == entries[k]);
            lemma_handle_roundtrip(stored_handle(bodies, k), Seq::empty());
            lemma_handle_roundtrip(stored_handle(bodies, i), Seq::empty());
            assert(handle_bytes(stored_handle(bodies, k)) + Seq::<u8>::empty() =~= handle_bytes(
                stored_handle(bodies, k),
            ));
            assert(handle_bytes(stored_handle(bodies, i)) + Seq::<u8>::empty() =~= handle_bytes(
                stored_handle(bodies, i),
            ));
            let all = bodies.push(meta).push(index);
            lemma_stored_prefix(all, n);
            assert(all.take(n).take(k) =~= bodies.take(k));
            assert(all.take(n).take(i) =~= bodies.take(i));
            assert(all.take(n) =~= bodies);
            lemma_stored_prefix(bodies, k);
            lemma_stored_prefix(bodies, i);
            if k < i {
                lemma_stored_offsets_rise(bodies, k, i);
            } else if i < k {
                lemma_stored_offsets_rise(bodies, i, k);
            }
        }
        if i > 0 {
            assert forall|j: int| 0 <= j < blocks[i].len() implies order.less(
                index_entries[i - 1].0,
                (#[trigger] blocks[i][j]).0,
            ) by {
                assert(order.less(keys[i - 1], entries[i][j].0));
            }
        }
        assert forall|j: int| 0 <= j < blocks[i].len() implies !order.less(
            index_entries[i].0,
            (#[trigger] blocks[i][j]).0,
        ) by {
            assert(!order.less(keys[i], entries[i][j].0));
        }
    }
}

} // verus!
