//! What a table holds: the entries of its data blocks, one block after
//! another in the order of the index block.

use crate::table::block::block_restarts;
use crate::table::block_laws::{block_items, block_ordered, pairs_of};
use crate::table::iterator::keys_before;
use crate::util::comparator::Comparator;
use vstd::prelude::*;

verus! {

/// The keys and values of the entries of a block of the given bytes; none
/// where the bytes do not end in a restart array that fits.
pub open spec fn block_entries(bytes: Seq<u8>) -> Seq<(Seq<u8>, Seq<u8>)> {
    match block_restarts(bytes) {
        Some((limit, count)) => pairs_of(
            block_items(
                bytes,
                if count == 0 {
                    0
                } else {
                    limit
                },
            ),
        ),
        None => Seq::empty(),
    }
}

/// Whether a block of the given bytes has restart points and is in order.
pub open spec fn block_well<C: Comparator>(order: C, bytes: Seq<u8>) -> bool {
    match block_restarts(bytes) {
        Some((limit, count)) => count > 0 && block_ordered(order, bytes, limit, count),
        None => false,
    }
}

/// The entries of a list of blocks, one block after another.
pub open spec fn flat(blocks: Seq<Seq<(Seq<u8>, Seq<u8>)>>) -> Seq<(Seq<u8>, Seq<u8>)>
    decreases blocks.len(),
{
    if blocks.len() == 0 {
        Seq::empty()
    } else {
        flat(blocks.drop_last()) + blocks.last()
    }
}

/// The count of entries of the first `i` blocks.
pub open spec fn entries_ahead(blocks: Seq<Seq<(Seq<u8>, Seq<u8>)>>, i: int) -> nat {
    flat(blocks.take(i)).len()
}

/// The entries of one block more are those of the blocks before it and
/// its own.
pub proof fn lemma_entries_ahead_step(blocks: Seq<Seq<(Seq<u8>, Seq<u8>)>>, i: int)
    requires
        0 <= i < blocks.len(),
    ensures
        entries_ahead(blocks, 0) == 0,
        entries_ahead(blocks, i + 1) == entries_ahead(blocks, i) + blocks[i].len(),
        flat(blocks.take(i + 1)) == flat(blocks.take(i)) + blocks[i],
        entries_ahead(blocks, blocks.len() as int) == flat(blocks).len(),
{
    assert(blocks.take(i + 1).drop_last() =~= blocks.take(i));
    assert(blocks.take(i + 1).last() == blocks[i]);
    assert(blocks.take(blocks.len() as int) =~= blocks);
    assert(blocks.take(0).len() == 0);
}

/// The entries of the first blocks are the first of all entries.
pub proof fn lemma_flat_prefix(blocks: Seq<Seq<(Seq<u8>, Seq<u8>)>>, i: int)
    requires
        0 <= i <= blocks.len(),
    ensures
        entries_ahead(blocks, i) <= flat(blocks).len(),
        flat(blocks.take(i)) == flat(blocks).take(entries_ahead(blocks, i) as int),
    decreases blocks.len() - i,
{
    if i == blocks.len() {
        assert(blocks.take(i) =~= blocks);
        assert(flat(blocks).take(flat(blocks).len() as int) =~= flat(blocks));
    } else {
        lemma_flat_prefix(blocks, i + 1);
        lemma_entries_ahead_step(blocks, i);
        let more = flat(blocks.take(i + 1));
        assert(flat(blocks.take(i)) =~= more.take(entries_ahead(blocks, i) as int));
        assert(more.take(entries_ahead(blocks, i) as int) =~= flat(blocks).take(
            entries_ahead(blocks, i) as int,
        ));
    }
}

/// The `j`-th entry of the `i`-th block stands among all entries behind
/// the entries of the blocks before it.
pub proof fn lemma_flat_index(blocks: Seq<Seq<(Seq<u8>, Seq<u8>)>>, i: int, j: int)
    requires
        0 <= i < blocks.len(),
        0 <= j < blocks[i].len(),
    ensures
        entries_ahead(blocks, i) + j < flat(blocks).len(),
        flat(blocks)[entries_ahead(blocks, i) + j] == blocks[i][j],
{
    lemma_entries_ahead_step(blocks, i);
    lemma_flat_prefix(blocks, i + 1);
    let more = flat(blocks.take(i + 1));
    assert(more[entries_ahead(blocks, i) + j] == blocks[i][j]);
    assert(more[entries_ahead(blocks, i) + j] == flat(blocks)[entries_ahead(blocks, i) + j]);
}

/// More blocks hold no fewer entries.
pub proof fn lemma_entries_ahead_rise(blocks: Seq<Seq<(Seq<u8>, Seq<u8>)>>, i: int, k: int)
    requires
        0 <= i <= k <= blocks.len(),
    ensures
        entries_ahead(blocks, i) <= entries_ahead(blocks, k),
    decreases k - i,
{
    if i < k {
        lemma_entries_ahead_rise(blocks, i, k - 1);
        lemma_entries_ahead_step(blocks, k - 1);
    }
}

/// Each of all entries is an entry of one of the blocks.
pub proof fn lemma_flat_locate(blocks: Seq<Seq<(Seq<u8>, Seq<u8>)>>, p: int) -> (at: (int, int))
    requires
        0 <= p < flat(blocks).len(),
    ensures
        0 <= at.0 < blocks.len(),
        0 <= at.1 < blocks[at.0].len(),
        p == entries_ahead(blocks, at.0) + at.1,
        flat(blocks)[p] == blocks[at.0][at.1],
    decreases blocks.len(),
{
    let n = blocks.len() as int;
    assert(n > 0);
    lemma_entries_ahead_step(blocks, n - 1);
    let front = blocks.drop_last();
    assert(blocks.take(n - 1) =~= front);
    if p < flat(front).len() {
        let at = lemma_flat_locate(front, p);
        assert(front.take(at.0) =~= blocks.take(at.0));
        lemma_flat_index(blocks, at.0, at.1);
        at
    } else {
        let at = (n - 1, p - flat(front).len());
        lemma_flat_index(blocks, at.0, at.1);
        at
    }
}

/// Blocks without entries add nothing to the count of entries.
pub proof fn lemma_entries_ahead_empty(blocks: Seq<Seq<(Seq<u8>, Seq<u8>)>>, i: int, k: int)
    requires
        0 <= i <= k <= blocks.len(),
        forall|m: int| i <= m < k ==> (#[trigger] blocks[m]).len() == 0,
    ensures
        entries_ahead(blocks, k) == entries_ahead(blocks, i),
    decreases k - i,
{
    if i < k {
        lemma_entries_ahead_empty(blocks, i, k - 1);
        lemma_entries_ahead_step(blocks, k - 1);
    }
}

/// Where the keys of the first `n` entries come before `target` and that
/// of the entry behind them, if there is one, does not, `n` is the count
/// of entries at the front whose keys come before `target`.
pub proof fn lemma_keys_before<C: Comparator>(
    order: C,
    entries: Seq<(Seq<u8>, Seq<u8>)>,
    target: Seq<u8>,
    n: int,
)
    requires
        0 <= n <= entries.len(),
        forall|i: int| 0 <= i < n ==> order.less((#[trigger] entries[i]).0, target),
        n < entries.len() ==> !order.less(entries[n].0, target),
    ensures
        keys_before(order, entries, target) == n,
    decreases n,
{
    if n > 0 {
        let tail = entries.skip(1);
        assert(order.less(entries[0].0, target));
        assert forall|i: int| 0 <= i < n - 1 implies order.less((#[trigger] tail[i]).0, target) by {
            assert(tail[i] == entries[i + 1]);
        }
        if n < entries.len() {
            assert(tail[n - 1] == entries[n]);
        }
        lemma_keys_before(order, tail, target, n - 1);
    }
}

/// The keys of the entries counted come before `target`, and the key of
/// the entry behind them, if there is one, does not.
pub proof fn lemma_keys_before_bound<C: Comparator>(
    order: C,
    entries: Seq<(Seq<u8>, Seq<u8>)>,
    target: Seq<u8>,
)
    ensures
        keys_before(order, entries, target) <= entries.len(),
        forall|i: int|
            0 <= i < keys_before(order, entries, target) ==> order.less(
                (#[trigger] entries[i]).0,
                target,
            ),
        keys_before(order, entries, target) < entries.len() ==> !order.less(
            entries[keys_before(order, entries, target) as int].0,
            target,
        ),
    decreases entries.len(),
{
    if entries.len() > 0 && order.less(entries[0].0, target) {
        let tail = entries.skip(1);
        lemma_keys_before_bound(order, tail, target);
        let n = keys_before(order, tail, target) as int;
        assert forall|i: int| 0 <= i < n + 1 implies order.less(
            (#[trigger] entries[i]).0,
            target,
        ) by {
            if i > 0 {
                assert(tail[i - 1] == entries[i]);
            }
        }
        if n + 1 < entries.len() {
            assert(tail[n] == entries[n + 1]);
        }
    }
}

/// Whether the entries of an index part the blocks: there is one for
/// each block, all keys are keys of the order, the keys of the index rise,
/// no key of a block comes behind the key of the index for it, and every
/// key of a block comes behind the key of the index for the block before
/// it.
pub open spec fn index_parts<C: Comparator>(
    order: C,
    index: Seq<(Seq<u8>, Seq<u8>)>,
    blocks: Seq<Seq<(Seq<u8>, Seq<u8>)>>,
) -> bool {
    &&& index.len() == blocks.len()
    &&& forall|i: int| 0 <= i < index.len() ==> order.accepts((#[trigger] index[i]).0)
    &&& forall|i: int, k: int|
        0 <= i < k < index.len() ==> order.less((#[trigger] index[i]).0, (#[trigger] index[k]).0)
    &&& forall|i: int, j: int|
        0 <= i < blocks.len() && 0 <= j < blocks[i].len() ==> {
            &&& order.accepts((#[trigger] blocks[i][j]).0)
            &&& !order.less(index[i].0, blocks[i][j].0)
            &&& i > 0 ==> order.less(index[i - 1].0, blocks[i][j].0)
        }
}

/// The keys of the entries of all blocks before the `place`-th come before
/// `target`, where `place` is the count of entries of the blocks before
/// the first whose key in the index is not before `target`, and of the
/// entries of that block whose keys come before `target`.
proof fn lemma_flat_seek_before<C: Comparator>(
    order: C,
    index: Seq<(Seq<u8>, Seq<u8>)>,
    blocks: Seq<Seq<(Seq<u8>, Seq<u8>)>>,
    target: Seq<u8>,
    p: int,
)
    requires
        index_parts(order, index, blocks),
        order.accepts(target),
        0 <= p < flat(blocks).len(),
        ({
            let i = keys_before(order, index, target) as int;
            i >= index.len() || p < entries_ahead(blocks, i) + keys_before(order, blocks[i], target)
        }),
    ensures
        order.less(flat(blocks)[p].0, target),
{
    let i = keys_before(order, index, target) as int;
    lemma_keys_before_bound(order, index, target);
    let (k, j) = lemma_flat_locate(blocks, p);
    let key = blocks[k][j].0;
    assert(order.accepts(key));
    if k < i {
        assert(order.accepts(index[k].0));
        assert(order.less(index[k].0, target));
        assert(!order.less(index[k].0, key));
        order.lemma_between(index[k].0, key, target);
    } else if k == i {
        lemma_keys_before_bound(order, blocks[i], target);
    } else {
        lemma_keys_before_bound(order, blocks[i], target);
        lemma_entries_ahead_step(blocks, i);
        lemma_entries_ahead_rise(blocks, i + 1, k);
    }
}

/// The key of the entry at the `place`-th of all entries does not come
/// before `target`.
proof fn lemma_flat_seek_at<C: Comparator>(
    order: C,
    index: Seq<(Seq<u8>, Seq<u8>)>,
    blocks: Seq<Seq<(Seq<u8>, Seq<u8>)>>,
    target: Seq<u8>,
)
    requires
        index_parts(order, index, blocks),
        order.accepts(target),
        keys_before(order, index, target) < index.len(),
        entries_ahead(blocks, keys_before(order, index, target) as int) + keys_before(
            order,
            blocks[keys_before(order, index, target) as int],
            target,
        ) < flat(blocks).len(),
    ensures
        !order.less(
            flat(blocks)[(entries_ahead(blocks, keys_before(order, index, target) as int)
                + keys_before(
                order,
                blocks[keys_before(order, index, target) as int],
                target,
            )) as int].0,
            target,
        ),
{
    let i = keys_before(order, index, target) as int;
    let place = entries_ahead(blocks, i) + keys_before(order, blocks[i], target);
    lemma_keys_before_bound(order, index, target);
    lemma_keys_before_bound(order, blocks[i], target);
    lemma_entries_ahead_step(blocks, i);
    let (k, j) = lemma_flat_locate(blocks, place as int);
    let key = blocks[k][j].0;
    assert(order.accepts(key));
    if k < i {
        lemma_entries_ahead_step(blocks, k);
        lemma_entries_ahead_rise(blocks, k + 1, i);
    } else if k == i {
    } else {
        assert(order.less(index[k - 1].0, key));
        assert(order.accepts(index[k - 1].0));
        assert(order.accepts(index[i].0));
        if order.less(key, target) {
            order.lemma_transitive(index[k - 1].0, key, target);
            if i < k - 1 {
                assert(order.less(index[i].0, index[k - 1].0));
                order.lemma_transitive(index[i].0, index[k - 1].0, target);
            }
        }
    }
}

/// Seek over blocks: where an index parts the blocks, the count of
/// entries of all blocks whose keys come before a key is the count of
/// entries of the blocks before the first whose key in the index is not
/// before it, and of the entries of that block whose keys come before it.
pub proof fn lemma_flat_seek<C: Comparator>(
    order: C,
    index: Seq<(Seq<u8>, Seq<u8>)>,
    blocks: Seq<Seq<(Seq<u8>, Seq<u8>)>>,
    target: Seq<u8>,
)
    requires
        index_parts(order, index, blocks),
        order.accepts(target),
    ensures
        keys_before(order, index, target) <= index.len(),
        keys_before(order, flat(blocks), target) == if keys_before(order, index, target)
            < index.len() {
            entries_ahead(blocks, keys_before(order, index, target) as int) + keys_before(
                order,
                blocks[keys_before(order, index, target) as int],
                target,
            )
        } else {
            flat(blocks).len()
        },
{
    let all = flat(blocks);
    let i = keys_before(order, index, target) as int;
    lemma_keys_before_bound(order, index, target);
    let n = index.len() as int;
    let place: int = if i < n {
        (entries_ahead(blocks, i) + keys_before(order, blocks[i], target)) as int
    } else {
        all.len() as int
    };
    if i < n {
        lemma_keys_before_bound(order, blocks[i], target);
        lemma_entries_ahead_step(blocks, i);
        lemma_flat_prefix(blocks, i + 1);
    }
    assert forall|p: int| 0 <= p < place implies order.less((#[trigger] all[p]).0, target) by {
        lemma_flat_seek_before(order, index, blocks, target, p);
    }
    if place < all.len() {
        lemma_flat_seek_at(order, index, blocks, target);
    }
    lemma_keys_before(order, all, target, place);
}

} // verus!
