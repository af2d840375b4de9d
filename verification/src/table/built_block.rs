//! What a block holds that a builder made of entries whose keys rise: the
//! entries that went in, in order, with a restart point at every entry
//! whose key is written in full.

use crate::table::block::{block_restarts, entry_header, restart_point};
use crate::table::block_builder::{entry_bytes, finished_block, restart_array_bytes};
use crate::table::block_laws::{
    block_items, block_ordered, encode_entries, lemma_encode_unfold, lemma_entry_header_roundtrip,
    lemma_item_at_encoded, lemma_scan_encoded, lemma_scan_unfold, next_counter, pairs_of,
    restart_is_item, scan, shared_len, sizes_fit, Item,
};
use crate::util::bytewise_comparator_impl::lemma_first_difference;
use crate::util::coding::{fixed32_bytes, lemma_fixed32_roundtrip};
use crate::util::comparator::Comparator;
use vstd::prelude::*;

verus! {

/// The count of entries since the last restart point behind `n` more
/// entries.
pub open spec fn counter_after(n: nat, counter: nat, interval: nat) -> nat
    decreases n,
{
    if n == 0 {
        counter
    } else {
        next_counter(counter_after((n - 1) as nat, counter, interval), interval)
    }
}

/// The key against which the entry behind `entries` is encoded.
pub open spec fn last_key_of(entries: Seq<(Seq<u8>, Seq<u8>)>, prev_key: Seq<u8>) -> Seq<u8> {
    if entries.len() == 0 {
        prev_key
    } else {
        entries.last().0
    }
}

/// Counting `n` entries on is counting one and then the others.
pub proof fn lemma_counter_shift(n: nat, counter: nat, interval: nat)
    requires
        n > 0,
    ensures
        counter_after(n, counter, interval) == counter_after(
            (n - 1) as nat,
            next_counter(counter, interval),
            interval,
        ),
    decreases n,
{
    let next = next_counter(counter, interval);
    if n > 1 {
        lemma_counter_shift((n - 1) as nat, counter, interval);
        assert(counter_after((n - 1) as nat, next, interval) == next_counter(
            counter_after((n - 2) as nat, next, interval),
            interval,
        ));
    } else {
        assert(counter_after(0, counter, interval) == counter);
        assert(counter_after(0, next, interval) == next);
    }
}

/// The counter stays within the interval.
pub proof fn lemma_counter_bound(n: nat, counter: nat, interval: nat)
    requires
        counter <= interval,
        interval >= 1,
    ensures
        counter_after(n, counter, interval) <= interval,
        n > 0 ==> counter_after(n, counter, interval) >= 1,
    decreases n,
{
    if n > 0 {
        lemma_counter_bound((n - 1) as nat, counter, interval);
    }
}

/// One more entry is encoded behind the others, against the key of the
/// last of them.
pub proof fn lemma_encode_push(
    entries: Seq<(Seq<u8>, Seq<u8>)>,
    entry: (Seq<u8>, Seq<u8>),
    prev_key: Seq<u8>,
    counter: nat,
    interval: nat,
)
    ensures
        encode_entries(entries.push(entry), prev_key, counter, interval) == encode_entries(
            entries,
            prev_key,
            counter,
            interval,
        ) + entry_bytes(
            shared_len(
                last_key_of(entries, prev_key),
                entry.0,
                counter_after(entries.len(), counter, interval),
                interval,
            ),
            entry.0,
            entry.1,
        ),
    decreases entries.len(),
{
    let more = entries.push(entry);
    lemma_encode_unfold(more, prev_key, counter, interval);
    lemma_encode_unfold(entries, prev_key, counter, interval);
    if entries.len() == 0 {
        assert(more.skip(1) =~= Seq::empty());
        lemma_encode_unfold(more.skip(1), entry.0, next_counter(counter, interval), interval);
        let e = entry_bytes(shared_len(prev_key, entry.0, counter, interval), entry.0, entry.1);
        assert(e + Seq::<u8>::empty() =~= Seq::<u8>::empty() + e);
    } else {
        let first = entries[0];
        let next = next_counter(counter, interval);
        assert(more.skip(1) =~= entries.skip(1).push(entry));
        assert(more[0] == first);
        lemma_encode_push(entries.skip(1), entry, first.0, next, interval);
        lemma_counter_shift(entries.len(), counter, interval);
        assert(last_key_of(entries.skip(1), first.0) == last_key_of(entries, prev_key)) by {
            if entries.len() > 1 {
                assert(entries.skip(1).last() == entries.last());
            }
        }
        let head = entry_bytes(shared_len(prev_key, first.0, counter, interval), first.0, first.1);
        let mid = encode_entries(entries.skip(1), first.0, next, interval);
        let tail = entry_bytes(
            shared_len(
                last_key_of(entries, prev_key),
                entry.0,
                counter_after(entries.len(), counter, interval),
                interval,
            ),
            entry.0,
            entry.1,
        );
        assert(head + (mid + tail) =~= (head + mid) + tail);
    }
}

/// Where the `i`-th of the entries starts in their encoding.
pub open spec fn entry_offset(
    entries: Seq<(Seq<u8>, Seq<u8>)>,
    prev_key: Seq<u8>,
    counter: nat,
    interval: nat,
    i: int,
) -> nat {
    encode_entries(entries.take(i), prev_key, counter, interval).len()
}

/// The `i`-th entry of an encoding is found where the entries before it
/// end, and its header holds the count of shared bytes that it was encoded
/// with.
pub proof fn lemma_encoded_item(
    entries: Seq<(Seq<u8>, Seq<u8>)>,
    prev_key: Seq<u8>,
    counter: nat,
    interval: nat,
    data: Seq<u8>,
    limit: nat,
    pos: nat,
    i: int,
)
    requires
        sizes_fit(entries),
        pos + encode_entries(entries, prev_key, counter, interval).len() == limit <= data.len(),
        data.subrange(pos as int, limit as int) == encode_entries(
            entries,
            prev_key,
            counter,
            interval,
        ),
        0 <= i < entries.len(),
    ensures
        ({
            let items = scan(data, limit, pos, prev_key);
            &&& items.len() == entries.len()
            &&& items[i].offset == pos + entry_offset(entries, prev_key, counter, interval, i)
            &&& items[i].next == pos + entry_offset(entries, prev_key, counter, interval, i + 1)
            &&& items[i].offset < limit
            &&& match entry_header(data.subrange(items[i].offset as int, limit as int)) {
                Some(h) => h.shared == shared_len(
                    last_key_of(entries.take(i), prev_key),
                    entries[i].0,
                    counter_after(i as nat, counter, interval),
                    interval,
                ),
                None => false,
            }
        }),
    decreases i,
{
    let items = scan(data, limit, pos, prev_key);
    lemma_scan_encoded(entries, prev_key, counter, interval, data, limit, pos);
    assert(items.len() == entries.len()) by {
        assert(pairs_of(items).len() == items.len());
    }
    lemma_scan_unfold(data, limit, pos, prev_key);
    lemma_encode_unfold(entries, prev_key, counter, interval);
    let key = entries[0].0;
    let value = entries[0].1;
    let shared = shared_len(prev_key, key, counter, interval);
    let e = entry_bytes(shared, key, value);
    let next = next_counter(counter, interval);
    let rest = encode_entries(entries.skip(1), key, next, interval);
    lemma_first_difference(prev_key, key);
    if shared == 0 {
        assert(prev_key.take(0) =~= key.take(0));
    }
    lemma_entry_header_roundtrip(shared, key, value, rest);
    let whole = data.subrange(pos as int, limit as int);
    assert(whole.len() == e.len() + rest.len());
    assert(data.subrange(pos as int, (pos + e.len()) as int) =~= whole.subrange(0, e.len() as int));
    assert(whole.subrange(0, e.len() as int) =~= e);
    assert(data.subrange((pos + e.len()) as int, limit as int) =~= whole.subrange(
        e.len() as int,
        whole.len() as int,
    ));
    assert(whole.subrange(e.len() as int, whole.len() as int) =~= rest);
    lemma_item_at_encoded(data, limit, pos, prev_key, shared, key, value);
    let first = Item { offset: pos, key, value, next: pos + e.len() };
    let tail_items = scan(data, limit, first.next, key);
    assert(items == seq![first] + tail_items);
    lemma_encode_unfold(entries.take(0), prev_key, counter, interval);
    assert(entries.take(1) =~= seq![entries[0]]);
    lemma_encode_unfold(entries.take(1), prev_key, counter, interval);
    assert(entries.take(1).skip(1) =~= Seq::empty());
    lemma_encode_unfold(entries.take(1).skip(1), key, next, interval);
    assert(e + Seq::<u8>::empty() =~= e);
    if i == 0 {
        assert(items[0] == first);
        assert(entries.take(0) =~= Seq::empty());
    } else {
        assert(items[i] == tail_items[i - 1]);
        assert forall|k: int| 0 <= k < entries.skip(1).len() implies (#[trigger] entries.skip(
            1,
        )[k]).0.len() <= u32::MAX && entries.skip(1)[k].1.len() <= u32::MAX by {
            assert(entries.skip(1)[k] == entries[k + 1]);
        }
        lemma_encoded_item(entries.skip(1), key, next, interval, data, limit, first.next, i - 1);
        assert(entries.take(i).skip(1) =~= entries.skip(1).take(i - 1));
        assert(entries.take(i + 1).skip(1) =~= entries.skip(1).take(i));
        lemma_encode_unfold(entries.take(i), prev_key, counter, interval);
        lemma_encode_unfold(entries.take(i + 1), prev_key, counter, interval);
        assert(entries.take(i)[0] == entries[0]);
        assert(entries.take(i + 1)[0] == entries[0]);
        lemma_counter_shift(i as nat, counter, interval);
        assert(last_key_of(entries.skip(1).take(i - 1), key) == last_key_of(
            entries.take(i),
            prev_key,
        )) by {
            if i > 1 {
                assert(entries.skip(1).take(i - 1).last() == entries.take(i).last());
            }
        }
        assert(entries.skip(1)[i - 1] == entries[i]);
    }
}

/// An encoding takes three bytes or more for each entry.
pub proof fn lemma_encoded_len(
    entries: Seq<(Seq<u8>, Seq<u8>)>,
    prev_key: Seq<u8>,
    counter: nat,
    interval: nat,
)
    requires
        sizes_fit(entries),
    ensures
        encode_entries(entries, prev_key, counter, interval).len() >= 3 * entries.len(),
    decreases entries.len(),
{
    lemma_encode_unfold(entries, prev_key, counter, interval);
    if entries.len() > 0 {
        let key = entries[0].0;
        let shared = shared_len(prev_key, key, counter, interval);
        lemma_first_difference(prev_key, key);
        lemma_entry_header_roundtrip(shared, key, entries[0].1, Seq::empty());
        crate::util::coding::lemma_varint_len_bound(shared);
        crate::util::coding::lemma_varint_len_bound((key.len() - shared) as nat);
        crate::util::coding::lemma_varint_len_bound(entries[0].1.len());
        assert forall|k: int| 0 <= k < entries.skip(1).len() implies (#[trigger] entries.skip(
            1,
        )[k]).0.len() <= u32::MAX && entries.skip(1)[k].1.len() <= u32::MAX by {
            assert(entries.skip(1)[k] == entries[k + 1]);
        }
        lemma_encoded_len(entries.skip(1), key, next_counter(counter, interval), interval);
    }
}

/// The restart points of a block made of `entries`: the start of the
/// block, and the start of every entry before which as many entries as
/// the interval were written since the last restart point.
pub open spec fn restart_offsets(entries: Seq<(Seq<u8>, Seq<u8>)>, interval: nat) -> Seq<u32>
    decreases entries.len(),
{
    if entries.len() == 0 {
        seq![0u32]
    } else {
        let before = restart_offsets(entries.drop_last(), interval);
        if counter_after((entries.len() - 1) as nat, 0, interval) < interval {
            before
        } else {
            before.push(
                encode_entries(entries.drop_last(), Seq::empty(), 0, interval).len() as u32,
            )
        }
    }
}

/// The bytes of the block that a builder makes of `entries`.
pub open spec fn built_block(entries: Seq<(Seq<u8>, Seq<u8>)>, interval: nat) -> Seq<u8> {
    finished_block(
        encode_entries(entries, Seq::empty(), 0, interval),
        restart_offsets(entries, interval),
    )
}

/// Whether the keys of `entries` are keys of `order` and rise in it.
pub open spec fn keys_rise<C: Comparator>(order: C, entries: Seq<(Seq<u8>, Seq<u8>)>) -> bool {
    &&& forall|i: int| 0 <= i < entries.len() ==> order.accepts(#[trigger] entries[i].0)
    &&& forall|i: int, j: int|
        0 <= i < j < entries.len() ==> order.less(#[trigger] entries[i].0, #[trigger] entries[j].0)
}

/// There are no more restart points than entries and one, and the first
/// is the start of the block.
pub proof fn lemma_restart_count(entries: Seq<(Seq<u8>, Seq<u8>)>, interval: nat)
    ensures
        1 <= restart_offsets(entries, interval).len() <= entries.len() + 1,
        restart_offsets(entries, interval)[0] == 0,
    decreases entries.len(),
{
    if entries.len() > 0 {
        lemma_restart_count(entries.drop_last(), interval);
    }
}

/// Each restart point is the start of an entry: of the first entry, or of
/// one before which the counter had reached the interval.
pub proof fn lemma_restart_offsets(entries: Seq<(Seq<u8>, Seq<u8>)>, interval: nat, r: int) -> (i:
    int)
    requires
        0 <= r < restart_offsets(entries, interval).len(),
        entries.len() > 0,
    ensures
        0 <= i < entries.len(),
        restart_offsets(entries, interval)[r] == entry_offset(
            entries,
            Seq::empty(),
            0,
            interval,
            i,
        ) as u32,
        i == 0 || counter_after(i as nat, 0, interval) >= interval,
    decreases entries.len(),
{
    let front = entries.drop_last();
    let before = restart_offsets(front, interval);
    let n = entries.len() as int;
    lemma_restart_count(front, interval);
    lemma_encode_unfold(entries.take(0), Seq::empty(), 0, interval);
    if r < before.len() {
        if front.len() > 0 {
            let i = lemma_restart_offsets(front, interval, r);
            assert(front.take(i) =~= entries.take(i));
            i
        } else {
            0
        }
    } else {
        assert(front =~= entries.take(n - 1));
        n - 1
    }
}

/// The restart array holds four bytes for each restart point, one point
/// behind the other.
pub proof fn lemma_restart_array(restarts: Seq<u32>, r: int)
    ensures
        restart_array_bytes(restarts).len() == 4 * restarts.len(),
        0 <= r < restarts.len() ==> restart_array_bytes(restarts).subrange(4 * r, 4 * r + 4)
            == fixed32_bytes(restarts[r]),
    decreases restarts.len(),
{
    if restarts.len() > 0 {
        let front = restarts.drop_last();
        lemma_restart_array(front, r);
        let all = restart_array_bytes(restarts);
        if 0 <= r < front.len() {
            assert(all.subrange(4 * r, 4 * r + 4) =~= restart_array_bytes(front).subrange(
                4 * r,
                4 * r + 4,
            ));
        } else if r == front.len() {
            assert(all.subrange(4 * r, 4 * r + 4) =~= fixed32_bytes(restarts[r]));
        }
    }
}

/// A finished block holds its restart points behind its entries, and
/// their count at its end.
pub proof fn lemma_finished_block(entries: Seq<u8>, restarts: Seq<u32>)
    requires
        restarts.len() <= u32::MAX,
    ensures
        block_restarts(finished_block(entries, restarts)) == Some((entries.len(), restarts.len())),
        forall|r: nat|
            r < restarts.len() ==> #[trigger] restart_point(
                finished_block(entries, restarts),
                entries.len(),
                r,
            ) == restarts[r as int],
{
    let data = finished_block(entries, restarts);
    let array = restart_array_bytes(restarts);
    let count = restarts.len() as u32;
    lemma_restart_array(restarts, 0);
    lemma_fixed32_roundtrip(count, Seq::empty());
    assert(data.skip(data.len() - 4) =~= fixed32_bytes(count) + Seq::<u8>::empty());
    assert forall|r: nat| r < restarts.len() implies #[trigger] restart_point(
        data,
        entries.len(),
        r,
    ) == restarts[r as int] by {
        lemma_restart_array(restarts, r as int);
        let at = (entries.len() + 4 * r) as int;
        lemma_fixed32_roundtrip(restarts[r as int], data.skip(at + 4));
        let k = r as int;
        assert(data.skip(at) =~= array.subrange(4 * k, 4 * k + 4) + data.skip(at + 4));
    }
}

/// The entries of a built block are those it was made of, and they end
/// where the restart array starts.
pub proof fn lemma_built_items(entries: Seq<(Seq<u8>, Seq<u8>)>, interval: nat)
    requires
        sizes_fit(entries),
    ensures
        ({
            let data = built_block(entries, interval);
            let limit = encode_entries(entries, Seq::empty(), 0, interval).len();
            let items = block_items(data, limit);
            &&& limit <= data.len()
            &&& data.subrange(0, limit as int) == encode_entries(
                entries,
                Seq::empty(),
                0,
                interval,
            )
            &&& pairs_of(items) == entries
            &&& items.len() == entries.len()
            &&& items.len() > 0 ==> items.last().next == limit
            &&& items.len() == 0 ==> limit == 0
        }),
{
    let encoded = encode_entries(entries, Seq::empty(), 0, interval);
    let data = built_block(entries, interval);
    let limit = encoded.len();
    let items = block_items(data, limit);
    assert(data.subrange(0, limit as int) =~= encoded);
    lemma_scan_encoded(entries, Seq::empty(), 0, interval, data, limit, 0);
    assert(pairs_of(items).len() == items.len());
    lemma_encode_unfold(entries, Seq::empty(), 0, interval);
    if entries.len() > 0 {
        let n = entries.len() as int;
        lemma_encoded_item(entries, Seq::empty(), 0, interval, data, limit, 0, n - 1);
        assert(entries.take(n) =~= entries);
    }
}

/// In a built block an entry that holds its key in full starts at every
/// restart point.
pub proof fn lemma_built_restart(entries: Seq<(Seq<u8>, Seq<u8>)>, interval: nat, r: nat)
    requires
        interval >= 1,
        sizes_fit(entries),
        entries.len() > 0,
        encode_entries(entries, Seq::empty(), 0, interval).len() <= u32::MAX,
        r < restart_offsets(entries, interval).len(),
    ensures
        restart_is_item(
            built_block(entries, interval),
            encode_entries(entries, Seq::empty(), 0, interval).len(),
            restart_offsets(entries, interval)[r as int] as nat,
        ),
{
    let encoded = encode_entries(entries, Seq::empty(), 0, interval);
    let offsets = restart_offsets(entries, interval);
    let data = built_block(entries, interval);
    let limit = encoded.len();
    let items = block_items(data, limit);
    lemma_built_items(entries, interval);
    let i = lemma_restart_offsets(entries, interval, r as int);
    lemma_encoded_item(entries, Seq::empty(), 0, interval, data, limit, 0, i);
    lemma_first_difference(Seq::empty(), entries[i].0);
    if i == 0 {
        assert(entries.take(0) =~= Seq::empty());
    }
    assert(items[i].offset == offsets[r as int]);
}

/// Block round trip: a block that a builder made of entries whose keys
/// rise holds those entries, one after another, with the keys and values
/// that went in, and is in order.
pub proof fn lemma_built_block<C: Comparator>(
    order: C,
    entries: Seq<(Seq<u8>, Seq<u8>)>,
    interval: nat,
)
    requires
        interval >= 1,
        sizes_fit(entries),
        keys_rise(order, entries),
        encode_entries(entries, Seq::empty(), 0, interval).len() <= u32::MAX,
    ensures
        ({
            let data = built_block(entries, interval);
            let limit = encode_entries(entries, Seq::empty(), 0, interval).len();
            let restarts = restart_offsets(entries, interval).len();
            &&& block_restarts(data) == Some((limit, restarts))
            &&& pairs_of(block_items(data, limit)) == entries
            &&& block_ordered(order, data, limit, restarts)
        }),
{
    let encoded = encode_entries(entries, Seq::empty(), 0, interval);
    let offsets = restart_offsets(entries, interval);
    let data = built_block(entries, interval);
    let limit = encoded.len();
    let items = block_items(data, limit);
    lemma_restart_count(entries, interval);
    lemma_encoded_len(entries, Seq::empty(), 0, interval);
    lemma_finished_block(encoded, offsets);
    lemma_built_items(entries, interval);
    assert forall|i: int| 0 <= i < items.len() implies #[trigger] items[i].key == entries[i].0 by {
        assert(pairs_of(items)[i] == entries[i]);
    }
    assert(restart_point(data, limit, 0) == 0);
    if entries.len() > 0 {
        assert forall|r: nat| r < offsets.len() implies restart_is_item(
            data,
            limit,
            #[trigger] restart_point(data, limit, r),
        ) by {
            lemma_built_restart(entries, interval, r);
        }
    }
}

} // verus!
