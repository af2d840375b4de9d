//! What a block holds, entry by entry, and what a block that a builder made
//! holds.

use crate::table::block::{entry_at, entry_header, restart_point, EntryHeader};
use crate::table::iterator::keys_before;
use crate::util::comparator::Comparator;
use crate::table::block_builder::entry_bytes;
use crate::util::bytewise_comparator_impl::{first_difference, lemma_first_difference};
use crate::util::coding::{
    lemma_varint32_roundtrip, lemma_varint_bytes_len, lemma_varint_len_bound, varint_bytes,
    varint_len,
};
use vstd::prelude::*;

verus! {

/// An entry of a block as an iterator finds it: where it starts, its key
/// and value, and where the entry behind it starts.
pub struct Item {
    pub offset: nat,
    pub key: Seq<u8>,
    pub value: Seq<u8>,
    pub next: nat,
}

/// The entry at `pos` behind an entry of key `prev_key`, if one decodes
/// there.
pub open spec fn item_at(data: Seq<u8>, limit: nat, pos: nat, prev_key: Seq<u8>) -> Option<Item> {
    match entry_at(data, limit, pos, prev_key) {
        Some((key, value_start, value_len)) => Some(
            Item {
                offset: pos,
                key,
                value: data.subrange(value_start as int, (value_start + value_len) as int),
                next: value_start + value_len,
            },
        ),
        None => None,
    }
}

/// The entries from `pos` on, as an iterator that starts there behind an
/// entry of key `prev_key` finds them one after another, up to the end of
/// the entries or the first place at which no entry decodes.
#[verifier::opaque]
pub open spec fn scan(data: Seq<u8>, limit: nat, pos: nat, prev_key: Seq<u8>) -> Seq<Item>
    decreases limit - pos,
{
    match item_at(data, limit, pos, prev_key) {
        Some(item) => if pos < item.next <= limit {
            seq![item] + scan(data, limit, item.next, item.key)
        } else {
            Seq::empty()
        },
        None => Seq::empty(),
    }
}

/// The keys and values of a list of entries.
pub open spec fn pairs_of(items: Seq<Item>) -> Seq<(Seq<u8>, Seq<u8>)> {
    Seq::new(items.len(), |i: int| (items[i].key, items[i].value))
}

/// How many bytes of its key an entry shares with the key before it:
/// none where `counter` entries, as many as the interval, were written
/// since the last restart point, else the front part that the keys have in
/// common.
pub open spec fn shared_len(prev_key: Seq<u8>, key: Seq<u8>, counter: nat, interval: nat) -> nat {
    if counter < interval {
        first_difference(prev_key, key)
    } else {
        0
    }
}

/// The count of entries since the last restart point, behind one more
/// entry.
pub open spec fn next_counter(counter: nat, interval: nat) -> nat {
    if counter < interval {
        counter + 1
    } else {
        1
    }
}

/// The entries of a block as a builder writes them behind an entry of key
/// `prev_key`, `counter` entries behind the last restart point.
#[verifier::opaque]
pub open spec fn encode_entries(
    entries: Seq<(Seq<u8>, Seq<u8>)>,
    prev_key: Seq<u8>,
    counter: nat,
    interval: nat,
) -> Seq<u8>
    decreases entries.len(),
{
    if entries.len() == 0 {
        Seq::empty()
    } else {
        entry_bytes(
            shared_len(prev_key, entries[0].0, counter, interval),
            entries[0].0,
            entries[0].1,
        ) + encode_entries(
            entries.skip(1),
            entries[0].0,
            next_counter(counter, interval),
            interval,
        )
    }
}

/// Keys and values are short enough for their lengths to be written down.
pub open spec fn sizes_fit(entries: Seq<(Seq<u8>, Seq<u8>)>) -> bool {
    forall|i: int|
        0 <= i < entries.len() ==> (#[trigger] entries[i]).0.len() <= u32::MAX && entries[i].1.len()
            <= u32::MAX
}

/// The header of an encoded entry decodes to the three numbers it was
/// made of, whatever follows the entry.
pub proof fn lemma_entry_header_roundtrip(
    shared: nat,
    key: Seq<u8>,
    value: Seq<u8>,
    rest: Seq<u8>,
)
    requires
        shared <= key.len() <= u32::MAX,
        value.len() <= u32::MAX,
    ensures
        entry_header(entry_bytes(shared, key, value) + rest) == Some(
            EntryHeader {
                shared: shared as u32,
                non_shared: (key.len() - shared) as u32,
                value_length: value.len() as u32,
                header_len: varint_len(shared) + varint_len((key.len() - shared) as nat)
                    + varint_len(value.len()),
            },
        ),
        entry_bytes(shared, key, value).len() == varint_len(shared) + varint_len(
            (key.len() - shared) as nat,
        ) + varint_len(value.len()) + (key.len() - shared) + value.len(),
        (entry_bytes(shared, key, value) + rest).subrange(
            (varint_len(shared) + varint_len((key.len() - shared) as nat) + varint_len(
                value.len(),
            )) as int,
            (varint_len(shared) + varint_len((key.len() - shared) as nat) + varint_len(
                value.len(),
            ) + (key.len() - shared)) as int,
        ) == key.skip(shared as int),
        (entry_bytes(shared, key, value) + rest).subrange(
            (varint_len(shared) + varint_len((key.len() - shared) as nat) + varint_len(
                value.len(),
            ) + (key.len() - shared)) as int,
            entry_bytes(shared, key, value).len() as int,
        ) == value,
{
    reveal(entry_bytes);
    let non_shared = (key.len() - shared) as nat;
    let s = entry_bytes(shared, key, value) + rest;
    let a = varint_bytes(shared);
    let b = varint_bytes(non_shared);
    let c = varint_bytes(value.len());
    let tail = key.skip(shared as int) + value + rest;
    lemma_varint_bytes_len(shared);
    lemma_varint_bytes_len(non_shared);
    lemma_varint_bytes_len(value.len());
    lemma_varint_len_bound(shared);
    lemma_varint_len_bound(non_shared);
    lemma_varint_len_bound(value.len());
    assert(s =~= a + (b + c + tail));
    lemma_varint32_roundtrip(shared as u32, b + c + tail);
    assert(s.skip(a.len() as int) =~= b + (c + tail));
    lemma_varint32_roundtrip(non_shared as u32, c + tail);
    assert(s.skip((a.len() + b.len()) as int) =~= c + tail);
    lemma_varint32_roundtrip(value.len() as u32, tail);
    let h = a.len() + b.len() + c.len();
    assert(s.subrange(h as int, (h + non_shared) as int) =~= key.skip(shared as int));
    assert(s.subrange((h + non_shared) as int, (h + non_shared + value.len()) as int) =~= value);
}

/// An encoded entry, wherever it stands in a block, is found as the entry
/// it was made of, provided that the key before it is the one it was
/// encoded against.
pub proof fn lemma_item_at_encoded(
    data: Seq<u8>,
    limit: nat,
    pos: nat,
    prev_key: Seq<u8>,
    shared: nat,
    key: Seq<u8>,
    value: Seq<u8>,
)
    requires
        shared <= key.len() <= u32::MAX,
        value.len() <= u32::MAX,
        shared <= prev_key.len(),
        prev_key.take(shared as int) == key.take(shared as int),
        pos + entry_bytes(shared, key, value).len() <= limit <= data.len(),
        data.subrange(pos as int, (pos + entry_bytes(shared, key, value).len()) as int)
            == entry_bytes(shared, key, value),
    ensures
        item_at(data, limit, pos, prev_key) == Some(
            Item {
                offset: pos,
                key,
                value,
                next: pos + entry_bytes(shared, key, value).len(),
            },
        ),
        entry_bytes(shared, key, value).len() >= 3,
{
    let e = entry_bytes(shared, key, value);
    let window = data.subrange(pos as int, limit as int);
    let rest = data.subrange((pos + e.len()) as int, limit as int);
    assert(window =~= e + rest);
    lemma_entry_header_roundtrip(shared, key, value, rest);
    let h = entry_header(window).unwrap();
    let hl = h.header_len;
    lemma_varint_len_bound(shared);
    lemma_varint_len_bound((key.len() - shared) as nat);
    lemma_varint_len_bound(value.len());
    assert(data.subrange((pos + hl) as int, (pos + hl + h.non_shared) as int) =~= window.subrange(
        hl as int,
        (hl + h.non_shared) as int,
    ));
    assert(data.subrange(
        (pos + hl + h.non_shared) as int,
        (pos + hl + h.non_shared + h.value_length) as int,
    ) =~= window.subrange((hl + h.non_shared) as int, e.len() as int));
    assert(key.take(shared as int) + key.skip(shared as int) =~= key);
}

/// Where an entry decodes, the entries from there on are that entry and
/// the entries behind it.
pub proof fn lemma_scan_unfold(data: Seq<u8>, limit: nat, pos: nat, prev_key: Seq<u8>)
    ensures
        scan(data, limit, pos, prev_key) == match item_at(data, limit, pos, prev_key) {
            Some(item) => if pos < item.next <= limit {
                seq![item] + scan(data, limit, item.next, item.key)
            } else {
                Seq::empty()
            },
            None => Seq::empty(),
        },
{
    reveal(scan);
}

/// The encoding of entries is that of the first and of the others behind
/// it.
pub proof fn lemma_encode_unfold(
    entries: Seq<(Seq<u8>, Seq<u8>)>,
    prev_key: Seq<u8>,
    counter: nat,
    interval: nat,
)
    ensures
        entries.len() == 0 ==> encode_entries(entries, prev_key, counter, interval)
            == Seq::<u8>::empty(),
        entries.len() > 0 ==> encode_entries(entries, prev_key, counter, interval) == entry_bytes(
            shared_len(prev_key, entries[0].0, counter, interval),
            entries[0].0,
            entries[0].1,
        ) + encode_entries(
            entries.skip(1),
            entries[0].0,
            next_counter(counter, interval),
            interval,
        ),
{
    reveal(encode_entries);
}

/// Block round trip: the entries that a builder wrote are found again, one
/// after another, with the keys and values that went in.
pub proof fn lemma_scan_encoded(
    entries: Seq<(Seq<u8>, Seq<u8>)>,
    prev_key: Seq<u8>,
    counter: nat,
    interval: nat,
    data: Seq<u8>,
    limit: nat,
    pos: nat,
)
    requires
        sizes_fit(entries),
        pos + encode_entries(entries, prev_key, counter, interval).len() == limit <= data.len(),
        data.subrange(pos as int, limit as int) == encode_entries(
            entries,
            prev_key,
            counter,
            interval,
        ),
    ensures
        pairs_of(scan(data, limit, pos, prev_key)) == entries,
    decreases entries.len(),
{
    lemma_scan_unfold(data, limit, pos, prev_key);
    lemma_encode_unfold(entries, prev_key, counter, interval);
    if entries.len() == 0 {
        assert(item_at(data, limit, pos, prev_key) is None);
        assert(pairs_of(scan(data, limit, pos, prev_key)) =~= entries);
    } else {
        let key = entries[0].0;
        let value = entries[0].1;
        let shared = shared_len(prev_key, key, counter, interval);
        let e = entry_bytes(shared, key, value);
        let rest = encode_entries(entries.skip(1), key, next_counter(counter, interval), interval);
        lemma_first_difference(prev_key, key);
        if shared == 0 {
            assert(prev_key.take(0) =~= key.take(0));
        }
        lemma_entry_header_roundtrip(shared, key, value, rest);
        let whole = data.subrange(pos as int, limit as int);
        lemma_split_window(data, pos, limit, e, rest);
        lemma_item_at_encoded(data, limit, pos, prev_key, shared, key, value);
        let next = pos + e.len();
        assert forall|i: int| 0 <= i < entries.skip(1).len() implies (#[trigger] entries.skip(
            1,
        )[i]).0.len() <= u32::MAX && entries.skip(1)[i].1.len() <= u32::MAX by {
            assert(entries.skip(1)[i] == entries[i + 1]);
        }
        lemma_scan_encoded(
            entries.skip(1),
            key,
            next_counter(counter, interval),
            interval,
            data,
            limit,
            next,
        );
        let first = Item { offset: pos, key, value, next };
        let items = scan(data, limit, pos, prev_key);
        let tail_items = scan(data, limit, next, key);
        assert(items == seq![first] + tail_items);
        lemma_pairs_cons(first, tail_items);
        assert(seq![(key, value)] + entries.skip(1) =~= entries);
    }
}

proof fn lemma_split_window(data: Seq<u8>, pos: nat, limit: nat, e: Seq<u8>, rest: Seq<u8>)
    requires
        pos <= limit <= data.len(),
        data.subrange(pos as int, limit as int) == e + rest,
    ensures
        pos + e.len() + rest.len() == limit,
        data.subrange(pos as int, (pos + e.len()) as int) == e,
        data.subrange((pos + e.len()) as int, limit as int) == rest,
{
    let whole = data.subrange(pos as int, limit as int);
    assert(whole.len() == e.len() + rest.len());
    assert(data.subrange(pos as int, (pos + e.len()) as int) =~= whole.subrange(0, e.len() as int));
    assert(whole.subrange(0, e.len() as int) =~= e);
    assert(data.subrange((pos + e.len()) as int, limit as int) =~= whole.subrange(
        e.len() as int,
        whole.len() as int,
    ));
    assert(whole.subrange(e.len() as int, whole.len() as int) =~= rest);
}

proof fn lemma_pairs_cons(first: Item, tail: Seq<Item>)
    ensures
        pairs_of(seq![first] + tail) == seq![(first.key, first.value)] + pairs_of(tail),
{
    assert(pairs_of(seq![first] + tail) =~= seq![(first.key, first.value)] + pairs_of(tail));
}

/// The entries of a block.
pub open spec fn block_items(data: Seq<u8>, limit: nat) -> Seq<Item> {
    scan(data, limit, 0, Seq::empty())
}

/// Whether an entry starts at `offset` that holds its key in full.
pub open spec fn restart_is_item(data: Seq<u8>, limit: nat, offset: nat) -> bool {
    &&& exists|i: int|
        0 <= i < block_items(data, limit).len() && (#[trigger] block_items(data, limit)[i]).offset
            == offset
    &&& offset <= limit <= data.len()
    &&& match entry_header(data.subrange(offset as int, limit as int)) {
        Some(h) => h.shared == 0,
        None => false,
    }
}

/// A block is in order: its entries decode one after another up to the end
/// of the entries, their keys rise in the order `order`, the first restart
/// point is the start of the block, and every restart point is the start
/// of an entry that holds its key in full.  A block without entries has
/// the one restart point.
pub open spec fn block_ordered<C: Comparator>(
    order: C,
    data: Seq<u8>,
    limit: nat,
    restarts: nat,
) -> bool {
    let items = block_items(data, limit);
    &&& limit <= data.len()
    &&& restarts >= 1
    &&& items.len() == 0 ==> limit == 0 && restarts == 1
    &&& items.len() > 0 ==> items.last().next == limit
    &&& forall|i: int| 0 <= i < items.len() ==> order.accepts(#[trigger] items[i].key)
    &&& forall|i: int, j: int|
        0 <= i < j < items.len() ==> order.less(#[trigger] items[i].key, #[trigger] items[j].key)
    &&& restart_point(data, limit, 0) == 0
    &&& limit > 0 ==> forall|r: nat|
        r < restarts ==> restart_is_item(data, limit, #[trigger] restart_point(data, limit, r))
}

/// The key of the entry before the `i`-th of a scan.
pub open spec fn key_before(items: Seq<Item>, first_prev: Seq<u8>, i: int) -> Seq<u8> {
    if i == 0 {
        first_prev
    } else {
        items[i - 1].key
    }
}

/// The entries of a scan hang together: each starts where the one before
/// it ends and decodes against the key of the one before it, and behind
/// the last no entry decodes within the entries.
pub proof fn lemma_scan_chain(data: Seq<u8>, limit: nat, pos: nat, prev_key: Seq<u8>, i: int)
    requires
        0 <= i < scan(data, limit, pos, prev_key).len(),
    ensures
        ({
            let items = scan(data, limit, pos, prev_key);
            &&& pos <= items[i].offset < items[i].next <= limit
            &&& items[i].offset == if i == 0 {
                pos
            } else {
                items[i - 1].next
            }
            &&& item_at(data, limit, items[i].offset, key_before(items, prev_key, i)) == Some(
                items[i],
            )
            &&& i + 1 == items.len() ==> scan(data, limit, items[i].next, items[i].key).len() == 0
            &&& i + 1 < items.len() ==> scan(data, limit, items[i].next, items[i].key).len() > 0
        }),
    decreases i,
{
    lemma_scan_unfold(data, limit, pos, prev_key);
    let items = scan(data, limit, pos, prev_key);
    let first = item_at(data, limit, pos, prev_key).unwrap();
    let tail = scan(data, limit, first.next, first.key);
    assert(items == seq![first] + tail);
    if i > 0 {
        assert(items[i] == tail[i - 1]);
        lemma_scan_chain(data, limit, first.next, first.key, i - 1);
        if i > 1 {
            assert(items[i - 1] == tail[i - 2]);
        }
    }
}

/// Behind the last entry of a scan nothing decodes that lies within the
/// entries.
pub proof fn lemma_scan_end(data: Seq<u8>, limit: nat, pos: nat, prev_key: Seq<u8>)
    ensures
        ({
            let items = scan(data, limit, pos, prev_key);
            let (at, key) = if items.len() == 0 {
                (pos, prev_key)
            } else {
                (items.last().next, items.last().key)
            };
            match item_at(data, limit, at, key) {
                Some(item) => !(at < item.next <= limit),
                None => true,
            }
        }),
{
    let items = scan(data, limit, pos, prev_key);
    if items.len() == 0 {
        lemma_scan_unfold(data, limit, pos, prev_key);
    } else {
        lemma_scan_chain(data, limit, pos, prev_key, items.len() - 1);
        lemma_scan_unfold(data, limit, items.last().next, items.last().key);
    }
}

/// The entries of a scan lie one behind the other.
pub proof fn lemma_offsets_increase(
    data: Seq<u8>,
    limit: nat,
    pos: nat,
    prev_key: Seq<u8>,
    i: int,
    j: int,
)
    requires
        0 <= i < j < scan(data, limit, pos, prev_key).len(),
    ensures
        scan(data, limit, pos, prev_key)[i].next <= scan(data, limit, pos, prev_key)[j].offset,
    decreases j - i,
{
    lemma_scan_chain(data, limit, pos, prev_key, j);
    if i + 1 < j {
        lemma_offsets_increase(data, limit, pos, prev_key, i, j - 1);
        lemma_scan_chain(data, limit, pos, prev_key, j - 1);
    }
}

/// An entry that holds its key in full decodes alike behind any key.
pub proof fn lemma_full_entry(data: Seq<u8>, limit: nat, pos: nat, k1: Seq<u8>, k2: Seq<u8>)
    requires
        pos <= limit <= data.len(),
        match entry_header(data.subrange(pos as int, limit as int)) {
            Some(h) => h.shared == 0,
            None => false,
        },
    ensures
        item_at(data, limit, pos, k1) == item_at(data, limit, pos, k2),
{
    assert(k1.take(0) =~= k2.take(0));
}

/// In a block in order, an entry starts at every restart point, and it
/// decodes there behind no key at all.
pub proof fn lemma_restart_item<C: Comparator>(
    order: C,
    data: Seq<u8>,
    limit: nat,
    restarts: nat,
    r: nat,
) -> (m: int)
    requires
        block_ordered(order, data, limit, restarts),
        r < restarts,
        limit > 0,
    ensures
        0 <= m < block_items(data, limit).len(),
        block_items(data, limit)[m].offset == restart_point(data, limit, r),
        item_at(data, limit, restart_point(data, limit, r), Seq::empty()) == Some(
            block_items(data, limit)[m],
        ),
{
    let items = block_items(data, limit);
    let offset = restart_point(data, limit, r);
    assert(restart_is_item(data, limit, offset));
    let m = choose|i: int| 0 <= i < items.len() && (#[trigger] items[i]).offset == offset;
    lemma_scan_chain(data, limit, 0, Seq::empty(), m);
    lemma_full_entry(data, limit, offset, key_before(items, Seq::empty(), m), Seq::empty());
    m
}

/// The count of entries at the front of `items` whose keys come before
/// `target`.
pub open spec fn count_before<C: Comparator>(order: C, items: Seq<Item>, target: Seq<u8>) -> nat
    decreases items.len(),
{
    if items.len() == 0 || !order.less(items[0].key, target) {
        0
    } else {
        1 + count_before(order, items.skip(1), target)
    }
}

/// The first of `items` whose key is not before `target`: its key and its
/// value.
pub open spec fn first_not_before<C: Comparator>(
    order: C,
    items: Seq<Item>,
    target: Seq<u8>,
) -> Option<(Seq<u8>, Seq<u8>)> {
    let n = count_before(order, items, target) as int;
    if n < items.len() {
        Some((items[n].key, items[n].value))
    } else {
        None
    }
}

/// Where the keys of the first `j` entries come before `target` and that
/// of the entry behind them, if there is one, does not, `j` is the count
/// of entries at the front whose keys come before `target`.
pub proof fn lemma_count_before<C: Comparator>(
    order: C,
    items: Seq<Item>,
    target: Seq<u8>,
    j: int,
)
    requires
        0 <= j <= items.len(),
        forall|i: int| 0 <= i < j ==> order.less(#[trigger] items[i].key, target),
        j < items.len() ==> !order.less(items[j].key, target),
    ensures
        count_before(order, items, target) == j,
    decreases j,
{
    if j > 0 {
        let tail = items.skip(1);
        assert(order.less(items[0].key, target));
        assert forall|i: int| 0 <= i < j - 1 implies order.less(#[trigger] tail[i].key, target) by {
            assert(tail[i] == items[i + 1]);
        }
        if j < items.len() {
            assert(tail[j - 1] == items[j]);
        }
        lemma_count_before(order, tail, target, j - 1);
    }
}

/// Counting the entries whose keys come before a key is counting their
/// keys.
pub proof fn lemma_keys_before_pairs<C: Comparator>(order: C, items: Seq<Item>, target: Seq<u8>)
    ensures
        keys_before(order, pairs_of(items), target) == count_before(order, items, target),
    decreases items.len(),
{
    if items.len() > 0 && order.less(items[0].key, target) {
        assert(pairs_of(items).skip(1) =~= pairs_of(items.skip(1)));
        lemma_keys_before_pairs(order, items.skip(1), target);
    }
}

} // verus!
