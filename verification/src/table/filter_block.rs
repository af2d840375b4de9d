//! The filter block of a table: one filter for every 2 KiB of file offsets
//! at which data blocks start.

use crate::obj::slice::Slice;
use crate::table::block_builder::restart_array_bytes;
use crate::unit::filter_policy::{key_views, FilterPolicy};
use crate::table::built_block::lemma_restart_array;
use crate::util::coding::{
    decode_fixed32, fixed32_bytes, fixed32_value, lemma_fixed32_roundtrip, put_fixed32,
};
use vstd::prelude::*;
use vstd::slice::slice_subrange;

verus! {

/// A new filter is started for every `2^K_FILTER_BASE_LG` bytes of file.
pub const K_FILTER_BASE_LG: u8 = 11;

pub const K_FILTER_BASE: u64 = 2048;

/// Builds the filter block of a table from the keys of its data blocks.
pub struct FilterBlockBuilder<P: FilterPolicy> {
    policy_: P,
    /// The keys of the data blocks for which no filter was made yet.
    keys_: Vec<Slice>,
    /// The filters made so far.
    result: Vec<u8>,
    /// Where in `result` the filter of each 2 KiB range starts.
    filter_offsets_: Vec<u32>,
}

/// The tail of a filter block behind its filters: where each filter
/// starts, where this array of offsets starts, and the base as a power of 2.
pub open spec fn filter_block_tail(offsets: Seq<u32>, array_offset: u32) -> Seq<u8> {
    restart_array_bytes(offsets) + fixed32_bytes(array_offset) + seq![K_FILTER_BASE_LG]
}

impl<P: FilterPolicy> FilterBlockBuilder<P> {
    pub closed spec fn policy(&self) -> P {
        self.policy_
    }

    /// The keys added since the last filter was made.
    pub closed spec fn pending(&self) -> Seq<Seq<u8>> {
        key_views(self.keys_@)
    }

    /// The filters made so far, one behind the other.
    pub closed spec fn filters(&self) -> Seq<u8> {
        self.result@
    }

    /// Where each filter starts.
    pub closed spec fn offsets(&self) -> Seq<u32> {
        self.filter_offsets_@
    }

    pub fn new(policy: P) -> (b: Self)
        ensures
            b.policy() == policy,
            b.pending() == Seq::<Seq<u8>>::empty(),
            b.filters() == Seq::<u8>::empty(),
            b.offsets() == Seq::<u32>::empty(),
    {
        let b = FilterBlockBuilder {
            policy_: policy,
            keys_: Vec::new(),
            result: Vec::new(),
            filter_offsets_: Vec::new(),
        };
        assert(b.pending() =~= Seq::<Seq<u8>>::empty());
        b
    }

    /// The filters with that of the pending keys behind them, where there
    /// are pending keys.
    pub open spec fn filters_with_pending(&self) -> Seq<u8> {
        if self.pending().len() == 0 {
            self.filters()
        } else {
            self.filters() + self.policy().filter_of(self.pending())
        }
    }

    /// Makes the filter of the pending keys; an empty one where there are
    /// none.
    fn generate_filter(&mut self)
        ensures
            final(self).policy() == old(self).policy(),
            final(self).pending() == Seq::<Seq<u8>>::empty(),
            final(self).offsets() == old(self).offsets().push(old(self).filters().len() as u32),
            final(self).filters() == old(self).filters_with_pending(),
    {
        self.filter_offsets_.push(#[verifier::truncate] (self.result.len() as u32));
        if self.keys_.len() > 0 {
            self.policy_.create_filter(self.keys_.as_slice(), &mut self.result);
            self.keys_.clear();
        }
        assert(self.pending() =~= Seq::<Seq<u8>>::empty());
    }

    /// Tells the builder that the keys added from now on belong to the
    /// data block at `block_offset`: the filters of all 2 KiB ranges
    /// before that offset are made, the first of the pending keys, the
    /// others empty.
    pub fn start_block(&mut self, block_offset: u64)
        requires
            block_offset / K_FILTER_BASE >= old(self).offsets().len(),
        ensures
            final(self).policy() == old(self).policy(),
            final(self).offsets().len() == block_offset / K_FILTER_BASE,
            block_offset / K_FILTER_BASE == old(self).offsets().len() ==> {
                &&& final(self).pending() == old(self).pending()
                &&& final(self).filters() == old(self).filters()
                &&& final(self).offsets() == old(self).offsets()
            },
            block_offset / K_FILTER_BASE > old(self).offsets().len() ==> {
                &&& final(self).pending() == Seq::<Seq<u8>>::empty()
                &&& final(self).filters() == old(self).filters_with_pending()
                &&& final(self).offsets() == old(self).offsets().push(
                    old(self).filters().len() as u32,
                ) + Seq::new(
                    (block_offset / K_FILTER_BASE - old(self).offsets().len() - 1) as nat,
                    |i: int| old(self).filters_with_pending().len() as u32,
                )
            },
    {
        let filter_index = block_offset / K_FILTER_BASE;
        let ghost first_offsets = self.offsets().push(self.filters().len() as u32);
        let ghost grown = self.filters_with_pending();
        while filter_index > self.filter_offsets_.len() as u64
            invariant
                filter_index == block_offset / K_FILTER_BASE,
                self.policy() == old(self).policy(),
                self.offsets().len() <= filter_index,
                self.offsets().len() >= old(self).offsets().len(),
                first_offsets == old(self).offsets().push(old(self).filters().len() as u32),
                grown == old(self).filters_with_pending(),
                self.offsets().len() == old(self).offsets().len() ==> *self == *old(self),
                self.offsets().len() > old(self).offsets().len() ==> {
                    &&& self.pending() == Seq::<Seq<u8>>::empty()
                    &&& self.filters() == grown
                    &&& self.offsets() == first_offsets + Seq::new(
                        (self.offsets().len() - old(self).offsets().len() - 1) as nat,
                        |i: int| grown.len() as u32,
                    )
                },
            decreases filter_index - self.offsets().len(),
        {
            let ghost before = self.offsets();
            self.generate_filter();
            proof {
                if before.len() == old(self).offsets().len() {
                    assert(self.offsets() =~= first_offsets + Seq::new(
                        0nat,
                        |i: int| grown.len() as u32,
                    ));
                } else {
                    assert(self.offsets() =~= first_offsets + Seq::new(
                        (self.offsets().len() - old(self).offsets().len() - 1) as nat,
                        |i: int| grown.len() as u32,
                    ));
                }
            }
        }
    }

    /// Adds a key of the data block that was started last.
    pub fn add_key(&mut self, key: &Slice)
        ensures
            final(self).policy() == old(self).policy(),
            final(self).pending() == old(self).pending().push(key@),
            final(self).filters() == old(self).filters(),
            final(self).offsets() == old(self).offsets(),
    {
        self.keys_.push(key.clone());
        assert(self.pending() =~= old(self).pending().push(key@));
    }

    /// Makes the filter of the pending keys, where there are any, and
    /// returns the filter block: the filters and the tail.
    pub fn finish(&mut self) -> (block: Slice)
        ensures
            final(self).policy() == old(self).policy(),
            block@ == final(self).filters(),
            final(self).filters() == old(self).filters_with_pending() + filter_block_tail(
                if old(self).pending().len() == 0 {
                    old(self).offsets()
                } else {
                    old(self).offsets().push(old(self).filters().len() as u32)
                },
                old(self).filters_with_pending().len() as u32,
            ),
    {
        if self.keys_.len() > 0 {
            self.generate_filter();
        }
        let array_offset = #[verifier::truncate] (self.result.len() as u32);
        let ghost filters = self.result@;
        let ghost offsets = self.filter_offsets_@;
        let mut i: usize = 0;
        while i < self.filter_offsets_.len()
            invariant
                i <= self.filter_offsets_@.len(),
                self.filter_offsets_@ == offsets,
                self.policy() == old(self).policy(),
                self.result@ == filters + restart_array_bytes(offsets.take(i as int)),
            decreases offsets.len() - i,
        {
            put_fixed32(&mut self.result, self.filter_offsets_[i]);
            proof {
                assert(offsets.take(i + 1).drop_last() =~= offsets.take(i as int));
                assert(self.result@ =~= filters + restart_array_bytes(offsets.take(i + 1)));
            }
            i = i + 1;
        }
        proof {
            assert(offsets.take(offsets.len() as int) =~= offsets);
        }
        put_fixed32(&mut self.result, array_offset);
        self.result.push(K_FILTER_BASE_LG);
        proof {
            assert(self.result@ =~= filters + filter_block_tail(offsets, array_offset));
        }
        Slice::new_from_array(self.result.as_slice())
    }
}

/// Where the array of offsets of a filter block starts and how many
/// filters it counts; both 0 where the block is shorter than five bytes or
/// its array would start behind its end.
pub open spec fn filter_block_layout(data: Seq<u8>) -> (nat, nat) {
    if data.len() < 5 {
        (0, 0)
    } else {
        let last_word = fixed32_value(data.skip(data.len() - 5)) as nat;
        if last_word > data.len() - 5 {
            (0, 0)
        } else {
            (last_word, ((data.len() - 5 - last_word) / 4) as nat)
        }
    }
}

/// The base of a filter block as a power of 2: its last byte.
pub open spec fn filter_block_base_lg(data: Seq<u8>) -> u8 {
    if data.len() < 5 || fixed32_value(data.skip(data.len() - 5)) > data.len() - 5 {
        0
    } else {
        data.last()
    }
}

/// Whether a filter block lets `key` pass for the data block at
/// `block_offset`: where the block holds a filter for that offset, what
/// the filter says; where the offsets of that filter make no sense or
/// there is none, every key passes, but an empty filter lets none pass.
pub open spec fn filter_block_matches<P: FilterPolicy>(
    policy: P,
    data: Seq<u8>,
    block_offset: u64,
    key: Seq<u8>,
) -> bool {
    let (array, num) = filter_block_layout(data);
    let base_lg = filter_block_base_lg(data);
    let index = if base_lg >= 64 {
        0
    } else {
        (block_offset >> base_lg) as nat
    };
    if index < num {
        let start = fixed32_value(data.skip((array + index * 4) as int)) as nat;
        let limit = fixed32_value(data.skip((array + index * 4 + 4) as int)) as nat;
        if start <= limit && limit <= array {
            policy.matches(key, data.subrange(start as int, limit as int))
        } else if start == limit {
            false
        } else {
            true
        }
    } else {
        true
    }
}

/// The filter block made of filters, one behind the other, and of the
/// places where each starts.
pub open spec fn filter_block_of(filters: Seq<u8>, offsets: Seq<u32>) -> Seq<u8> {
    filters + filter_block_tail(offsets, filters.len() as u32)
}

/// Where the `index`-th filter ends: where the next starts, or where the
/// filters end.
pub open spec fn filter_end(filters: Seq<u8>, offsets: Seq<u32>, index: int) -> nat {
    if index + 1 < offsets.len() {
        offsets[index + 1] as nat
    } else {
        filters.len()
    }
}

/// Filter block round trip: a filter block made of filters and of the
/// places where each starts lets a key pass for a data block exactly where
/// the filter of the 2 KiB range in which the block starts lets it pass.
pub proof fn lemma_filter_block<P: FilterPolicy>(
    policy: P,
    filters: Seq<u8>,
    offsets: Seq<u32>,
    block_offset: u64,
    key: Seq<u8>,
)
    requires
        filters.len() <= u32::MAX,
        block_offset / K_FILTER_BASE < offsets.len(),
        offsets[(block_offset / K_FILTER_BASE) as int] <= filter_end(
            filters,
            offsets,
            (block_offset / K_FILTER_BASE) as int,
        ) <= filters.len(),
    ensures
        filter_block_matches(policy, filter_block_of(filters, offsets), block_offset, key)
            == policy.matches(
            key,
            filters.subrange(
                offsets[(block_offset / K_FILTER_BASE) as int] as int,
                filter_end(filters, offsets, (block_offset / K_FILTER_BASE) as int) as int,
            ),
        ),
{
    let data = filter_block_of(filters, offsets);
    let array = restart_array_bytes(offsets);
    let count = offsets.len() as int;
    let at = filters.len() as int;
    let index = (block_offset / K_FILTER_BASE) as int;
    let end = filter_end(filters, offsets, index) as int;
    lemma_restart_array(offsets, index);
    lemma_restart_array(offsets, index + 1);
    lemma_fixed32_roundtrip(filters.len() as u32, seq![K_FILTER_BASE_LG]);
    assert(data.len() == at + 4 * count + 5);
    assert(data.skip(data.len() - 5) =~= fixed32_bytes(filters.len() as u32) + seq![
        K_FILTER_BASE_LG,
    ]);
    assert(data.last() == K_FILTER_BASE_LG);
    assert(block_offset >> 11u8 == block_offset / 2048) by (bit_vector);
    assert(filter_block_layout(data) == (at as nat, count as nat));
    lemma_fixed32_roundtrip(offsets[index], data.skip(at + 4 * index + 4));
    assert(data.skip(at + 4 * index) =~= array.subrange(4 * index, 4 * index + 4) + data.skip(
        at + 4 * index + 4,
    ));
    if index + 1 < count {
        lemma_fixed32_roundtrip(offsets[index + 1], data.skip(at + 4 * index + 8));
        assert(data.skip(at + 4 * index + 4) =~= array.subrange(4 * index + 4, 4 * index + 8)
            + data.skip(at + 4 * index + 8));
    } else {
        assert(data.skip(at + 4 * index + 4) =~= data.skip(data.len() - 5));
    }
    assert(data.subrange(offsets[index] as int, end) =~= filters.subrange(
        offsets[index] as int,
        end,
    ));
}

/// A filter block lets every key pass for a data block of which the
/// filter of the 2 KiB range in which the block starts was made.
pub proof fn lemma_filter_block_no_false_negative<P: FilterPolicy>(
    policy: P,
    filters: Seq<u8>,
    offsets: Seq<u32>,
    block_offset: u64,
    keys: Seq<Seq<u8>>,
    i: int,
)
    requires
        filters.len() <= u32::MAX,
        block_offset / K_FILTER_BASE < offsets.len(),
        offsets[(block_offset / K_FILTER_BASE) as int] <= filter_end(
            filters,
            offsets,
            (block_offset / K_FILTER_BASE) as int,
        ) <= filters.len(),
        filters.subrange(
            offsets[(block_offset / K_FILTER_BASE) as int] as int,
            filter_end(filters, offsets, (block_offset / K_FILTER_BASE) as int) as int,
        ) == policy.filter_of(keys),
        0 <= i < keys.len(),
    ensures
        filter_block_matches(policy, filter_block_of(filters, offsets), block_offset, keys[i]),
{
    lemma_filter_block(policy, filters, offsets, block_offset, keys[i]);
    policy.lemma_no_false_negative(keys, i);
}

/// Reads the filter block of a table.
pub struct FilterBlockReader<P: FilterPolicy> {
    policy_: P,
    data: Vec<u8>,
    /// Where the array of offsets starts.
    offset_: usize,
    /// Number of filters.
    num_: usize,
    base_lg_: u8,
}

impl<P: FilterPolicy> FilterBlockReader<P> {
    #[verifier::type_invariant]
    spec fn wf(&self) -> bool {
        &&& (self.offset_ as nat, self.num_ as nat) == filter_block_layout(self.data@)
        &&& self.base_lg_ == filter_block_base_lg(self.data@)
    }

    pub closed spec fn policy(&self) -> P {
        self.policy_
    }

    /// The bytes of the filter block.
    pub closed spec fn bytes(&self) -> Seq<u8> {
        self.data@
    }

    pub fn new(policy: P, contents: Slice) -> (r: Self)
        ensures
            r.policy() == policy,
            r.bytes() == contents@,
    {
        let data = vstd::slice::slice_to_vec(contents.data());
        let n = data.len();
        if n < 5 {
            return FilterBlockReader { policy_: policy, data, offset_: 0, num_: 0, base_lg_: 0 };
        }
        let base_lg = data[n - 1];
        proof {
            assert(data@.subrange(n - 5, n - 1).take(4) =~= data@.skip(n - 5).take(4));
            let a = data@.subrange(n - 5, n - 1);
            let b = data@.skip(n - 5);
            assert(a[0] == b[0] && a[1] == b[1] && a[2] == b[2] && a[3] == b[3]);
        }
        let last_word = decode_fixed32(slice_subrange(data.as_slice(), n - 5, n - 1)) as usize;
        if last_word > n - 5 {
            return FilterBlockReader { policy_: policy, data, offset_: 0, num_: 0, base_lg_: 0 };
        }
        let num = (n - 5 - last_word) / 4;
        FilterBlockReader { policy_: policy, data, offset_: last_word, num_: num, base_lg_: base_lg }
    }

    /// The bytes of the filter block.
    pub fn data(&self) -> (d: &[u8])
        ensures
            d@ == self.bytes(),
    {
        self.data.as_slice()
    }

    /// The array of offsets and what follows it.
    pub fn offset(&self) -> (d: &[u8])
        ensures
            d@ == self.bytes().skip(filter_block_layout(self.bytes()).0 as int),
    {
        proof {
            use_type_invariant(self);
            assert(self.data@.subrange(self.offset_ as int, self.data@.len() as int)
                =~= self.data@.skip(self.offset_ as int));
        }
        slice_subrange(self.data.as_slice(), self.offset_, self.data.len())
    }

    fn word_at(&self, at: usize) -> (w: usize)
        requires
            at + 4 <= self.bytes().len(),
        ensures
            w == fixed32_value(self.bytes().skip(at as int)),
    {
        let n = self.data.len();
        proof {
            let a = self.data@.subrange(at as int, at + 4);
            let b = self.data@.skip(at as int);
            assert(a[0] == b[0] && a[1] == b[1] && a[2] == b[2] && a[3] == b[3]);
        }
        decode_fixed32(slice_subrange(self.data.as_slice(), at, at + 4)) as usize
    }

    /// Whether `key` may be in the data block at `block_offset`.
    pub fn key_may_match(&self, key: &[u8], block_offset: u64) -> (may: bool)
        ensures
            may == filter_block_matches(self.policy(), self.bytes(), block_offset, key@),
    {
        proof {
            use_type_invariant(self);
        }
        let n = self.data.len();
        let index: u64 = if self.base_lg_ >= 64 {
            0
        } else {
            block_offset >> self.base_lg_
        };
        if index < self.num_ as u64 {
            let at = self.offset_ + (index as usize) * 4;
            let start = self.word_at(at);
            let limit = self.word_at(at + 4);
            if start <= limit && limit <= self.offset_ {
                let filter = slice_subrange(self.data.as_slice(), start, limit);
                return self.policy_.key_may_match(key, filter);
            } else if start == limit {
                return false;
            }
        }
        true
    }
}

} // verus!
