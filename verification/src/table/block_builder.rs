//! Builds a block: entries whose keys share the front part of the key
//! before them, and restart points at which keys are written in full.

use crate::obj::slice::Slice;
use crate::util::bytewise_comparator_impl::{
    first_difference, lemma_first_difference, shared_prefix_len,
};
use crate::util::coding::{
    append_bytes, fixed32_bytes, put_fixed32, put_varint32, varint_bytes,
};
use crate::table::block_laws::{encode_entries, sizes_fit};
use crate::table::built_block::{
    built_block, counter_after, keys_rise, last_key_of, lemma_counter_bound, lemma_encode_push,
    lemma_encoded_len, lemma_restart_count, restart_offsets,
};
use crate::util::comparator::Comparator;
use vstd::prelude::*;
use vstd::slice::slice_subrange;

verus! {

/// An entry as it stands in a block: the count of bytes its key shares with
/// the key before it, the count of key bytes that follow, the length of the
/// value, those key bytes, the value.
#[verifier::opaque]
pub open spec fn entry_bytes(shared: nat, key: Seq<u8>, value: Seq<u8>) -> Seq<u8>
    recommends
        shared <= key.len(),
{
    varint_bytes(shared) + varint_bytes((key.len() - shared) as nat) + varint_bytes(value.len())
        + key.skip(shared as int) + value
}

/// The restart array: each restart point in four bytes, then their count.
pub open spec fn restart_array_bytes(restarts: Seq<u32>) -> Seq<u8>
    decreases restarts.len(),
{
    if restarts.len() == 0 {
        Seq::empty()
    } else {
        restart_array_bytes(restarts.drop_last()) + fixed32_bytes(restarts.last())
    }
}

/// The bytes of a finished block.
pub open spec fn finished_block(entries: Seq<u8>, restarts: Seq<u32>) -> Seq<u8> {
    entries + restart_array_bytes(restarts) + fixed32_bytes(restarts.len() as u32)
}

/// Collects the entries of one block.
pub struct BlockBuilder<C: Comparator> {
    comparator_: C,
    block_restart_interval: u32,
    buffer_: Vec<u8>,
    restarts_: Vec<u32>,
    /// Number of entries since the last restart point.
    counter_: u32,
    finished: bool,
    last_key: Vec<u8>,
    /// The keys and values added so far.
    entries_: Ghost<Seq<(Seq<u8>, Seq<u8>)>>,
}

impl<C: Comparator> BlockBuilder<C> {
    /// What the builder relies on between calls.
    pub closed spec fn inv(&self) -> bool {
        let interval = self.block_restart_interval as nat;
        let entries = self.entries_@;
        &&& self.block_restart_interval >= 1
        &&& !self.finished ==> {
            &&& self.buffer_@ == encode_entries(entries, Seq::empty(), 0, interval)
            &&& self.restarts_@ == restart_offsets(entries, interval)
            &&& self.restarts_@.len() <= u32::MAX
            &&& self.counter_ == counter_after(entries.len(), 0, interval)
            &&& self.last_key@ == last_key_of(entries, Seq::empty())
            &&& keys_rise(self.comparator_, entries)
            &&& sizes_fit(entries)
        }
    }

    /// The keys and values added so far.
    pub closed spec fn entries(&self) -> Seq<(Seq<u8>, Seq<u8>)> {
        self.entries_@
    }

    /// What the builder holds in terms of the entries added: their
    /// encoding, their restart points, and keys that rise.
    pub proof fn lemma_inv(&self)
        requires
            self.inv(),
            !self.is_finished(),
        ensures
            self.interval() >= 1,
            self.buffer() == encode_entries(
                self.entries(),
                Seq::empty(),
                0,
                self.interval() as nat,
            ),
            self.restarts() == restart_offsets(self.entries(), self.interval() as nat),
            self.counter() == counter_after(self.entries().len(), 0, self.interval() as nat),
            self.spec_last_key() == last_key_of(self.entries(), Seq::empty()),
            keys_rise(self.order(), self.entries()),
            sizes_fit(self.entries()),
            self.buffer().len() >= 3 * self.entries().len(),
    {
        lemma_encoded_len(self.entries_@, Seq::empty(), 0, self.block_restart_interval as nat);
    }

    pub closed spec fn order(&self) -> C {
        self.comparator_
    }

    /// Number of entries between two restart points.
    pub closed spec fn interval(&self) -> u32 {
        self.block_restart_interval
    }

    /// The entries added so far, encoded; behind `finish`, the whole block.
    pub closed spec fn buffer(&self) -> Seq<u8> {
        self.buffer_@
    }

    /// The offsets at which keys were written in full.
    pub closed spec fn restarts(&self) -> Seq<u32> {
        self.restarts_@
    }

    /// Number of entries since the last restart point.
    pub closed spec fn counter(&self) -> u32 {
        self.counter_
    }

    pub closed spec fn is_finished(&self) -> bool {
        self.finished
    }

    /// The key added last.
    pub closed spec fn spec_last_key(&self) -> Seq<u8> {
        self.last_key@
    }

    /// A builder of blocks whose keys stand in the order of `comparator`
    /// and are written in full every `block_restart_interval` entries.
    pub fn new(block_restart_interval: u32, comparator: C) -> (b: Self)
        requires
            block_restart_interval >= 1,
        ensures
            b.inv(),
            b.order() == comparator,
            b.interval() == block_restart_interval,
            b.buffer() == Seq::<u8>::empty(),
            b.restarts() == seq![0u32],
            b.counter() == 0,
            !b.is_finished(),
            b.spec_last_key() == Seq::<u8>::empty(),
            b.entries() == Seq::<(Seq<u8>, Seq<u8>)>::empty(),
    {
        let mut restarts: Vec<u32> = Vec::new();
        restarts.push(0);
        proof {
            crate::table::block_laws::lemma_encode_unfold(
                Seq::empty(),
                Seq::empty(),
                0,
                block_restart_interval as nat,
            );
        }
        BlockBuilder {
            comparator_: comparator,
            block_restart_interval,
            buffer_: Vec::new(),
            restarts_: restarts,
            counter_: 0,
            finished: false,
            last_key: Vec::new(),
            entries_: Ghost(Seq::empty()),
        }
    }

    /// Forgets everything added.
    pub fn reset(&mut self)
        requires
            old(self).inv(),
        ensures
            final(self).entries() == Seq::<(Seq<u8>, Seq<u8>)>::empty(),
            final(self).inv(),
            final(self).order() == old(self).order(),
            final(self).interval() == old(self).interval(),
            final(self).buffer() == Seq::<u8>::empty(),
            final(self).restarts() == seq![0u32],
            final(self).counter() == 0,
            !final(self).is_finished(),
            final(self).spec_last_key() == Seq::<u8>::empty(),
    {
        self.buffer_.clear();
        self.restarts_.clear();
        self.restarts_.push(0);
        self.counter_ = 0;
        self.finished = false;
        self.last_key.clear();
        self.entries_ = Ghost(Seq::empty());
        proof {
            crate::table::block_laws::lemma_encode_unfold(
                Seq::empty(),
                Seq::empty(),
                0,
                self.block_restart_interval as nat,
            );
        }
    }

    /// How many bytes of its key the next entry shares with the last key:
    /// none at a restart point, else the front part that the two keys have
    /// in common.
    pub open spec fn next_shared(&self, key: Seq<u8>) -> nat {
        if self.counter() < self.interval() {
            first_difference(self.spec_last_key(), key)
        } else {
            0
        }
    }

    /// Adds an entry.  Its key must come behind the key added last.
    pub fn add(&mut self, key: &Slice, value: &Slice)
        requires
            old(self).inv(),
            !old(self).is_finished(),
            old(self).order().accepts(key@),
            old(self).buffer().len() == 0 || old(self).order().less(
                old(self).spec_last_key(),
                key@,
            ),
            key@.len() <= u32::MAX,
            value@.len() <= u32::MAX,
            old(self).buffer().len() <= u32::MAX,
        ensures
            final(self).inv(),
            final(self).order() == old(self).order(),
            final(self).interval() == old(self).interval(),
            !final(self).is_finished(),
            final(self).entries() == old(self).entries().push((key@, value@)),
            final(self).spec_last_key() == key@,
            final(self).buffer() == old(self).buffer() + entry_bytes(
                old(self).next_shared(key@),
                key@,
                value@,
            ),
            final(self).restarts() == if old(self).counter() < old(self).interval() {
                old(self).restarts()
            } else {
                old(self).restarts().push(old(self).buffer().len() as u32)
            },
            final(self).counter() == if old(self).counter() < old(self).interval() {
                old(self).counter() + 1
            } else {
                1
            },
    {
        let key_data = key.data();
        let mut shared: usize = 0;
        proof {
            self.lemma_added(key@, value@);
        }
        if self.counter_ < self.block_restart_interval {
            shared = shared_prefix_len(self.last_key.as_slice(), key_data);
        } else {
            self.restarts_.push(self.buffer_.len() as u32);
            self.counter_ = 0;
        }
        let non_shared = key_data.len() - shared;
        let ghost before = self.buffer_@;
        put_varint32(&mut self.buffer_, shared as u32);
        put_varint32(&mut self.buffer_, non_shared as u32);
        put_varint32(&mut self.buffer_, value.size() as u32);
        append_bytes(&mut self.buffer_, slice_subrange(key_data, shared, key_data.len()));
        append_bytes(&mut self.buffer_, value.data());
        proof {
            reveal(entry_bytes);
            assert(key@.subrange(shared as int, key@.len() as int) =~= key@.skip(shared as int));
            assert(self.buffer_@ =~= before + entry_bytes(shared as nat, key@, value@));
            crate::util::coding::lemma_varint_bytes_len(shared as nat);
        }
        let ghost old_last = self.last_key@;
        self.last_key.truncate(shared);
        append_bytes(&mut self.last_key, slice_subrange(key_data, shared, key_data.len()));
        proof {
            lemma_first_difference(old_last, key@);
            if shared > 0 {
                assert(old_last.take(shared as int) =~= key@.take(shared as int));
            } else {
                assert(old_last.take(0) =~= key@.take(0));
            }
            assert(self.last_key@ =~= key@.take(shared as int) + key@.skip(shared as int));
            assert(self.last_key@ =~= key@);
        }
        self.counter_ = self.counter_ + 1;
        self.entries_ = Ghost(self.entries_@.push((key@, value@)));
    }

    /// What one more entry does to the encoding, the restart points, the
    /// counter and the order of the keys.
    proof fn lemma_added(&self, key: Seq<u8>, value: Seq<u8>)
        requires
            self.inv(),
            !self.finished,
            self.comparator_.accepts(key),
            self.buffer_@.len() == 0 || self.comparator_.less(self.last_key@, key),
            key.len() <= u32::MAX,
            value.len() <= u32::MAX,
            self.buffer_@.len() <= u32::MAX,
        ensures
            ({
                let interval = self.block_restart_interval as nat;
                let more = self.entries_@.push((key, value));
                &&& encode_entries(more, Seq::empty(), 0, interval) == self.buffer_@ + entry_bytes(
                    self.next_shared(key),
                    key,
                    value,
                )
                &&& restart_offsets(more, interval) == if self.counter_
                    < self.block_restart_interval {
                    self.restarts_@
                } else {
                    self.restarts_@.push(self.buffer_@.len() as u32)
                }
                &&& restart_offsets(more, interval).len() <= u32::MAX
                &&& counter_after(more.len(), 0, interval) == if self.counter_
                    < self.block_restart_interval {
                    self.counter_ + 1
                } else {
                    1
                }
                &&& self.counter_ <= self.block_restart_interval
                &&& last_key_of(more, Seq::empty()) == key
                &&& keys_rise(self.comparator_, more)
                &&& sizes_fit(more)
            }),
    {
        let interval = self.block_restart_interval as nat;
        let entries = self.entries_@;
        let more = entries.push((key, value));
        lemma_encode_push(entries, (key, value), Seq::empty(), 0, interval);
        lemma_encoded_len(entries, Seq::empty(), 0, interval);
        lemma_restart_count(more, interval);
        lemma_counter_bound(entries.len(), 0, interval);
        assert(more.drop_last() =~= entries);
        assert forall|i: int, j: int| 0 <= i < j < more.len() implies self.comparator_.less(
            #[trigger] more[i].0,
            #[trigger] more[j].0,
        ) by {
            if j == entries.len() && i + 1 < entries.len() {
                self.comparator_.lemma_transitive(entries[i].0, entries.last().0, key);
            }
        }
    }

    /// An estimate of the size of the block being built.
    pub fn current_size_estimate(&self) -> (n: usize)
        requires
            self.buffer().len() + 4 * self.restarts().len() + 4 <= usize::MAX,
        ensures
            n == self.buffer().len() + 4 * self.restarts().len() + 4,
    {
        self.buffer_.len() + self.restarts_.len() * 4 + 4
    }

    /// Appends the restart array and returns the block.
    pub fn finish(&mut self) -> (block: Slice)
        requires
            old(self).inv(),
            !old(self).is_finished(),
        ensures
            final(self).inv(),
            final(self).is_finished(),
            final(self).entries() == old(self).entries(),
            block@ == built_block(old(self).entries(), old(self).interval() as nat),
            final(self).order() == old(self).order(),
            final(self).interval() == old(self).interval(),
            final(self).restarts() == old(self).restarts(),
            final(self).buffer() == finished_block(old(self).buffer(), old(self).restarts()),
            block@ == final(self).buffer(),
    {
        let ghost entries = self.buffer_@;
        let mut i: usize = 0;
        while i < self.restarts_.len()
            invariant
                i <= self.restarts_@.len(),
                self.restarts_@ == old(self).restarts_@,
                self.comparator_ == old(self).comparator_,
                self.block_restart_interval == old(self).block_restart_interval,
                self.entries_ == old(self).entries_,
                self.buffer_@ == entries + restart_array_bytes(self.restarts_@.take(i as int)),
            decreases self.restarts_@.len() - i,
        {
            let ghost before = self.buffer_@;
            put_fixed32(&mut self.buffer_, self.restarts_[i]);
            proof {
                let r = self.restarts_@;
                assert(r.take(i + 1).drop_last() =~= r.take(i as int));
                assert(self.buffer_@ =~= entries + restart_array_bytes(r.take(i + 1)));
            }
            i = i + 1;
        }
        proof {
            assert(self.restarts_@.take(self.restarts_@.len() as int) =~= self.restarts_@);
        }
        put_fixed32(&mut self.buffer_, self.restarts_.len() as u32);
        self.finished = true;
        Slice::new_from_array(self.buffer_.as_slice())
    }

    /// Whether no entry was added.
    pub fn empty(&self) -> (b: bool)
        ensures
            b == (self.buffer().len() == 0),
    {
        self.buffer_.len() == 0
    }
}

} // verus!
