//! A block of key/value entries with shared key prefixes, and the iterator
//! that walks it.

use crate::obj::slice::Slice;
use crate::obj::status_rs::{Status, StatusCode};
use crate::table::format::BlockContents;
use crate::table::block_laws::{
    block_items, block_ordered, count_before, first_not_before, item_at, lemma_count_before,
    lemma_keys_before_pairs, lemma_offsets_increase, lemma_restart_item, lemma_scan_chain,
    lemma_scan_end, pairs_of, Item,
};
use crate::table::iterator::{keys_before, Iter};
use crate::util::coding::{
    append_bytes, decode_fixed32, fixed32_value, get_varint32ptr, lemma_varint_parse_used,
    varint32_parse,
};
use crate::util::comparator::{key_less, Comparator};
use std::sync::Arc;
use vstd::prelude::*;
use vstd::slice::slice_subrange;

verus! {

/// The header of an entry: how many bytes of its key it shares with the key
/// before it, how many bytes of key it holds itself, how long its value is,
/// and how many bytes the three numbers take.
pub struct EntryHeader {
    pub shared: u32,
    pub non_shared: u32,
    pub value_length: u32,
    pub header_len: nat,
}

/// The header of the entry at the front of `s`; `None` where `s` holds
/// fewer than three bytes, where one of the three numbers does not decode,
/// or where fewer bytes follow them than key and value need.
pub open spec fn entry_header(s: Seq<u8>) -> Option<EntryHeader> {
    if s.len() < 3 {
        None
    } else {
        match varint32_parse(s) {
            None => None,
            Some((shared, n1)) => match varint32_parse(s.skip(n1 as int)) {
                None => None,
                Some((non_shared, n2)) => match varint32_parse(s.skip((n1 + n2) as int)) {
                    None => None,
                    Some((value_length, n3)) => if s.len() - (n1 + n2 + n3) < non_shared
                        + value_length {
                        None
                    } else {
                        Some(
                            EntryHeader {
                                shared,
                                non_shared,
                                value_length,
                                header_len: n1 + n2 + n3,
                            },
                        )
                    },
                },
            },
        }
    }
}

/// A header takes at least three bytes, and header, key bytes and value
/// lie within the input.
pub proof fn lemma_entry_header_fits(s: Seq<u8>)
    ensures
        match entry_header(s) {
            Some(h) => 3 <= h.header_len <= 15 && h.header_len + h.non_shared + h.value_length
                <= s.len(),
            None => true,
        },
{
    lemma_varint_parse_used(s, 5);
    match varint32_parse(s) {
        Some((shared, n1)) => {
            lemma_varint_parse_used(s.skip(n1 as int), 5);
            match varint32_parse(s.skip(n1 as int)) {
                Some((non_shared, n2)) => {
                    lemma_varint_parse_used(s.skip((n1 + n2) as int), 5);
                },
                None => {},
            }
        },
        None => {},
    }
}

/// Decodes the header of the entry at the front of `input` into `shared`,
/// `non_shared` and `value_length`, and returns what follows the header:
/// the key bytes of the entry, its value, and the entries behind it.
/// `None` where no entry is there; the three numbers may then have been
/// overwritten.
pub fn decode_entry<'a>(
    input: &'a [u8],
    shared: &mut u32,
    non_shared: &mut u32,
    value_length: &mut u32,
) -> (rest: Option<&'a [u8]>)
    ensures
        match entry_header(input@) {
            Some(h) => rest is Some && rest.unwrap()@ == input@.skip(h.header_len as int)
                && *final(shared) == h.shared && *final(non_shared) == h.non_shared
                && *final(value_length) == h.value_length,
            None => rest is None,
        },
{
    if input.len() < 3 {
        return None;
    }
    *shared = input[0] as u32;
    *non_shared = input[1] as u32;
    *value_length = input[2] as u32;
    let rest: &[u8];
    if input[0] < 128 && input[1] < 128 && input[2] < 128 {
        proof {
            assert(input@.skip(1)[0] == input@[1]);
            assert(input@.skip(2)[0] == input@[2]);
        }
        rest = slice_subrange(input, 3, input.len());
    } else {
        let r1 = match get_varint32ptr(input, shared) {
            Some(r) => r,
            None => { return None; },
        };
        let ghost n1 = varint32_parse(input@).unwrap().1;
        proof {
            lemma_varint_parse_used(input@, 5);
        }
        let r2 = match get_varint32ptr(r1, non_shared) {
            Some(r) => r,
            None => { return None; },
        };
        let ghost n2 = varint32_parse(input@.skip(n1 as int)).unwrap().1;
        proof {
            lemma_varint_parse_used(input@.skip(n1 as int), 5);
            assert(input@.skip(n1 as int).skip(n2 as int) =~= input@.skip((n1 + n2) as int));
        }
        let r3 = match get_varint32ptr(r2, value_length) {
            Some(r) => r,
            None => { return None; },
        };
        proof {
            let n3 = varint32_parse(input@.skip((n1 + n2) as int)).unwrap().1;
            lemma_varint_parse_used(input@.skip((n1 + n2) as int), 5);
            assert(input@.skip((n1 + n2) as int).skip(n3 as int) =~= input@.skip(
                (n1 + n2 + n3) as int,
            ));
        }
        rest = r3;
    }
    if (rest.len() as u64) < (*non_shared as u64) + (*value_length as u64) {
        return None;
    }
    Some(rest)
}

/// Calls `Arc::clone`, which makes another handle to the same value.
#[verifier::external_body]
fn share(data: &Arc<Vec<u8>>) -> (shared: Arc<Vec<u8>>)
    ensures
        shared == *data,
{
    Arc::clone(data)
}

/// The restart array of a block: `None` where the block is shorter than
/// four bytes or its last four bytes count more restart points than the
/// block has room for; else the offset of the array, where the entries end,
/// and the count of restart points.
pub open spec fn block_restarts(data: Seq<u8>) -> Option<(nat, nat)> {
    if data.len() < 4 {
        None
    } else {
        let num_restarts = fixed32_value(data.skip(data.len() - 4)) as nat;
        if num_restarts > (data.len() - 4) / 4 {
            None
        } else {
            Some(((data.len() - (1 + num_restarts) * 4) as nat, num_restarts))
        }
    }
}

/// The `index`-th restart point of a block whose restart array starts at
/// `restarts`.
pub open spec fn restart_point(data: Seq<u8>, restarts: nat, index: nat) -> nat {
    fixed32_value(data.skip((restarts + 4 * index) as int)) as nat
}

/// An immutable block of a table.
#[derive(Debug)]
pub struct Block {
    data: Arc<Vec<u8>>,
    restart_offset_: usize,
    size_: usize,
}

impl Clone for Block {
    fn clone(&self) -> (copy: Self)
        ensures
            copy == *self,
    {
        proof {
            use_type_invariant(self);
        }
        Block { data: share(&self.data), restart_offset_: self.restart_offset_, size_: self.size_ }
    }
}

impl Block {
    #[verifier::type_invariant]
    spec fn wf(&self) -> bool {
        if self.size_ == 0 {
            self.restart_offset_ == 0 && block_restarts(self.data@) is None
        } else {
            &&& self.size_ == self.data@.len()
            &&& block_restarts(self.data@) is Some
            &&& self.restart_offset_ == block_restarts(self.data@).unwrap().0
        }
    }

    /// The bytes of the block.
    pub closed spec fn bytes(&self) -> Seq<u8> {
        self.data@
    }

    /// Whether the block ends in a restart array that fits.
    pub open spec fn usable(&self) -> bool {
        block_restarts(self.bytes()) is Some
    }

    /// A block of the bytes read for it.  A block without a restart array
    /// that fits is kept as unusable.
    pub fn new(contents: BlockContents) -> (block: Block)
        ensures
            block.bytes() == contents.data@,
            block.usable() == (block_restarts(contents.data@) is Some),
    {
        let data = vstd::slice::slice_to_vec(contents.data.data());
        let size = data.len();
        let mut restart_offset: usize = 0;
        let mut usable_size: usize = 0;
        if size >= 4 {
            let num_restarts = decode_fixed32(slice_subrange(data.as_slice(), size - 4, size));
            proof {
                assert(data@.subrange(size - 4, size as int) =~= data@.skip(size - 4));
            }
            let max_restarts_allowed = (size - 4) / 4;
            if num_restarts as usize <= max_restarts_allowed {
                restart_offset = size - (1 + num_restarts as usize) * 4;
                usable_size = size;
            }
        }
        Block { data: Arc::new(data), restart_offset_: restart_offset, size_: usable_size }
    }

    /// Length of the block in bytes; 0 for an unusable one.
    pub fn size(&self) -> (n: usize)
        ensures
            n == if self.usable() {
                self.bytes().len()
            } else {
                0
            },
    {
        proof {
            use_type_invariant(self);
        }
        self.size_
    }

    /// Number of restart points.
    pub fn num_restarts(&self) -> (n: u32)
        requires
            self.usable(),
        ensures
            Some((n as nat)) == match block_restarts(self.bytes()) {
                Some((offset, count)) => Some(count),
                None => None,
            },
    {
        proof {
            use_type_invariant(self);
        }
        let size = self.size_;
        proof {
            assert(self.data@.subrange(size - 4, size as int) =~= self.data@.skip(size - 4));
        }
        decode_fixed32(slice_subrange(self.data.as_slice(), size - 4, size))
    }

    /// An iterator over the entries of the block in the order of
    /// `comparator`.  Over a block that is unusable the iterator is never
    /// valid and its status is `Corruption`; over a block without restart
    /// points it is never valid.
    pub fn new_iterator<C: Comparator>(&self, comparator: C) -> (it: BlockIterator<C>)
        ensures
            it.inv(),
            !it.spec_valid(),
            it.order() == comparator,
            it.data() == self.bytes(),
            self.usable() ==> it.spec_status_code() == StatusCode::Kok,
            !self.usable() ==> it.spec_status_code() == StatusCode::KCorruption
                && it.spec_status_message() == Some("bad block contents"@),
            self.usable() ==> it.restart_count() == block_restarts(self.bytes()).unwrap().1,
            it.restart_count() > 0 ==> it.limit() == block_restarts(self.bytes()).unwrap().0,
            it.restart_count() == 0 ==> it.limit() == 0,
            it.opened_on(self.bytes()),
    {
        proof {
            use_type_invariant(self);
        }
        if self.size_ < 4 {
            return BlockIterator::new_failed(
                comparator,
                share(&self.data),
                Status::corruption("bad block contents", None),
            );
        }
        let num_restarts = self.num_restarts();
        BlockIterator::new(comparator, share(&self.data), self.restart_offset_, num_restarts as usize)
    }
}

/// An entry of a block as the iterator finds it at offset `p`, behind an
/// entry of key `prev_key`: its key, and where its value starts and how
/// long it is.  `None` where no header decodes there or the entry shares
/// more bytes than `prev_key` has.
pub open spec fn entry_at(data: Seq<u8>, limit: nat, p: nat, prev_key: Seq<u8>) -> Option<
    (Seq<u8>, nat, nat),
> {
    if p >= limit || limit > data.len() {
        None
    } else {
        match entry_header(data.subrange(p as int, limit as int)) {
            None => None,
            Some(h) => if h.shared > prev_key.len() {
                None
            } else {
                Some(
                    (
                        prev_key.take(h.shared as int) + data.subrange(
                            (p + h.header_len) as int,
                            (p + h.header_len + h.non_shared) as int,
                        ),
                        (p + h.header_len + h.non_shared) as nat,
                        h.value_length as nat,
                    ),
                )
            },
        }
    }
}

/// Walks the entries of a block.
pub struct BlockIterator<C: Comparator> {
    comparator_: C,
    data_: Arc<Vec<u8>>,
    /// Offset of the restart array: where the entries end.
    restarts_: usize,
    num_restarts_: usize,
    /// Offset of the current entry; `restarts_` where there is none.
    current_: usize,
    /// Index of the restart point at or before the current entry.
    restart_index_: usize,
    key_: Vec<u8>,
    value_offset_: usize,
    value_len_: usize,
    status: Status,
}

impl<C: Comparator> BlockIterator<C> {
    /// The restart array lies within the block, and the place of the
    /// current entry and of its value within the entries.
    pub closed spec fn inv(&self) -> bool {
        &&& self.num_restarts_ > 0 ==> self.restarts_ + 4 * self.num_restarts_ + 4
            <= self.data_@.len()
        &&& self.num_restarts_ == 0 ==> self.restarts_ == 0
        &&& self.current_ <= self.restarts_
        &&& self.status.spec_code() != StatusCode::Kok ==> self.current_ == self.restarts_
        &&& self.value_offset_ + self.value_len_ <= usize::MAX
        &&& self.current_ < self.restarts_ ==> {
            &&& self.restart_index_ < self.num_restarts_
            &&& self.current_ < self.value_offset_
            &&& self.value_offset_ + self.value_len_ <= self.restarts_
        }
    }

    /// The order of the keys.
    pub closed spec fn order(&self) -> C {
        self.comparator_
    }

    /// The bytes of the block.
    pub closed spec fn data(&self) -> Seq<u8> {
        self.data_@
    }

    /// Where the entries end.
    pub closed spec fn limit(&self) -> nat {
        self.restarts_ as nat
    }

    /// Number of restart points.
    pub closed spec fn restart_count(&self) -> nat {
        self.num_restarts_ as nat
    }

    /// Whether the iterator stands at an entry.
    pub closed spec fn spec_valid(&self) -> bool {
        self.current_ < self.restarts_
    }

    /// Offset of the entry at which the iterator stands.
    pub closed spec fn spec_offset(&self) -> nat {
        self.current_ as nat
    }

    /// The key of the entry at which the iterator stands, or the key that
    /// the next entry shares a front part with.
    pub closed spec fn spec_key(&self) -> Seq<u8> {
        self.key_@
    }

    /// The value of the entry at which the iterator stands.
    pub closed spec fn spec_value(&self) -> Seq<u8> {
        self.data_@.subrange(
            self.value_offset_ as int,
            (self.value_offset_ + self.value_len_) as int,
        )
    }

    /// Offset of the entry behind the one at which the iterator stands.
    pub closed spec fn spec_next_offset(&self) -> nat {
        (self.value_offset_ + self.value_len_) as nat
    }

    /// Index of the restart point at or before the current entry.
    pub closed spec fn spec_restart_index(&self) -> nat {
        self.restart_index_ as nat
    }

    pub closed spec fn spec_status_code(&self) -> StatusCode {
        self.status.spec_code()
    }

    /// The message of the status.
    pub closed spec fn spec_status_message(&self) -> Option<Seq<char>> {
        self.status.spec_message()
    }

    /// Whether the status is what it was in `before`, or tells of a
    /// damaged block.
    pub open spec fn status_kept_or_damaged(&self, before: &Self) -> bool {
        ||| self.spec_status_code() == before.spec_status_code() && self.spec_status_message()
            == before.spec_status_message()
        ||| self.spec_status_code() == StatusCode::KCorruption && self.spec_status_message()
            == Some("block has corrupted restart points"@)
    }

    /// An iterator over the entries of `data`, which end at `restarts`
    /// where the array of `num_restarts` restart points starts.
    pub fn new(comparator: C, data: Arc<Vec<u8>>, restarts: usize, num_restarts: usize) -> (it:
        Self)
        requires
            restarts + 4 * num_restarts + 4 <= data@.len(),
        ensures
            it.inv(),
            !it.spec_valid(),
            it.order() == comparator,
            it.data() == data@,
            it.limit() == if num_restarts == 0 {
                0
            } else {
                restarts as nat
            },
            it.restart_count() == num_restarts,
            it.spec_status_code() == StatusCode::Kok,
    {
        let limit = if num_restarts == 0 {
            0
        } else {
            restarts
        };
        BlockIterator {
            comparator_: comparator,
            data_: data,
            restarts_: limit,
            num_restarts_: num_restarts,
            current_: limit,
            restart_index_: num_restarts,
            key_: Vec::new(),
            value_offset_: limit,
            value_len_: 0,
            status: Status::ok(),
        }
    }

    /// An iterator that is never valid and whose status is `status`.
    pub fn new_failed(comparator: C, data: Arc<Vec<u8>>, status: Status) -> (it: Self)
        ensures
            it.inv(),
            !it.spec_valid(),
            it.order() == comparator,
            it.data() == data@,
            it.limit() == 0,
            it.restart_count() == 0,
            it.spec_status_code() == status.spec_code(),
            it.spec_status_message() == status.spec_message(),
    {
        BlockIterator {
            comparator_: comparator,
            data_: data,
            restarts_: 0,
            num_restarts_: 0,
            current_: 0,
            restart_index_: 0,
            key_: Vec::new(),
            value_offset_: 0,
            value_len_: 0,
            status,
        }
    }

    /// The restart array lies within the block.
    pub closed spec fn layout(&self) -> bool {
        &&& self.num_restarts_ > 0 ==> self.restarts_ + 4 * self.num_restarts_ + 4
            <= self.data_@.len()
        &&& self.num_restarts_ == 0 ==> self.restarts_ == 0
        &&& self.value_offset_ + self.value_len_ <= usize::MAX
    }

    /// The block and the order of two iterators are the same.
    pub closed spec fn same_block(&self, other: &Self) -> bool {
        &&& self.comparator_ == other.comparator_
        &&& self.data_ == other.data_
        &&& self.restarts_ == other.restarts_
        &&& self.num_restarts_ == other.num_restarts_
    }

    /// The entries end within what a machine word counts, and a valid
    /// iterator stands before their end and has the status `OK`.
    pub proof fn lemma_measures(&self)
        requires
            self.inv(),
        ensures
            self.limit() <= usize::MAX,
            self.spec_offset() <= self.limit(),
            self.spec_valid() ==> self.spec_offset() < self.limit(),
            self.spec_valid() ==> self.spec_status_code() == StatusCode::Kok,
    {
    }

    pub proof fn lemma_same_block(&self, other: &Self)
        requires
            self.same_block(other),
        ensures
            self.order() == other.order(),
            self.data() == other.data(),
            self.limit() == other.limit(),
            self.restart_count() == other.restart_count(),
    {
    }

    fn get_restart_point(&self, index: usize) -> (offset: usize)
        requires
            self.layout(),
            index < self.num_restarts_,
        ensures
            offset == restart_point(self.data(), self.limit(), index as nat),
            offset <= u32::MAX,
    {
        let total = self.data_.as_slice().len();
        let at = self.restarts_ + 4 * index;
        proof {
            assert(self.data_@.subrange(at as int, at + 4).take(4) =~= self.data_@.skip(
                at as int,
            ).take(4));
            let a = self.data_@.subrange(at as int, at + 4);
            let b = self.data_@.skip(at as int);
            assert(a[0] == b[0] && a[1] == b[1] && a[2] == b[2] && a[3] == b[3]);
        }
        decode_fixed32(slice_subrange(self.data_.as_slice(), at, at + 4)) as usize
    }

    fn seek_to_restart_point(&mut self, index: usize)
        requires
            old(self).layout(),
            index < old(self).num_restarts_,
        ensures
            final(self).layout(),
            final(self).same_block(old(self)),
            final(self).current_ == old(self).current_,
            final(self).status == old(self).status,
            final(self).key_@ == Seq::<u8>::empty(),
            final(self).restart_index_ == index,
            final(self).spec_next_offset() == restart_point(
                old(self).data(),
                old(self).limit(),
                index as nat,
            ),
    {
        self.key_.clear();
        self.restart_index_ = index;
        let offset = self.get_restart_point(index);
        self.value_offset_ = offset;
        self.value_len_ = 0;
    }

    fn corruption_error(&mut self)
        requires
            old(self).layout(),
        ensures
            final(self).inv(),
            final(self).same_block(old(self)),
            !final(self).spec_valid(),
            final(self).spec_status_code() == StatusCode::KCorruption,
            final(self).spec_status_message() == Some("block has corrupted restart points"@),
    {
        self.current_ = self.restarts_;
        self.restart_index_ = self.num_restarts_;
        self.status = Status::corruption("block has corrupted restart points", None);
        self.key_.clear();
        self.value_offset_ = self.restarts_;
        self.value_len_ = 0;
    }

    /// Moves to the entry behind the current one.
    fn parse_next_key(&mut self) -> (found: bool)
        requires
            old(self).layout(),
            old(self).restart_index_ < old(self).num_restarts_,
            old(self).spec_status_code() == StatusCode::Kok,
        ensures
            final(self).inv(),
            final(self).same_block(old(self)),
            found == final(self).spec_valid(),
            match entry_at(
                old(self).data(),
                old(self).limit(),
                old(self).spec_next_offset(),
                old(self).spec_key(),
            ) {
                Some((key, value_start, value_len)) => {
                    &&& found
                    &&& final(self).spec_offset() == old(self).spec_next_offset()
                    &&& final(self).spec_key() == key
                    &&& final(self).spec_value() == old(self).data().subrange(
                        value_start as int,
                        (value_start + value_len) as int,
                    )
                    &&& final(self).spec_next_offset() == value_start + value_len
                    &&& final(self).status == old(self).status
                    &&& final(self).spec_restart_index() >= old(self).spec_restart_index()
                },
                None => {
                    &&& !found
                    &&& old(self).spec_next_offset() >= old(self).limit() ==> final(self).status
                        == old(self).status
                    &&& old(self).spec_next_offset() < old(self).limit()
                        ==> final(self).spec_status_code() == StatusCode::KCorruption
                },
            },
            final(self).status_kept_or_damaged(old(self)),
            found ==> final(self).spec_next_offset() > old(self).spec_next_offset(),
            found && restart_point(
                old(self).data(),
                old(self).limit(),
                old(self).spec_restart_index(),
            ) <= old(self).spec_next_offset() ==> restart_point(
                final(self).data(),
                final(self).limit(),
                final(self).spec_restart_index(),
            ) <= final(self).spec_offset(),
    {
        let p = self.value_offset_ + self.value_len_;
        let limit = self.restarts_;
        if p >= limit {
            self.current_ = self.restarts_;
            self.restart_index_ = self.num_restarts_;
            return false;
        }
        self.current_ = p;
        let mut shared: u32 = 0;
        let mut non_shared: u32 = 0;
        let mut value_length: u32 = 0;
        let window = slice_subrange(self.data_.as_slice(), p, limit);
        let header_len = match decode_entry(window, &mut shared, &mut non_shared, &mut value_length) {
            Some(rest) => window.len() - rest.len(),
            None => {
                self.corruption_error();
                return false;
            },
        };
        proof {
            lemma_entry_header_fits(window@);
        }
        if self.key_.len() < shared as usize {
            self.corruption_error();
            return false;
        }
        let key_start = p + header_len;
        let value_start = key_start + non_shared as usize;
        self.key_.truncate(shared as usize);
        append_bytes(&mut self.key_, slice_subrange(self.data_.as_slice(), key_start, value_start));
        self.value_offset_ = value_start;
        self.value_len_ = value_length as usize;
        while self.restart_index_ + 1 < self.num_restarts_ && self.get_restart_point(
            self.restart_index_ + 1,
        ) < self.current_
            invariant
                self.layout(),
                self.restart_index_ < self.num_restarts_,
                self.restart_index_ >= old(self).restart_index_,
                self.same_block(old(self)),
                self.status_kept_or_damaged(old(self)),
                p < limit == self.restarts_,
                p < value_start,
                value_start + value_length <= limit,
                self.current_ == p,
                self.key_@ == old(self).key_@.take(shared as int) + self.data_@.subrange(
                    key_start as int,
                    value_start as int,
                ),
                self.value_offset_ == value_start,
                self.value_len_ == value_length,
                self.status == old(self).status,
                restart_point(
                    old(self).data(),
                    old(self).limit(),
                    old(self).spec_restart_index(),
                ) <= p ==> restart_point(self.data(), self.limit(), self.spec_restart_index())
                    <= p,
            decreases self.num_restarts_ - self.restart_index_,
        {
            self.restart_index_ = self.restart_index_ + 1;
        }
        true
    }

    /// The entries of the block, as far as they decode.
    pub closed spec fn items(&self) -> Seq<Item> {
        block_items(self.data_@, self.restarts_ as nat)
    }

    /// Whether the block is in order; see [`block_ordered`].
    pub closed spec fn ordered(&self) -> bool {
        block_ordered(
            self.comparator_,
            self.data_@,
            self.restarts_ as nat,
            self.num_restarts_ as nat,
        )
    }

    /// Whether the iterator stands at the `j`-th entry of the block.
    pub closed spec fn at_item(&self, j: int) -> bool {
        &&& 0 <= j < self.items().len()
        &&& self.current_ < self.restarts_
        &&& self.current_ == self.items()[j].offset
        &&& self.key_@ == self.items()[j].key
        &&& self.value_offset_ + self.value_len_ == self.items()[j].next
        &&& self.spec_value() == self.items()[j].value
        &&& restart_point(self.data_@, self.restarts_ as nat, self.restart_index_ as nat)
            <= self.current_
    }

    /// Whether the iterator, where it is valid, stands at one of the
    /// entries of the block.
    pub closed spec fn on_item(&self) -> bool {
        self.spec_valid() ==> exists|j: int| self.at_item(j)
    }

    /// Whether the iterator is one that was made for a block of the
    /// given bytes and has not moved: its status is `Corruption` where the
    /// bytes do not end in a restart array that fits, and its entries end
    /// where that array starts.
    pub open spec fn opened_on(&self, bytes: Seq<u8>) -> bool {
        &&& self.inv()
        &&& !self.spec_valid()
        &&& self.data() == bytes
        &&& match block_restarts(bytes) {
            Some((limit, count)) => {
                &&& self.spec_status_code() == StatusCode::Kok
                &&& self.restart_count() == count
                &&& self.limit() == if count == 0 {
                    0
                } else {
                    limit
                }
            },
            None => self.spec_status_code() == StatusCode::KCorruption,
        }
    }

    /// An iterator that stands at the first entry not before a key stands
    /// at the entry before which all keys come before that key.
    pub proof fn lemma_sought(&self, target: Seq<u8>)
        requires
            self.at_first_not_before(target),
        ensures
            ({
                let n = count_before(self.order(), self.items(), target) as int;
                &&& self.spec_valid() == (n < self.items().len())
                &&& self.spec_valid() ==> self.spec_key() == self.items()[n].key
                    && self.spec_value() == self.items()[n].value
                &&& if self.spec_valid() {
                    first_not_before(self.order(), self.items(), target) == Some(
                        (self.spec_key(), self.spec_value()),
                    )
                } else {
                    first_not_before(self.order(), self.items(), target) is None
                }
            }),
    {
        self.lemma_at_first_not_before(target);
        if self.spec_valid() {
            let j = choose|j: int|
                {
                    &&& #[trigger] self.at_item(j)
                    &&& !self.order().less(self.items()[j].key, target)
                    &&& forall|i: int|
                        0 <= i < j ==> self.order().less(#[trigger] self.items()[i].key, target)
                };
            lemma_count_before(self.comparator_, self.items(), target, j);
        } else {
            lemma_count_before(
                self.comparator_,
                self.items(),
                target,
                self.items().len() as int,
            );
        }
    }

    /// The entries and the order of the block in terms of its bytes.
    pub proof fn lemma_block(&self)
        ensures
            self.items() == block_items(self.data(), self.limit()),
            self.ordered() == block_ordered(
                self.order(),
                self.data(),
                self.limit(),
                self.restart_count(),
            ),
    {
    }

    /// What standing at an entry means.
    pub proof fn lemma_at_item(&self, j: int)
        requires
            self.at_item(j),
        ensures
            0 <= j < self.items().len(),
            self.spec_valid(),
            self.spec_key() == self.items()[j].key,
            self.spec_value() == self.items()[j].value,
            self.on_item(),
    {
    }

    /// An iterator that is not valid stands consistently.
    pub proof fn lemma_not_valid_on_item(&self)
        requires
            !self.spec_valid(),
        ensures
            self.on_item(),
    {
    }

    /// The entries of a block depend on the block alone.
    pub proof fn lemma_same_items(&self, other: &Self)
        requires
            self.same_block(other),
        ensures
            self.items() == other.items(),
            self.ordered() == other.ordered(),
    {
    }

    /// Whether the block is in order, the iterator stands at one of its
    /// entries where it is valid, and the status is `OK`.
    pub open spec fn is_sound(&self) -> bool {
        self.ordered() && self.on_item() && self.spec_status_code() == StatusCode::Kok
    }

    /// The keys and values of the entries of the block.
    pub open spec fn pairs(&self) -> Seq<(Seq<u8>, Seq<u8>)> {
        pairs_of(self.items())
    }

    /// The index of the entry at which the iterator stands.
    pub closed spec fn place(&self) -> int {
        choose|j: int| self.at_item(j)
    }

    /// The index of the entry at which the iterator stands.
    pub proof fn lemma_at_place(&self, j: int)
        requires
            self.at_item(j),
        ensures
            self.place() == j,
    {
        self.lemma_at_one_item(j, self.place());
    }

    /// In a block in order, an iterator stands at one entry only.
    pub proof fn lemma_at_one_item(&self, i: int, j: int)
        requires
            self.at_item(i),
            self.at_item(j),
        ensures
            i == j,
    {
        if i < j {
            lemma_offsets_increase(self.data_@, self.restarts_ as nat, 0, Seq::empty(), i, j);
            lemma_scan_chain(self.data_@, self.restarts_ as nat, 0, Seq::empty(), i);
        } else if j < i {
            lemma_offsets_increase(self.data_@, self.restarts_ as nat, 0, Seq::empty(), j, i);
            lemma_scan_chain(self.data_@, self.restarts_ as nat, 0, Seq::empty(), j);
        }
    }

    /// Whether the entry that the iterator would move to next is the
    /// `m`-th of the block, or none where `m` is their count.
    spec fn ready(&self, m: int) -> bool {
        &&& 0 <= m <= self.items().len()
        &&& m < self.items().len() ==> item_at(
            self.data_@,
            self.restarts_ as nat,
            (self.value_offset_ + self.value_len_) as nat,
            self.key_@,
        ) == Some(self.items()[m])
        &&& m == self.items().len() ==> self.value_offset_ + self.value_len_ >= self.restarts_
        &&& restart_point(self.data_@, self.restarts_ as nat, self.restart_index_ as nat)
            <= self.value_offset_ + self.value_len_
    }

    /// Behind the `j`-th entry the next entry is the one behind it.
    proof fn lemma_ready_next(&self, j: int)
        requires
            self.ordered(),
            self.at_item(j),
        ensures
            self.ready(j + 1),
    {
        let items = self.items();
        lemma_scan_chain(self.data_@, self.restarts_ as nat, 0, Seq::empty(), j);
        if j + 1 < items.len() {
            lemma_scan_chain(self.data_@, self.restarts_ as nat, 0, Seq::empty(), j + 1);
        } else {
            assert(items.last() == items[j]);
        }
    }

    /// At a restart point the next entry is the one that starts there.
    proof fn lemma_ready_at_restart(&self, r: nat) -> (m: int)
        requires
            self.ordered(),
            r < self.num_restarts_,
            self.key_@ == Seq::<u8>::empty(),
            self.restart_index_ == r,
            self.value_offset_ + self.value_len_ == restart_point(
                self.data_@,
                self.restarts_ as nat,
                r,
            ),
        ensures
            self.ready(m),
            m < self.items().len() ==> self.items()[m].offset == restart_point(
                self.data_@,
                self.restarts_ as nat,
                r,
            ),
            m == self.items().len() ==> self.items().len() == 0,
    {
        if self.restarts_ == 0 && self.items().len() > 0 {
            lemma_scan_chain(self.data_@, self.restarts_ as nat, 0, Seq::empty(), 0);
        }
        if self.restarts_ > 0 {
            lemma_restart_item(
                self.comparator_,
                self.data_@,
                self.restarts_ as nat,
                self.num_restarts_ as nat,
                r,
            )
        } else {
            lemma_scan_end(self.data_@, self.restarts_ as nat, 0, Seq::empty());
            self.items().len() as int
        }
    }

    /// What moving to the next entry does where the next entry was known.
    proof fn lemma_moved(&self, before: &Self, m: int, found: bool)
        requires
            before.ordered(),
            before.ready(m),
            self.same_block(before),
            found == self.spec_valid(),
            match entry_at(
                before.data(),
                before.limit(),
                before.spec_next_offset(),
                before.spec_key(),
            ) {
                Some((key, value_start, value_len)) => {
                    &&& found
                    &&& self.spec_offset() == before.spec_next_offset()
                    &&& self.spec_key() == key
                    &&& self.spec_value() == before.data().subrange(
                        value_start as int,
                        (value_start + value_len) as int,
                    )
                    &&& self.spec_next_offset() == value_start + value_len
                },
                None => !found,
            },
            found && restart_point(before.data(), before.limit(), before.spec_restart_index())
                <= before.spec_next_offset() ==> restart_point(
                self.data(),
                self.limit(),
                self.spec_restart_index(),
            ) <= self.spec_offset(),
        ensures
            m < before.items().len() ==> found && self.at_item(m),
            m == before.items().len() ==> !found,
            self.ordered(),
            self.items() == before.items(),
    {
    }

    /// Whether the keys of the first `count` entries all come before
    /// `target`.
    pub closed spec fn all_before(&self, count: int, target: Seq<u8>) -> bool {
        forall|i: int|
            0 <= i < count && i < self.items().len() ==> self.comparator_.less(
                #[trigger] self.items()[i].key,
                target,
            )
    }

    /// Whether the iterator stands at the first entry whose key is not
    /// before `target`, or at none where every key is before it.
    pub closed spec fn at_first_not_before(&self, target: Seq<u8>) -> bool {
        if self.spec_valid() {
            exists|j: int|
                #[trigger] self.at_item(j) && self.all_before(j, target) && !self.comparator_.less(
                    self.items()[j].key,
                    target,
                )
        } else {
            self.all_before(self.items().len() as int, target)
        }
    }

    /// What standing at the first entry not before a key means.
    pub proof fn lemma_at_first_not_before(&self, target: Seq<u8>)
        requires
            self.at_first_not_before(target),
        ensures
            self.spec_valid() ==> exists|j: int|
                {
                    &&& #[trigger] self.at_item(j)
                    &&& !self.order().less(self.items()[j].key, target)
                    &&& forall|i: int|
                        0 <= i < j ==> self.order().less(#[trigger] self.items()[i].key, target)
                },
            !self.spec_valid() ==> forall|i: int|
                0 <= i < self.items().len() ==> self.order().less(
                    #[trigger] self.items()[i].key,
                    target,
                ),
    {
        if self.spec_valid() {
            let j = choose|j: int|
                #[trigger] self.at_item(j) && self.all_before(j, target) && !self.comparator_.less(
                    self.items()[j].key,
                    target,
                );
            assert(self.at_item(j));
        }
    }

    /// Whether the keys of the entries that start before `offset` all come
    /// before `target`.
    spec fn before_offset(&self, offset: nat, target: Seq<u8>) -> bool {
        forall|i: int|
            0 <= i < self.items().len() && (#[trigger] self.items()[i]).offset < offset
                ==> self.comparator_.less(self.items()[i].key, target)
    }

    /// Where the key of the `m`-th entry comes before `target`, so do the
    /// keys of all entries before it.
    proof fn lemma_before_item(&self, m: int, target: Seq<u8>)
        requires
            self.ordered(),
            self.comparator_.accepts(target),
            0 <= m < self.items().len(),
            self.comparator_.less(self.items()[m].key, target),
        ensures
            self.before_offset(self.items()[m].offset, target),
            self.all_before(m + 1, target),
    {
        let items = self.items();
        assert forall|i: int| 0 <= i < m implies self.comparator_.less(
            #[trigger] items[i].key,
            target,
        ) by {
            self.comparator_.lemma_transitive(items[i].key, items[m].key, target);
        }
        assert forall|i: int|
            0 <= i < items.len() && (#[trigger] items[i]).offset
                < items[m].offset implies self.comparator_.less(items[i].key, target) by {
            if i > m {
                lemma_offsets_increase(self.data_@, self.restarts_ as nat, 0, Seq::empty(), m, i);
                lemma_scan_chain(self.data_@, self.restarts_ as nat, 0, Seq::empty(), m);
            }
        }
    }

    /// Where the key at which the iterator stands comes before `target`,
    /// so do the keys of all entries up to it and of all that start before
    /// its restart point.
    proof fn lemma_before_current(&self, target: Seq<u8>)
        requires
            self.ordered(),
            self.on_item(),
            self.spec_valid(),
            self.comparator_.accepts(target),
            self.comparator_.less(self.key_@, target),
        ensures
            self.before_offset(
                restart_point(self.data_@, self.restarts_ as nat, self.restart_index_ as nat),
                target,
            ),
            forall|j: int| #[trigger] self.at_item(j) ==> self.all_before(j + 1, target),
    {
        let j = choose|j: int| self.at_item(j);
        self.lemma_before_item(j, target);
        assert forall|i: int| #[trigger] self.at_item(i) implies self.all_before(i + 1, target) by {
            self.lemma_at_one_item(i, j);
        }
    }

    /// Where the key at which the iterator stands is neither before nor
    /// behind `target`, the iterator stands at the first entry whose key
    /// is not before `target`.
    proof fn lemma_found_at_current(&self, target: Seq<u8>)
        requires
            self.ordered(),
            self.on_item(),
            self.spec_valid(),
            self.comparator_.accepts(target),
            !self.comparator_.less(self.key_@, target),
            !self.comparator_.less(target, self.key_@),
        ensures
            self.at_first_not_before(target),
    {
        let j = choose|j: int| self.at_item(j);
        let items = self.items();
        assert forall|i: int| 0 <= i < j implies self.comparator_.less(
            #[trigger] items[i].key,
            target,
        ) by {
            self.comparator_.lemma_between(items[i].key, target, items[j].key);
        }
        assert(self.at_item(j) && self.all_before(j, target));
    }

    /// A block in order without entries has the one restart point.
    proof fn lemma_one_restart_where_empty(&self)
        requires
            self.ordered(),
            self.restarts_ == 0,
        ensures
            self.num_restarts_ == 1,
    {
        if self.items().len() > 0 {
            lemma_scan_chain(self.data_@, self.restarts_ as nat, 0, Seq::empty(), 0);
        }
    }

    /// The key of the entry at which the iterator stands.
    pub fn key_bytes(&self) -> (k: &[u8])
        ensures
            k@ == self.spec_key(),
    {
        self.key_.as_slice()
    }
}

impl<C: Comparator> BlockIterator<C> {
    /// Over a block with restart points, and as long as the status is `OK`:
    /// moves to the entry at the first restart point.  In a block in order
    /// that is its first entry.
    fn walk_to_first(&mut self)
        requires
            old(self).inv(),
        ensures
            final(self).inv(),
            final(self).same_block(old(self)),
            final(self).status_kept_or_damaged(old(self)),
            old(self).restart_count() > 0 && old(self).spec_status_code() == StatusCode::Kok
                ==> match entry_at(
                old(self).data(),
                old(self).limit(),
                restart_point(old(self).data(), old(self).limit(), 0),
                Seq::empty(),
            ) {
                Some((key, value_start, value_len)) => {
                    &&& final(self).spec_valid()
                    &&& final(self).spec_offset() == restart_point(
                        old(self).data(),
                        old(self).limit(),
                        0,
                    )
                    &&& final(self).spec_key() == key
                    &&& final(self).spec_value() == old(self).data().subrange(
                        value_start as int,
                        (value_start + value_len) as int,
                    )
                    &&& final(self).spec_next_offset() == value_start + value_len
                },
                None => !final(self).spec_valid(),
            },
            !(old(self).restart_count() > 0 && old(self).spec_status_code() == StatusCode::Kok)
                ==> *final(self) == *old(self),
            old(self).ordered() && old(self).spec_status_code() == StatusCode::Kok ==> {
                &&& final(self).spec_status_code() == StatusCode::Kok
                &&& final(self).items().len() > 0 ==> final(self).at_item(0)
                &&& final(self).items().len() == 0 ==> !final(self).spec_valid()
            },
    {
        if self.num_restarts_ == 0 || !self.status.is_ok() {
            return ;
        }
        self.seek_to_restart_point(0);
        let ghost mid = *self;
        let found = self.parse_next_key();
        proof {
            if old(self).ordered() {
                let m = mid.lemma_ready_at_restart(0);
                self.lemma_moved(&mid, m, found);
                if m < mid.items().len() && m > 0 {
                    lemma_offsets_increase(
                        mid.data_@,
                        mid.restarts_ as nat,
                        0,
                        Seq::empty(),
                        0,
                        m,
                    );
                    lemma_scan_chain(mid.data_@, mid.restarts_ as nat, 0, Seq::empty(), 0);
                }
                if m == mid.items().len() {
                    assert(self.items().len() == 0) by {
                        if mid.items().len() > 0 {
                            lemma_scan_chain(
                                mid.data_@,
                                mid.restarts_ as nat,
                                0,
                                Seq::empty(),
                                mid.items().len() - 1,
                            );
                        }
                    }
                }
            }
        }
    }

    /// Over a block with restart points, and as long as the status is `OK`:
    /// moves to the last entry behind the last restart point.  In a block in
    /// order that is its last entry.
    fn walk_to_last(&mut self)
        requires
            old(self).inv(),
        ensures
            final(self).inv(),
            final(self).same_block(old(self)),
            final(self).status_kept_or_damaged(old(self)),
            final(self).spec_valid() ==> final(self).spec_next_offset() >= final(self).limit(),
            !(old(self).restart_count() > 0 && old(self).spec_status_code() == StatusCode::Kok)
                ==> *final(self) == *old(self),
            old(self).ordered() && old(self).spec_status_code() == StatusCode::Kok ==> {
                &&& final(self).spec_status_code() == StatusCode::Kok
                &&& final(self).items().len() > 0 ==> final(self).at_item(
                    final(self).items().len() - 1,
                )
                &&& final(self).items().len() == 0 ==> !final(self).spec_valid()
            },
    {
        if self.num_restarts_ == 0 || !self.status.is_ok() {
            return ;
        }
        self.seek_to_restart_point(self.num_restarts_ - 1);
        let ghost strict = old(self).ordered();
        let ghost mut k: int = 0;
        proof {
            if strict {
                k = self.lemma_ready_at_restart((self.num_restarts_ - 1) as nat);
                if k == self.items().len() && self.items().len() > 0 {
                    lemma_scan_chain(
                        self.data_@,
                        self.restarts_ as nat,
                        0,
                        Seq::empty(),
                        self.items().len() - 1,
                    );
                }
            }
        }
        loop
            invariant
                self.layout(),
                self.same_block(old(self)),
                self.status_kept_or_damaged(old(self)),
                self.restart_index_ < self.num_restarts_,
                self.spec_status_code() == StatusCode::Kok,
                old(self).restart_count() > 0 && old(self).spec_status_code() == StatusCode::Kok,
                strict == old(self).ordered(),
                strict ==> self.ordered() && self.ready(k) && (k < self.items().len()
                    || self.items().len() == 0),
            decreases
                    (if self.spec_next_offset() < self.limit() {
                        self.limit() - self.spec_next_offset()
                    } else {
                        0
                    }),
        {
            let ghost before = *self;
            let found = self.parse_next_key();
            proof {
                if strict {
                    self.lemma_moved(&before, k, found);
                }
            }
            if !found {
                return ;
            }
            if self.value_offset_ + self.value_len_ >= self.restarts_ {
                proof {
                    if strict {
                        let len = self.items().len() as int;
                        if k < len - 1 {
                            lemma_offsets_increase(
                                self.data_@,
                                self.restarts_ as nat,
                                0,
                                Seq::empty(),
                                k,
                                k + 1,
                            );
                            lemma_scan_chain(
                                self.data_@,
                                self.restarts_ as nat,
                                0,
                                Seq::empty(),
                                k + 1,
                            );
                        }
                    }
                }
                return ;
            }
            proof {
                if strict {
                    self.lemma_ready_next(k);
                    lemma_scan_chain(self.data_@, self.restarts_ as nat, 0, Seq::empty(), k);
                    if k + 1 == self.items().len() {
                        assert(self.items().last() == self.items()[k]);
                    }
                    k = k + 1;
                }
            }
        }
    }

    /// Moves to the first entry, at or behind the restart point that a
    /// binary search over the restart points finds, whose key is not
    /// before `target`.  In a block in order that is the first entry of the
    /// block whose key is not before `target`, and the iterator stands at
    /// none where every key is before it.  A key on the way that the order
    /// is not defined on ends the search with the status `Corruption`.
    fn walk_to(&mut self, target: &[u8])
        requires
            old(self).inv(),
            old(self).order().accepts(target@),
        ensures
            final(self).inv(),
            final(self).same_block(old(self)),
            final(self).status_kept_or_damaged(old(self)),
            final(self).spec_valid() ==> final(self).order().accepts(final(self).spec_key())
                && !final(self).order().less(final(self).spec_key(), target@),
            !(old(self).restart_count() > 0 && old(self).spec_status_code() == StatusCode::Kok)
                ==> *final(self) == *old(self),
            old(self).ordered() && old(self).on_item() && old(self).spec_status_code()
                == StatusCode::Kok ==> {
                &&& final(self).spec_status_code() == StatusCode::Kok
                &&& final(self).at_first_not_before(target@)
            },
    {
        if self.num_restarts_ == 0 || !self.status.is_ok() {
            return ;
        }
        let ghost strict = old(self).ordered() && old(self).on_item();
        let mut left: usize = 0;
        let mut right: usize = self.num_restarts_ - 1;
        let mut current_is_before = false;
        if self.current_ < self.restarts_ && self.comparator_.is_valid_key(self.key_.as_slice()) {
            if key_less(&self.comparator_, self.key_.as_slice(), target) {
                left = self.restart_index_;
                current_is_before = true;
                proof {
                    if strict {
                        self.lemma_before_current(target@);
                    }
                }
            } else if key_less(&self.comparator_, target, self.key_.as_slice()) {
                right = self.restart_index_;
            } else {
                proof {
                    if strict {
                        self.lemma_found_at_current(target@);
                    }
                }
                return ;
            }
        }
        while left < right
            invariant
                self.inv(),
                *self == *old(self),
                self.num_restarts_ > 0,
                left <= right < self.num_restarts_,
                self.seekable(target@),
                current_is_before ==> self.spec_valid() && self.order().less(
                    self.spec_key(),
                    target@,
                ),
                self.spec_status_code() == StatusCode::Kok,
                old(self).restart_count() > 0 && old(self).spec_status_code() == StatusCode::Kok,
                strict == (old(self).ordered() && old(self).on_item()),
                strict ==> self.before_offset(
                    restart_point(self.data(), self.limit(), left as nat),
                    target@,
                ),
            decreases right - left,
        {
            let mid = left + (right - left + 1) / 2;
            let region_offset = self.get_restart_point(mid);
            let ghost m: int = if strict && self.restarts_ > 0 {
                lemma_restart_item(
                    self.comparator_,
                    self.data_@,
                    self.restarts_ as nat,
                    self.num_restarts_ as nat,
                    mid as nat,
                )
            } else {
                0
            };
            proof {
                if strict && self.restarts_ > 0 {
                    lemma_scan_chain(self.data_@, self.restarts_ as nat, 0, Seq::empty(), m);
                }
            }
            if region_offset >= self.restarts_ {
                proof {
                    if strict && self.restarts_ == 0 {
                        self.lemma_one_restart_where_empty();
                    }
                }
                self.corruption_error();
                return ;
            }
            let mut shared: u32 = 0;
            let mut non_shared: u32 = 0;
            let mut value_length: u32 = 0;
            let window = slice_subrange(self.data_.as_slice(), region_offset, self.restarts_);
            let kv = match decode_entry(window, &mut shared, &mut non_shared, &mut value_length) {
                Some(rest) => rest,
                None => {
                    self.corruption_error();
                    return ;
                },
            };
            if shared != 0 {
                self.corruption_error();
                return ;
            }
            proof {
                lemma_entry_header_fits(window@);
            }
            let mid_key = slice_subrange(kv, 0, non_shared as usize);
            proof {
                if strict {
                    let h = entry_header(window@).unwrap();
                    assert(mid_key@ =~= Seq::<u8>::empty().take(0) + self.data_@.subrange(
                        (region_offset + h.header_len) as int,
                        (region_offset + h.header_len + h.non_shared) as int,
                    ));
                    assert(mid_key@ == self.items()[m].key);
                }
            }
            if !self.comparator_.is_valid_key(mid_key) {
                self.corruption_error();
                return ;
            }
            if key_less(&self.comparator_, mid_key, target) {
                proof {
                    if strict {
                        self.lemma_before_item(m, target@);
                    }
                }
                left = mid;
            } else {
                right = mid - 1;
            }
        }
        let skip_seek = current_is_before && left == self.restart_index_;
        let ghost mut k: int = 0;
        proof {
            if strict && skip_seek {
                let j = choose|j: int| self.at_item(j);
                self.lemma_before_current(target@);
                self.lemma_ready_next(j);
                k = j + 1;
                assert(self.all_before(k, target@));
            }
        }
        if !skip_seek {
            self.seek_to_restart_point(left);
            proof {
                if strict {
                    k = self.lemma_ready_at_restart(left as nat);
                    self.lemma_same_items(old(self));
                    assert(self.all_before(k, target@)) by {
                        assert forall|i: int|
                            0 <= i < k && i < self.items().len() implies self.order().less(
                            #[trigger] self.items()[i].key,
                            target@,
                        ) by {
                            lemma_offsets_increase(
                                self.data_@,
                                self.restarts_ as nat,
                                0,
                                Seq::empty(),
                                i,
                                k,
                            );
                            lemma_scan_chain(self.data_@, self.restarts_ as nat, 0, Seq::empty(), i);
                            assert(old(self).before_offset(self.items()[k].offset, target@));
                        }
                    }
                }
            }
        }
        loop
            invariant
                self.layout(),
                self.same_block(old(self)),
                self.status_kept_or_damaged(old(self)),
                self.restart_index_ < self.num_restarts_,
                self.spec_status_code() == StatusCode::Kok,
                old(self).restart_count() > 0 && old(self).spec_status_code() == StatusCode::Kok,
                self.seekable(target@),
                strict == (old(self).ordered() && old(self).on_item()),
                strict ==> self.ordered() && self.ready(k) && self.all_before(k, target@),
            decreases
                    (if self.spec_next_offset() < self.limit() {
                        self.limit() - self.spec_next_offset()
                    } else {
                        0
                    }),
        {
            let ghost before = *self;
            let found = self.parse_next_key();
            proof {
                if strict {
                    self.lemma_moved(&before, k, found);
                    assert(self.all_before(k, target@));
                }
            }
            if !found {
                return ;
            }
            if !self.comparator_.is_valid_key(self.key_.as_slice()) {
                self.corruption_error();
                return ;
            }
            if !key_less(&self.comparator_, self.key_.as_slice(), target) {
                return ;
            }
            proof {
                if strict {
                    self.lemma_ready_next(k);
                    assert(self.all_before(k + 1, target@));
                    k = k + 1;
                }
            }
        }
    }

    /// Moves to the entry behind the current one.  In a block in order
    /// that is the next entry of the block, and the iterator stands at none
    /// where it stood at the last.
    fn walk_on(&mut self)
        requires
            old(self).inv(),
            old(self).spec_valid(),
        ensures
            final(self).inv(),
            final(self).spec_valid() ==> final(self).spec_offset() > old(self).spec_offset(),
            final(self).same_block(old(self)),
            final(self).status_kept_or_damaged(old(self)),
            match entry_at(
                old(self).data(),
                old(self).limit(),
                old(self).spec_next_offset(),
                old(self).spec_key(),
            ) {
                Some((key, value_start, value_len)) => {
                    &&& final(self).spec_valid()
                    &&& final(self).spec_offset() == old(self).spec_next_offset()
                    &&& final(self).spec_key() == key
                    &&& final(self).spec_value() == old(self).data().subrange(
                        value_start as int,
                        (value_start + value_len) as int,
                    )
                    &&& final(self).spec_next_offset() == value_start + value_len
                },
                None => !final(self).spec_valid(),
            },
            forall|j: int|
                old(self).ordered() && #[trigger] old(self).at_item(j) ==> {
                    &&& j + 1 < old(self).items().len() ==> final(self).at_item(j + 1)
                    &&& j + 1 == old(self).items().len() ==> !final(self).spec_valid()
                    &&& final(self).spec_status_code() == StatusCode::Kok
                },
    {
        let found = self.parse_next_key();
        proof {
            assert forall|j: int| old(self).ordered() && #[trigger] old(self).at_item(j) implies {
                &&& j + 1 < old(self).items().len() ==> self.at_item(j + 1)
                &&& j + 1 == old(self).items().len() ==> !self.spec_valid()
                &&& self.spec_status_code() == StatusCode::Kok
            } by {
                old(self).lemma_ready_next(j);
                self.lemma_moved(old(self), j + 1, found);
            }
        }
    }

    /// Moves to the entry before the current one: walks forward from the
    /// last restart point before the current entry.  In a block in order
    /// that is the entry before it in the block, and the iterator stands at
    /// none where it stood at the first.
    fn walk_back(&mut self)
        requires
            old(self).inv(),
            old(self).spec_valid(),
        ensures
            final(self).inv(),
            final(self).same_block(old(self)),
            final(self).status_kept_or_damaged(old(self)),
            final(self).spec_valid() ==> final(self).spec_offset() < old(self).spec_offset()
                && final(self).spec_next_offset() >= old(self).spec_offset(),
            forall|j: int|
                old(self).ordered() && #[trigger] old(self).at_item(j) ==> {
                    &&& j > 0 ==> final(self).at_item(j - 1)
                    &&& j == 0 ==> !final(self).spec_valid()
                    &&& final(self).spec_status_code() == StatusCode::Kok
                },
    {
        let original = self.current_;
        let ghost strict = old(self).ordered() && old(self).on_item();
        let ghost j: int = if strict {
            choose|j: int| old(self).at_item(j)
        } else {
            0
        };
        proof {
            if old(self).ordered() {
                assert forall|i: int| #[trigger] old(self).at_item(i) implies i == j && strict by {
                    if old(self).at_item(i) {
                        assert(old(self).on_item());
                        old(self).lemma_at_one_item(i, j);
                    }
                }
            }
        }
        while self.get_restart_point(self.restart_index_) >= original
            invariant
                self.inv(),
                self.spec_valid(),
                self.same_block(old(self)),
                self.status_kept_or_damaged(old(self)),
                original == old(self).current_,
                self.current_ == original,
                self.key_ == old(self).key_,
                self.spec_status_code() == StatusCode::Kok,
                strict ==> old(self).ordered() && old(self).at_item(j),
                forall|i: int|
                    old(self).ordered() && #[trigger] old(self).at_item(i) ==> strict && i == j,
            decreases self.restart_index_,
        {
            if self.restart_index_ == 0 {
                proof {
                    if strict && j > 0 {
                        lemma_offsets_increase(
                            self.data_@,
                            self.restarts_ as nat,
                            0,
                            Seq::empty(),
                            0,
                            j,
                        );
                        lemma_scan_chain(self.data_@, self.restarts_ as nat, 0, Seq::empty(), 0);
                    }
                }
                self.current_ = self.restarts_;
                self.restart_index_ = self.num_restarts_;
                self.value_offset_ = self.restarts_;
                self.value_len_ = 0;
                return ;
            }
            self.restart_index_ = self.restart_index_ - 1;
        }
        self.seek_to_restart_point(self.restart_index_);
        let ghost mut k: int = 0;
        proof {
            if strict {
                self.lemma_same_items(old(self));
                k = self.lemma_ready_at_restart(self.restart_index_ as nat);
                if k >= j {
                    if k > j {
                        lemma_offsets_increase(
                            self.data_@,
                            self.restarts_ as nat,
                            0,
                            Seq::empty(),
                            j,
                            k,
                        );
                        lemma_scan_chain(self.data_@, self.restarts_ as nat, 0, Seq::empty(), j);
                    }
                    assert(false);
                }
            }
        }
        loop
            invariant
                self.layout(),
                self.same_block(old(self)),
                self.status_kept_or_damaged(old(self)),
                self.restart_index_ < self.num_restarts_,
                self.spec_status_code() == StatusCode::Kok,
                original == old(self).current_,
                original < self.restarts_,
                self.spec_next_offset() < original,
                strict ==> old(self).ordered() && old(self).at_item(j) && self.ordered()
                    && self.ready(k) && 0 <= k < j,
                forall|i: int|
                    old(self).ordered() && #[trigger] old(self).at_item(i) ==> strict && i == j,
            decreases original - self.spec_next_offset(),
        {
            let ghost before = *self;
            let found = self.parse_next_key();
            proof {
                if strict {
                    self.lemma_moved(&before, k, found);
                    lemma_scan_chain(self.data_@, self.restarts_ as nat, 0, Seq::empty(), k);
                    if k + 1 < j {
                        lemma_offsets_increase(
                            self.data_@,
                            self.restarts_ as nat,
                            0,
                            Seq::empty(),
                            k + 1,
                            j,
                        );
                        lemma_scan_chain(self.data_@, self.restarts_ as nat, 0, Seq::empty(), k + 1);
                    }
                    lemma_scan_chain(self.data_@, self.restarts_ as nat, 0, Seq::empty(), j);
                }
            }
            if !found {
                return ;
            }
            if self.value_offset_ + self.value_len_ >= original {
                return ;
            }
            proof {
                if strict {
                    self.lemma_ready_next(k);
                    k = k + 1;
                }
            }
        }
    }

    /// An iterator that has moved within a block in order to its `n`-th
    /// entry, or to none where there is no such entry, is sound and stands
    /// there.
    proof fn lemma_stands(&self, before: &Self, n: int)
        requires
            self.same_block(before),
            before.is_sound() ==> self.spec_status_code() == StatusCode::Kok,
            before.is_sound() && 0 <= n < self.items().len() ==> self.at_item(n),
            before.is_sound() && !(0 <= n < self.items().len()) ==> !self.spec_valid(),
        ensures
            before.is_sound() ==> self.pairs() == before.pairs() && self.order() == before.order(),
            before.is_sound() ==> self.is_sound() && if 0 <= n < self.pairs().len() {
                self.spec_valid() && self.place() == n
            } else {
                !self.spec_valid()
            },
    {
        if before.is_sound() {
            if self.spec_valid() {
                self.lemma_at_one_item(n, self.place());
            }
        }
    }

    /// Behind a seek in a block in order the iterator is sound and stands
    /// at the entry before which all keys come before the target.
    proof fn lemma_stands_behind_seek(&self, before: &Self, target: Seq<u8>)
        requires
            self.same_block(before),
            before.is_sound() ==> self.spec_status_code() == StatusCode::Kok
                && self.at_first_not_before(target),
        ensures
            before.is_sound() ==> self.pairs() == before.pairs() && self.order() == before.order(),
            before.is_sound() ==> self.is_sound() && if keys_before(
                self.order(),
                self.pairs(),
                target,
            ) < self.pairs().len() {
                self.spec_valid() && self.place() == keys_before(self.order(), self.pairs(), target)
            } else {
                !self.spec_valid()
            },
    {
        if before.is_sound() {
            self.lemma_sought(target);
            lemma_keys_before_pairs(self.comparator_, self.items(), target);
            let n = count_before(self.comparator_, self.items(), target) as int;
            if self.spec_valid() {
                self.lemma_at_first_not_before(target);
                let j = choose|j: int|
                    {
                        &&& #[trigger] self.at_item(j)
                        &&& !self.order().less(self.items()[j].key, target)
                        &&& forall|i: int|
                            0 <= i < j ==> self.order().less(#[trigger] self.items()[i].key, target)
                    };
                lemma_count_before(self.comparator_, self.items(), target, j);
                self.lemma_at_one_item(j, self.place());
            }
        }
    }

    /// Behind a step forward or back in a block in order the iterator is
    /// sound and stands at the entry behind or before the one at which it
    /// stood.
    proof fn lemma_stands_behind_step(&self, before: &Self, step: int)
        requires
            self.same_block(before),
            before.spec_valid(),
            step == 1 || step == -1,
            forall|j: int|
                before.ordered() && #[trigger] before.at_item(j) ==> {
                    &&& 0 <= j + step < before.items().len() ==> self.at_item(j + step)
                    &&& !(0 <= j + step < before.items().len()) ==> !self.spec_valid()
                    &&& self.spec_status_code() == StatusCode::Kok
                },
        ensures
            before.is_sound() ==> self.pairs() == before.pairs() && self.order() == before.order(),
            before.is_sound() ==> self.is_sound() && if 0 <= before.place() + step < self.pairs().len() {
                self.spec_valid() && self.place() == before.place() + step
            } else {
                !self.spec_valid()
            },
    {
        if before.is_sound() {
            let j = before.place();
            assert(before.at_item(j));
            if self.spec_valid() {
                self.lemma_at_one_item(j + step, self.place());
            }
        }
    }
}

impl<C: Comparator> Iter for BlockIterator<C> {
    type Order = C;

    open spec fn order(&self) -> C {
        BlockIterator::order(self)
    }

    open spec fn sound(&self) -> bool {
        self.is_sound()
    }

    open spec fn entries(&self) -> Seq<(Seq<u8>, Seq<u8>)> {
        self.pairs()
    }

    open spec fn position(&self) -> int {
        self.place()
    }

    open spec fn failed(&self) -> bool {
        self.spec_status_code() != StatusCode::Kok
    }

    open spec fn lenient(&self) -> bool {
        false
    }

    open spec fn steady(&self) -> bool {
        true
    }

    proof fn lemma_position(&self) {
        if self.spec_valid() {
            assert(self.at_item(self.place()));
        }
    }

    open spec fn inv(&self) -> bool {
        BlockIterator::inv(self)
    }

    open spec fn spec_valid(&self) -> bool {
        BlockIterator::spec_valid(self)
    }

    open spec fn spec_key(&self) -> Seq<u8> {
        BlockIterator::spec_key(self)
    }

    open spec fn spec_value(&self) -> Seq<u8> {
        BlockIterator::spec_value(self)
    }

    open spec fn seekable(&self, target: Seq<u8>) -> bool {
        self.order().accepts(target)
    }

    open spec fn ahead(&self) -> nat {
        (self.limit() - self.spec_offset()) as nat
    }

    open spec fn behind(&self) -> nat {
        self.spec_offset()
    }

    fn valid(&self) -> (b: bool) {
        self.current_ < self.restarts_
    }

    /// Over a block with restart points, and as long as the status is `OK`:
    /// moves to the entry at the first restart point.  In a block in order
    /// that is its first entry.
    fn seek_to_first(&mut self)
        ensures
            final(self).same_block(old(self)),
            final(self).status_kept_or_damaged(old(self)),
            old(self).restart_count() > 0 && old(self).spec_status_code() == StatusCode::Kok
                ==> match entry_at(
                old(self).data(),
                old(self).limit(),
                restart_point(old(self).data(), old(self).limit(), 0),
                Seq::empty(),
            ) {
                Some((key, value_start, value_len)) => {
                    &&& final(self).spec_valid()
                    &&& final(self).spec_offset() == restart_point(
                        old(self).data(),
                        old(self).limit(),
                        0,
                    )
                    &&& final(self).spec_key() == key
                    &&& final(self).spec_value() == old(self).data().subrange(
                        value_start as int,
                        (value_start + value_len) as int,
                    )
                    &&& final(self).spec_next_offset() == value_start + value_len
                },
                None => !final(self).spec_valid(),
            },
            !(old(self).restart_count() > 0 && old(self).spec_status_code() == StatusCode::Kok)
                ==> *final(self) == *old(self),
            old(self).ordered() && old(self).spec_status_code() == StatusCode::Kok ==> {
                &&& final(self).spec_status_code() == StatusCode::Kok
                &&& final(self).items().len() > 0 ==> final(self).at_item(0)
                &&& final(self).items().len() == 0 ==> !final(self).spec_valid()
            },
    {
        self.walk_to_first();
        proof {
            self.lemma_stands(old(self), 0);
        }
    }

    /// Over a block with restart points, and as long as the status is `OK`:
    /// moves to the last entry behind the last restart point.  In a block in
    /// order that is its last entry.
    fn seek_to_last(&mut self)
        ensures
            final(self).same_block(old(self)),
            final(self).status_kept_or_damaged(old(self)),
            final(self).spec_valid() ==> final(self).spec_next_offset() >= final(self).limit(),
            !(old(self).restart_count() > 0 && old(self).spec_status_code() == StatusCode::Kok)
                ==> *final(self) == *old(self),
            old(self).ordered() && old(self).spec_status_code() == StatusCode::Kok ==> {
                &&& final(self).spec_status_code() == StatusCode::Kok
                &&& final(self).items().len() > 0 ==> final(self).at_item(
                    final(self).items().len() - 1,
                )
                &&& final(self).items().len() == 0 ==> !final(self).spec_valid()
            },
    {
        self.walk_to_last();
        proof {
            self.lemma_stands(old(self), self.items().len() - 1);
        }
    }

    /// Moves to the first entry, at or behind the restart point that a
    /// binary search over the restart points finds, whose key is not
    /// before `target`.  In a block in order that is the first entry of the
    /// block whose key is not before `target`, and the iterator stands at
    /// none where every key is before it.  A key on the way that the order
    /// is not defined on ends the search with the status `Corruption`.
    fn seek(&mut self, target: &[u8])
        ensures
            final(self).same_block(old(self)),
            final(self).status_kept_or_damaged(old(self)),
            final(self).spec_valid() ==> final(self).order().accepts(final(self).spec_key())
                && !final(self).order().less(final(self).spec_key(), target@),
            !(old(self).restart_count() > 0 && old(self).spec_status_code() == StatusCode::Kok)
                ==> *final(self) == *old(self),
            old(self).ordered() && old(self).on_item() && old(self).spec_status_code()
                == StatusCode::Kok ==> {
                &&& final(self).spec_status_code() == StatusCode::Kok
                &&& final(self).at_first_not_before(target@)
            },
    {
        self.walk_to(target);
        proof {
            self.lemma_stands_behind_seek(old(self), target@);
        }
    }

    /// Moves to the entry behind the current one.  In a block in order
    /// that is the next entry of the block, and the iterator stands at none
    /// where it stood at the last.
    fn next(&mut self)
        ensures
            final(self).same_block(old(self)),
            final(self).status_kept_or_damaged(old(self)),
            match entry_at(
                old(self).data(),
                old(self).limit(),
                old(self).spec_next_offset(),
                old(self).spec_key(),
            ) {
                Some((key, value_start, value_len)) => {
                    &&& final(self).spec_valid()
                    &&& final(self).spec_offset() == old(self).spec_next_offset()
                    &&& final(self).spec_key() == key
                    &&& final(self).spec_value() == old(self).data().subrange(
                        value_start as int,
                        (value_start + value_len) as int,
                    )
                    &&& final(self).spec_next_offset() == value_start + value_len
                },
                None => !final(self).spec_valid(),
            },
            forall|j: int|
                old(self).ordered() && #[trigger] old(self).at_item(j) ==> {
                    &&& j + 1 < old(self).items().len() ==> final(self).at_item(j + 1)
                    &&& j + 1 == old(self).items().len() ==> !final(self).spec_valid()
                    &&& final(self).spec_status_code() == StatusCode::Kok
                },
    {
        self.walk_on();
        proof {
            old(self).lemma_measures();
            self.lemma_stands_behind_step(old(self), 1);
        }
    }

    /// Moves to the entry before the current one: walks forward from the
    /// last restart point before the current entry.  In a block in order
    /// that is the entry before it in the block, and the iterator stands at
    /// none where it stood at the first.
    fn prev(&mut self)
        ensures
            final(self).same_block(old(self)),
            final(self).status_kept_or_damaged(old(self)),
            final(self).spec_valid() ==> final(self).spec_offset() < old(self).spec_offset()
                && final(self).spec_next_offset() >= old(self).spec_offset(),
            forall|j: int|
                old(self).ordered() && #[trigger] old(self).at_item(j) ==> {
                    &&& j > 0 ==> final(self).at_item(j - 1)
                    &&& j == 0 ==> !final(self).spec_valid()
                    &&& final(self).spec_status_code() == StatusCode::Kok
                },
    {
        self.walk_back();
        proof {
            old(self).lemma_measures();
            self.lemma_stands_behind_step(old(self), -1);
        }
    }

    fn key(&self) -> (k: Slice) {
        Slice::new_from_array(self.key_.as_slice())
    }

    fn value(&self) -> (v: Slice) {
        Slice::new_from_array(
            slice_subrange(
                self.data_.as_slice(),
                self.value_offset_,
                self.value_offset_ + self.value_len_,
            ),
        )
    }

    fn status(&self) -> (s: Status)
        ensures
            s.spec_code() == self.spec_status_code(),
            s.spec_message() == self.spec_status_message(),
    {
        self.status.clone()
    }
}

} // verus!
