//! Walks a table: an iterator over the index block, and under it an
//! iterator over the data block at which the index iterator stands.

use crate::obj::options::ReadOptions;
use crate::obj::slice::Slice;
use crate::obj::status_rs::{Status, StatusCode};
use crate::table::block::{Block, BlockIterator};
use crate::table::iterator::{keys_before, moved, stands_at, Iter};
use crate::table::table_model::{
    block_entries, entries_ahead, flat, lemma_entries_ahead_step, lemma_flat_index,
};
use crate::table::iterator_wrapper::IteratorWrapper;
use crate::table::table::{cache_ok, Table};
use crate::unit::filter_policy::FilterPolicy;
use crate::util::bytewise_comparator_impl::bytes_three_way;
use crate::util::cache::ShardedLRUCache;
use crate::util::comparator::Comparator;
use crate::util::random_access_file::RandomAccessFile;
use vstd::prelude::*;

verus! {

/// An iterator over all entries of a table.
pub struct TwoLevelIterator<F: RandomAccessFile, C: Comparator + Copy, P: FilterPolicy> {
    arg: Table<F, C, P>,
    cache: Option<ShardedLRUCache<Block>>,
    read_options: ReadOptions,
    status: Status,
    index_iter_: IteratorWrapper<BlockIterator<C>>,
    data_iter_: IteratorWrapper<BlockIterator<C>>,
    /// The handle of the data block that `data_iter_` walks.
    data_block_handle_: Vec<u8>,
}

impl<F: RandomAccessFile, C: Comparator + Copy, P: FilterPolicy> TwoLevelIterator<F, C, P> {
    /// The order of the keys.
    pub open spec fn order(&self) -> C {
        self.table().order()
    }

    /// The table that the iterator walks.
    pub closed spec fn table(&self) -> Table<F, C, P> {
        self.arg
    }

    /// The block cache through which the iterator reads.
    pub closed spec fn spec_cache(&self) -> Option<ShardedLRUCache<Block>> {
        self.cache
    }

    /// The options with which the iterator reads.
    pub closed spec fn spec_read_options(&self) -> ReadOptions {
        self.read_options
    }

    /// Whether the index iterator, the data iterator or a data iterator
    /// that left has met an error.
    spec fn spec_failed(&self) -> bool {
        ||| self.index().failed()
        ||| self.data_iter_.inner() is Some && self.data().failed()
        ||| self.status_bad()
    }

    spec fn status_bad(&self) -> bool {
        self.status.spec_code() != StatusCode::Kok
    }

    spec fn verify(&self) -> bool {
        self.read_options.verify_checksums
    }

    spec fn index(&self) -> BlockIterator<C> {
        self.index_iter_.inner().unwrap()
    }

    spec fn data(&self) -> BlockIterator<C> {
        self.data_iter_.inner().unwrap()
    }

    spec fn blocks(&self) -> Seq<Seq<(Seq<u8>, Seq<u8>)>> {
        self.arg.data_blocks(self.verify())
    }

    /// The table is in order, the cache holds its blocks as they are, no
    /// error was met, and the index iterator walks the index block.
    spec fn grounded(&self) -> bool {
        &&& self.arg.in_order(self.verify())
        &&& self.arg.cache_agrees(self.cache, self.verify())
        &&& !self.status_bad()
        &&& self.index_iter_.inner() is Some
        &&& self.index().is_sound()
        &&& self.index().pairs() == self.arg.index_entries()
        &&& self.index().order() == self.arg.order()
    }

    /// The data iterator walks the data block whose handle is kept.
    spec fn tied(&self) -> bool {
        self.data_iter_.inner() is Some ==> {
            &&& self.data().is_sound()
            &&& self.data().order() == self.arg.order()
            &&& match self.arg.data_bytes(self.data_block_handle_@, self.verify()) {
                Some(bytes) => self.data().pairs() == block_entries(bytes),
                None => false,
            }
        }
    }

    /// The handle kept is that of the data block at which the index
    /// iterator stands, and there is a data iterator exactly where the
    /// index iterator stands at an entry.
    spec fn placed(&self) -> bool {
        &&& self.data_iter_.inner() is Some ==> self.index().spec_valid()
            && self.data_block_handle_@ == self.arg.index_entries()[self.index().place()].1
        &&& self.data_iter_.inner() is None ==> !self.index().spec_valid()
    }

    spec fn all_sound(&self) -> bool {
        self.grounded() && self.tied() && self.placed()
    }

    /// The index among all entries of the entry at which the iterator
    /// stands.
    spec fn place(&self) -> int {
        entries_ahead(self.blocks(), self.index().place()) + self.data().place()
    }

    /// The index among all entries of the entry at which the iterator
    /// stands or, where the data iterator stands behind the last entry of
    /// its block, of the first entry behind that block.
    spec fn place_ahead(&self) -> int {
        if self.data_iter_.inner() is None {
            self.arg.all_entries(self.verify()).len() as int
        } else if self.data().spec_valid() {
            self.place()
        } else {
            entries_ahead(self.blocks(), self.index().place() + 1) as int
        }
    }

    /// The index among all entries of the entry at which the iterator
    /// stands or, where the data iterator stands before the first entry of
    /// its block, of the last entry before that block.
    spec fn place_behind(&self) -> int {
        if self.data_iter_.inner() is None {
            -1
        } else if self.data().spec_valid() {
            self.place()
        } else {
            entries_ahead(self.blocks(), self.index().place()) - 1
        }
    }

    /// Whether the iterator stands at the `n`-th of all entries, or at
    /// none where `n` is not the index of one.
    spec fn lands(&self, n: int) -> bool {
        if 0 <= n < self.arg.all_entries(self.verify()).len() {
            self.data_iter_.spec_valid() && self.place() == n
        } else {
            !self.data_iter_.spec_valid()
        }
    }

    /// The data iterator of a sound iterator walks the block at which the
    /// index iterator stands, and where both stand at an entry, the
    /// iterator stands at one of all entries.
    proof fn lemma_place(&self)
        requires
            self.parts_ok(),
            self.all_sound(),
        ensures
            self.data_iter_.inner() is Some ==> {
                &&& 0 <= self.index().place() < self.blocks().len()
                &&& self.blocks().len() == self.arg.index_entries().len()
                &&& self.data().pairs() == self.blocks()[self.index().place()]
            },
            self.data_iter_.spec_valid() ==> {
                &&& self.data_iter_.inner() is Some
                &&& 0 <= self.data().place() < self.data().pairs().len()
                &&& 0 <= self.place() < self.arg.all_entries(self.verify()).len()
                &&& self.arg.all_entries(self.verify())[self.place()] == self.data().pairs()[self.data().place()]
                &&& self.data().spec_key() == self.data().pairs()[self.data().place()].0
                &&& self.data().spec_value() == self.data().pairs()[self.data().place()].1
            },
    {
        self.data_iter_.lemma_inv();
        self.index_iter_.lemma_inv();
        if self.data_iter_.inner() is Some {
            self.index().lemma_position();
            if self.data_iter_.spec_valid() {
                self.data().lemma_position();
                lemma_flat_index(self.blocks(), self.index().place(), self.data().place());
            }
        }
    }

    spec fn index_ahead(&self) -> nat {
        if self.index_iter_.spec_valid() {
            self.index_iter_.inner().unwrap().ahead() + 1
        } else {
            0
        }
    }

    spec fn index_behind(&self) -> nat {
        if self.index_iter_.spec_valid() {
            self.index_iter_.inner().unwrap().behind() + 1
        } else {
            0
        }
    }

    spec fn data_ahead(&self) -> nat {
        if self.data_iter_.spec_valid() {
            self.data_iter_.inner().unwrap().ahead()
        } else {
            0
        }
    }

    spec fn data_behind(&self) -> nat {
        if self.data_iter_.spec_valid() {
            self.data_iter_.inner().unwrap().behind()
        } else {
            0
        }
    }

    spec fn parts_ok(&self) -> bool {
        &&& cache_ok(self.cache)
        &&& self.index_iter_.inv()
        &&& self.index_iter_.inner() is Some
        &&& forall|t: Seq<u8>|
            self.index_iter_.inner().unwrap().seekable(t) == self.arg.order().accepts(t)
        &&& self.data_iter_.inv()
        &&& self.data_iter_.inner() is Some ==> forall|t: Seq<u8>|
            self.data_iter_.inner().unwrap().seekable(t) == self.arg.order().accepts(t)
    }

    /// What soundness says of the table and of the cache.
    pub proof fn lemma_sound(&self)
        requires
            self.sound(),
        ensures
            self.table().in_order(self.spec_read_options().verify_checksums),
            self.table().cache_agrees(
                self.spec_cache(),
                self.spec_read_options().verify_checksums,
            ),
    {
    }

    /// An iterator over the entries of `table`, which reads data blocks
    /// through `cache`.
    pub fn new(
        table: Table<F, C, P>,
        index_iter: BlockIterator<C>,
        cache: Option<ShardedLRUCache<Block>>,
        read_options: ReadOptions,
    ) -> (it: Self)
        requires
            cache_ok(cache),
            index_iter.inv(),
            index_iter.order() == table.order(),
        ensures
            it.inv(),
            !it.spec_valid(),
            it.order() == table.order(),
            it.table() == table,
            it.spec_cache() == cache,
            it.spec_read_options() == read_options,
            index_iter.opened_on(table.index_bytes()) && table.in_order(
                read_options.verify_checksums,
            ) && table.cache_agrees(cache, read_options.verify_checksums) ==> it.sound(),
    {
        let data_iter: IteratorWrapper<BlockIterator<C>> = IteratorWrapper::new(None);
        proof {
            data_iter.lemma_inv();
            index_iter.lemma_block();
            if !index_iter.spec_valid() {
                index_iter.lemma_not_valid_on_item();
            }
        }
        let index_wrapper = IteratorWrapper::new(Some(index_iter));
        proof {
            index_wrapper.lemma_inv();
        }
        TwoLevelIterator {
            arg: table,
            cache,
            read_options,
            status: Status::ok(),
            index_iter_: index_wrapper,
            data_iter_: data_iter,
            data_block_handle_: Vec::new(),
        }
    }

    /// Gives the table and the cache back.
    pub fn into_parts(self) -> (parts: (Table<F, C, P>, Option<ShardedLRUCache<Block>>))
        requires
            self.inv(),
        ensures
            cache_ok(parts.1),
            parts.0.order() == self.order(),
            parts.0 == self.table(),
            parts.1 == self.spec_cache(),
    {
        (self.arg, self.cache)
    }

    fn save_error(&mut self, s: Status)
        ensures
            final(self).arg == old(self).arg,
            final(self).cache == old(self).cache,
            final(self).index_iter_ == old(self).index_iter_,
            final(self).data_iter_ == old(self).data_iter_,
            final(self).data_block_handle_ == old(self).data_block_handle_,
            final(self).read_options == old(self).read_options,
            final(self).status_bad() == (old(self).status_bad() || s.spec_code()
                != StatusCode::Kok),
    {
        if self.status.is_ok() && !s.is_ok() {
            self.status = s;
        }
    }

    /// Puts another data iterator in place and keeps the error of the one
    /// that leaves.
    fn set_data_iterator(&mut self, data_iter: Option<BlockIterator<C>>)
        requires
            old(self).parts_ok(),
            data_iter is Some ==> data_iter.unwrap().inv() && data_iter.unwrap().order() == old(
                self,
            ).arg.order(),
        ensures
            final(self).parts_ok(),
            final(self).arg == old(self).arg,
            final(self).cache == old(self).cache,
            final(self).index_iter_ == old(self).index_iter_,
            final(self).data_iter_.inner() == data_iter,
            final(self).data_block_handle_ == old(self).data_block_handle_,
            final(self).read_options == old(self).read_options,
            final(self).status_bad() == (old(self).status_bad() || (old(self).data_iter_.inner()
                is Some && old(self).data().failed())),
    {
        if self.data_iter_.has_iter() {
            let s = self.data_iter_.status();
            self.save_error(s);
        }
        self.data_iter_.set(data_iter);
    }

    /// Puts the iterator over the data block at which the index iterator
    /// stands in place, unless it is there already.
    fn init_data_block(&mut self)
        requires
            old(self).parts_ok(),
        ensures
            final(self).parts_ok(),
            final(self).arg == old(self).arg,
            final(self).read_options == old(self).read_options,
            final(self).index_iter_ == old(self).index_iter_,
            !final(self).index_iter_.spec_valid() ==> final(self).data_iter_.inner() is None,
            old(self).spec_failed() ==> final(self).spec_failed(),
            old(self).grounded() && old(self).tied() ==> {
                ||| final(self).spec_failed()
                ||| final(self).all_sound() && final(self).data_iter_ == old(self).data_iter_
                ||| final(self).all_sound() && !final(self).data_iter_.spec_valid()
            },
            old(self).grounded() && old(self).tied() && old(self).arg.steady()
                ==> !final(self).spec_failed(),
    {
        proof {
            self.index_iter_.lemma_inv();
            self.data_iter_.lemma_inv();
        }
        if !self.index_iter_.valid() {
            self.set_data_iterator(None);
            proof {
                self.data_iter_.lemma_inv();
            }
        } else {
            let handle = self.index_iter_.value();
            proof {
                if self.grounded() {
                    self.index().lemma_position();
                }
            }
            if self.data_iter_.has_iter() && bytes_three_way(
                handle.data(),
                self.data_block_handle_.as_slice(),
            ) == 0 {
            } else {
                let ghost before = self.cache;
                let iter = self.arg.block_reader(&self.read_options, handle.data(), &mut self.cache);
                proof {
                    if old(self).grounded() {
                        let i = self.index().place();
                        assert(self.arg.block_good(i, self.verify()));
                        self.arg.lemma_block_read(before, self.cache, self.read_options, iter, i);
                        iter.lemma_block();
                        iter.lemma_not_valid_on_item();
                    }
                }
                self.data_block_handle_ = vstd::slice::slice_to_vec(handle.data());
                self.set_data_iterator(Some(iter));
                proof {
                    self.data_iter_.lemma_inv();
                }
            }
        }
    }

    /// Moves on to the first entry of the next data block that has one, as
    /// long as the data iterator stands at no entry.
    fn skip_empty_data_blocks_forward(&mut self)
        requires
            old(self).parts_ok(),
        ensures
            final(self).parts_ok(),
            final(self).arg == old(self).arg,
            final(self).read_options == old(self).read_options,
            final(self).data_iter_.spec_valid() ==> (final(self).data_iter_ == old(self).data_iter_
                && final(self).index_iter_ == old(self).index_iter_) || final(self).index_ahead()
                < old(self).index_ahead(),
            old(self).spec_failed() ==> final(self).spec_failed(),
            old(self).all_sound() ==> final(self).spec_failed() || (final(self).all_sound()
                && final(self).lands(old(self).place_ahead())),
            old(self).all_sound() && old(self).arg.steady() ==> !final(self).spec_failed(),
    {
        proof {
            if self.all_sound() {
                self.lemma_place();
                self.lemma_place_ahead();
            }
        }
        while !self.data_iter_.has_iter() || !self.data_iter_.valid()
            invariant
                self.parts_ok(),
                self.arg == old(self).arg,
                self.read_options == old(self).read_options,
                (self.data_iter_ == old(self).data_iter_ && self.index_iter_ == old(
                    self,
                ).index_iter_) || self.index_ahead() < old(self).index_ahead() || (
                !self.index_iter_.spec_valid() && self.data_iter_.inner() is None),
                self.index_ahead() <= old(self).index_ahead(),
                old(self).spec_failed() ==> self.spec_failed(),
                old(self).all_sound() ==> self.spec_failed() || (self.all_sound()
                    && self.place_ahead() == old(self).place_ahead()),
                old(self).all_sound() && old(self).arg.steady() ==> !self.spec_failed(),
                old(self).all_sound() && !self.spec_failed() ==> 0 <= self.place_ahead()
                    <= self.arg.all_entries(self.verify()).len(),
            decreases self.index_ahead(),
        {
            proof {
                self.index_iter_.lemma_inv();
                self.data_iter_.lemma_inv();
            }
            if !self.index_iter_.valid() {
                let ghost before = *self;
                self.set_data_iterator(None);
                proof {
                    self.data_iter_.lemma_inv();
                }
                return ;
            }
            let ghost before = *self;
            self.index_iter_.next();
            let ghost stepped = *self;
            self.init_data_block();
            let ghost opened = *self;
            if self.data_iter_.has_iter() {
                self.data_iter_.seek_to_first();
            }
            proof {
                self.data_iter_.lemma_inv();
                self.index_iter_.lemma_inv();
                if old(self).all_sound() && !before.spec_failed() && !self.spec_failed() {
                    before.lemma_place();
                    before.lemma_stepped(&stepped, &opened, self, 1);
                }
            }
        }
        proof {
            self.data_iter_.lemma_inv();
            if old(self).all_sound() && !self.spec_failed() {
                self.lemma_place();
            }
        }
    }

    /// Moves back to the last entry of the nearest data block before that
    /// has one, as long as the data iterator stands at no entry.
    fn skip_empty_data_blocks_backward(&mut self)
        requires
            old(self).parts_ok(),
        ensures
            final(self).parts_ok(),
            final(self).arg == old(self).arg,
            final(self).read_options == old(self).read_options,
            final(self).data_iter_.spec_valid() ==> (final(self).data_iter_ == old(self).data_iter_
                && final(self).index_iter_ == old(self).index_iter_) || final(self).index_behind()
                < old(self).index_behind(),
            old(self).spec_failed() ==> final(self).spec_failed(),
            old(self).all_sound() ==> final(self).spec_failed() || (final(self).all_sound()
                && final(self).lands(old(self).place_behind())),
            old(self).all_sound() && old(self).arg.steady() ==> !final(self).spec_failed(),
    {
        proof {
            if self.all_sound() {
                self.lemma_place();
                self.lemma_place_ahead();
            }
        }
        while !self.data_iter_.has_iter() || !self.data_iter_.valid()
            invariant
                self.parts_ok(),
                self.arg == old(self).arg,
                self.read_options == old(self).read_options,
                (self.data_iter_ == old(self).data_iter_ && self.index_iter_ == old(
                    self,
                ).index_iter_) || self.index_behind() < old(self).index_behind() || (
                !self.index_iter_.spec_valid() && self.data_iter_.inner() is None),
                self.index_behind() <= old(self).index_behind(),
                old(self).spec_failed() ==> self.spec_failed(),
                old(self).all_sound() ==> self.spec_failed() || (self.all_sound()
                    && self.place_behind() == old(self).place_behind()),
                old(self).all_sound() && old(self).arg.steady() ==> !self.spec_failed(),
                old(self).all_sound() && !self.spec_failed() ==> -1 <= self.place_behind()
                    < self.arg.all_entries(self.verify()).len(),
            decreases self.index_behind(),
        {
            proof {
                self.index_iter_.lemma_inv();
                self.data_iter_.lemma_inv();
            }
            if !self.index_iter_.valid() {
                self.set_data_iterator(None);
                proof {
                    self.data_iter_.lemma_inv();
                }
                return ;
            }
            let ghost before = *self;
            self.index_iter_.prev();
            let ghost stepped = *self;
            self.init_data_block();
            let ghost opened = *self;
            if self.data_iter_.has_iter() {
                self.data_iter_.seek_to_last();
            }
            proof {
                self.data_iter_.lemma_inv();
                self.index_iter_.lemma_inv();
                if old(self).all_sound() && !before.spec_failed() && !self.spec_failed() {
                    before.lemma_place();
                    before.lemma_stepped(&stepped, &opened, self, -1);
                }
            }
        }
        proof {
            self.data_iter_.lemma_inv();
            if old(self).all_sound() && !self.spec_failed() {
                self.lemma_place();
            }
        }
    }

    /// Where a sound iterator stands, counted from the front and from the
    /// back, lies among all entries or just outside them.
    proof fn lemma_place_ahead(&self)
        requires
            self.parts_ok(),
            self.all_sound(),
        ensures
            0 <= self.place_ahead() <= self.arg.all_entries(self.verify()).len(),
            -1 <= self.place_behind() < self.arg.all_entries(self.verify()).len(),
            self.data_iter_.spec_valid() ==> self.lands(self.place_ahead()) && self.lands(
                self.place_behind(),
            ),
    {
        self.lemma_place();
        self.data_iter_.lemma_inv();
        if self.data_iter_.inner() is Some {
            let i = self.index().place();
            lemma_entries_ahead_step(self.blocks(), i);
            crate::table::table_model::lemma_flat_prefix(self.blocks(), i + 1);
            crate::table::table_model::lemma_flat_prefix(self.blocks(), i);
        }
    }

    /// The index iterator of a sound iterator was moved, the data iterator
    /// of the block at which it then stands was put in place, and that was
    /// moved; no error was met.  The iterator is then sound.
    proof fn lemma_reopened(&self, sought: &Self, opened: &Self, after: &Self)
        requires
            self.parts_ok(),
            sought.parts_ok(),
            opened.parts_ok(),
            after.parts_ok(),
            self.all_sound(),
            sought.arg == self.arg && opened.arg == self.arg && after.arg == self.arg,
            sought.read_options == self.read_options && opened.read_options == self.read_options
                && after.read_options == self.read_options,
            sought.cache == self.cache,
            sought.status == self.status,
            sought.data_iter_ == self.data_iter_,
            sought.data_block_handle_ == self.data_block_handle_,
            moved(self.index(), sought.index()),
            opened.index_iter_ == sought.index_iter_,
            sought.grounded() && sought.tied() ==> {
                ||| opened.spec_failed()
                ||| opened.all_sound() && opened.data_iter_ == sought.data_iter_
                ||| opened.all_sound() && !opened.data_iter_.spec_valid()
            },
            after.index_iter_ == opened.index_iter_,
            after.cache == opened.cache,
            after.status == opened.status,
            after.data_block_handle_ == opened.data_block_handle_,
            opened.data_iter_.inner() is None ==> after.data_iter_ == opened.data_iter_,
            opened.data_iter_.inner() is Some ==> after.data_iter_.inner() is Some && moved(
                opened.data(),
                after.data(),
            ),
            !after.spec_failed(),
        ensures
            after.all_sound(),
            opened.all_sound(),
            after.index() == sought.index(),
            sought.index().is_sound(),
            sought.index().pairs() == self.arg.index_entries(),
            after.data_iter_.inner() is Some ==> opened.data_iter_.inner() is Some
                && opened.data().is_sound() && after.data().is_sound() && after.data().pairs()
                == self.blocks()[after.index().place()] && after.index().spec_valid(),
            after.data_iter_.inner() is None ==> !after.index().spec_valid(),
            self.blocks().len() == self.arg.index_entries().len(),
            flat(self.blocks().take(0)).len() == 0,
            self.blocks().len() == 0 ==> self.arg.all_entries(self.verify()).len() == 0,
    {
        self.index_iter_.lemma_inv();
        sought.index_iter_.lemma_inv();
        sought.data_iter_.lemma_inv();
        opened.data_iter_.lemma_inv();
        opened.index_iter_.lemma_inv();
        after.data_iter_.lemma_inv();
        assert(sought.grounded());
        assert(sought.tied());
        assert(opened.all_sound());
        assert(after.all_sound());
        after.lemma_place();
        assert(self.blocks().take(0) =~= Seq::empty());
        if self.blocks().len() == 0 {
            assert(self.blocks() =~= Seq::empty());
        }
    }

    /// One round of skipping: from a data iterator that stands at no entry
    /// of its block, the index iterator moved one block on (`step` 1) or
    /// back (`step` -1), the data iterator of that block was put in place
    /// and moved to the first or the last entry of the block.  The place
    /// counted from the front or from the back is then what it was.
    proof fn lemma_stepped(&self, stepped: &Self, opened: &Self, after: &Self, step: int)
        requires
            step == 1 || step == -1,
            self.parts_ok(),
            stepped.parts_ok(),
            opened.parts_ok(),
            after.parts_ok(),
            self.all_sound(),
            self.data_iter_.inner() is Some,
            !self.data_iter_.spec_valid(),
            stepped.arg == self.arg && opened.arg == self.arg && after.arg == self.arg,
            stepped.read_options == self.read_options && opened.read_options == self.read_options
                && after.read_options == self.read_options,
            stepped.cache == self.cache,
            stepped.status == self.status,
            stepped.data_iter_ == self.data_iter_,
            stepped.data_block_handle_ == self.data_block_handle_,
            moved(self.index(), stepped.index()),
            self.index().is_sound() && stepped.index().is_sound() ==> stands_at(
                stepped.index(),
                self.index().place() + step,
            ),
            opened.index_iter_ == stepped.index_iter_,
            stepped.grounded() && stepped.tied() ==> {
                ||| opened.spec_failed()
                ||| opened.all_sound() && opened.data_iter_ == stepped.data_iter_
                ||| opened.all_sound() && !opened.data_iter_.spec_valid()
            },
            after.index_iter_ == opened.index_iter_,
            after.cache == opened.cache,
            after.status == opened.status,
            after.data_block_handle_ == opened.data_block_handle_,
            opened.data_iter_.inner() is None ==> after.data_iter_ == opened.data_iter_,
            opened.data_iter_.inner() is Some ==> after.data_iter_.inner() is Some && moved(
                opened.data(),
                after.data(),
            ) && (opened.data().is_sound() && after.data().is_sound() ==> stands_at(
                after.data(),
                if step == 1 {
                    0
                } else {
                    after.data().pairs().len() - 1
                },
            )),
            !after.spec_failed(),
        ensures
            after.all_sound(),
            step == 1 ==> after.place_ahead() == self.place_ahead(),
            step == -1 ==> after.place_behind() == self.place_behind(),
            0 <= after.place_ahead() <= self.arg.all_entries(self.verify()).len(),
            -1 <= after.place_behind() < self.arg.all_entries(self.verify()).len(),
    {
        self.lemma_place();
        self.index_iter_.lemma_inv();
        stepped.index_iter_.lemma_inv();
        stepped.data_iter_.lemma_inv();
        opened.data_iter_.lemma_inv();
        opened.index_iter_.lemma_inv();
        after.data_iter_.lemma_inv();
        let blocks = self.blocks();
        let i = self.index().place();
        lemma_entries_ahead_step(blocks, i);
        assert(stepped.grounded());
        assert(stepped.tied());
        assert(opened.all_sound());
        if opened.data_iter_.inner() is Some {
            opened.lemma_place();
            assert(after.all_sound());
            after.lemma_place();
            after.lemma_place_ahead();
            let k = i + step;
            lemma_entries_ahead_step(blocks, k);
        } else {
            assert(after.all_sound());
            if step == 1 {
                assert(i + 1 == blocks.len());
            } else {
                assert(i == 0);
            }
        }
    }
}

impl<F: RandomAccessFile, C: Comparator + Copy, P: FilterPolicy> Table<F, C, P> {
    /// An iterator over all entries of the table, which reads data blocks
    /// through `cache`.  It stands at no entry until it is told to seek.
    pub fn new_iterator(self, cache: Option<ShardedLRUCache<Block>>, options: ReadOptions) -> (it:
        TwoLevelIterator<F, C, P>)
        requires
            cache_ok(cache),
        ensures
            it.inv(),
            !it.spec_valid(),
            it.order() == self.order(),
            it.table() == self,
            it.spec_cache() == cache,
            it.spec_read_options() == options,
            self.in_order(options.verify_checksums) && self.cache_agrees(
                cache,
                options.verify_checksums,
            ) ==> it.sound(),
    {
        let index_iter = self.index_iterator();
        TwoLevelIterator::new(self, index_iter, cache, options)
    }
}

impl<F: RandomAccessFile, C: Comparator + Copy, P: FilterPolicy> Iter for TwoLevelIterator<
    F,
    C,
    P,
> {
    type Order = C;

    closed spec fn inv(&self) -> bool {
        self.parts_ok()
    }

    open spec fn order(&self) -> C {
        self.table().order()
    }

    /// The table is in order, the cache holds its blocks as they are, no
    /// error was met, and the iterators over the index block and over the
    /// data block stand where the iterator stands.
    closed spec fn sound(&self) -> bool {
        self.all_sound()
    }

    /// The entries of the table; see [`Table::all_entries`].
    open spec fn entries(&self) -> Seq<(Seq<u8>, Seq<u8>)> {
        self.table().all_entries(self.spec_read_options().verify_checksums)
    }

    closed spec fn position(&self) -> int {
        self.place()
    }

    closed spec fn failed(&self) -> bool {
        self.spec_failed()
    }

    open spec fn lenient(&self) -> bool {
        false
    }

    /// No read of a block that the file of the table holds fails.
    open spec fn steady(&self) -> bool {
        self.table().steady()
    }

    proof fn lemma_position(&self) {
        self.lemma_place();
        self.index_iter_.lemma_inv();
        self.data_iter_.lemma_inv();
    }

    closed spec fn spec_valid(&self) -> bool {
        self.data_iter_.spec_valid()
    }

    closed spec fn spec_key(&self) -> Seq<u8> {
        self.data_iter_.spec_key()
    }

    closed spec fn spec_value(&self) -> Seq<u8> {
        self.data_iter_.inner().unwrap().spec_value()
    }

    open spec fn seekable(&self, target: Seq<u8>) -> bool {
        self.table().order().accepts(target)
    }

    closed spec fn ahead(&self) -> nat {
        self.index_ahead() * 0x1_0000_0000_0000_0000 + self.data_ahead()
    }

    closed spec fn behind(&self) -> nat {
        self.index_behind() * 0x1_0000_0000_0000_0000 + self.data_behind()
    }

    fn valid(&self) -> (b: bool) {
        self.data_iter_.valid()
    }

    /// Moves to the first entry of the first data block that has one.
    fn seek_to_first(&mut self)
        ensures
            final(self).table() == old(self).table(),
            final(self).spec_read_options() == old(self).spec_read_options(),
    {
        proof {
            self.index_iter_.lemma_inv();
            self.data_iter_.lemma_inv();
        }
        self.index_iter_.seek_to_first();
        let ghost sought = *self;
        self.init_data_block();
        let ghost opened = *self;
        if self.data_iter_.has_iter() {
            self.data_iter_.seek_to_first();
        }
        proof {
            if old(self).all_sound() && !self.spec_failed() {
                old(self).lemma_reopened(&sought, &opened, self);
                self.lemma_place_ahead();
                if self.data_iter_.inner() is Some {
                    lemma_entries_ahead_step(self.blocks(), 0);
                }
                assert(self.place_ahead() == 0);
            }
        }
        self.skip_empty_data_blocks_forward();
    }

    /// Moves to the last entry of the last data block that has one.
    fn seek_to_last(&mut self)
        ensures
            final(self).table() == old(self).table(),
            final(self).spec_read_options() == old(self).spec_read_options(),
    {
        proof {
            self.index_iter_.lemma_inv();
            self.data_iter_.lemma_inv();
        }
        self.index_iter_.seek_to_last();
        let ghost sought = *self;
        self.init_data_block();
        let ghost opened = *self;
        if self.data_iter_.has_iter() {
            self.data_iter_.seek_to_last();
        }
        proof {
            if old(self).all_sound() && !self.spec_failed() {
                old(self).lemma_reopened(&sought, &opened, self);
                self.lemma_place_ahead();
                let blocks = self.blocks();
                if self.data_iter_.inner() is Some {
                    lemma_entries_ahead_step(blocks, blocks.len() - 1);
                }
                assert(self.place_behind() == self.arg.all_entries(self.verify()).len() - 1);
            }
        }
        self.skip_empty_data_blocks_backward();
    }

    /// Moves to the first entry whose key is not before `target`: seeks
    /// in the index block, then in the data block to which that leads, and
    /// moves on to the next block that has an entry where that block has
    /// none for `target`.
    fn seek(&mut self, target: &[u8])
        ensures
            final(self).table() == old(self).table(),
            final(self).spec_read_options() == old(self).spec_read_options(),
    {
        proof {
            self.index_iter_.lemma_inv();
            self.data_iter_.lemma_inv();
        }
        self.index_iter_.seek(target);
        let ghost sought = *self;
        self.init_data_block();
        let ghost opened = *self;
        if self.data_iter_.has_iter() {
            self.data_iter_.seek(target);
        }
        proof {
            if old(self).all_sound() && !self.spec_failed() {
                old(self).lemma_reopened(&sought, &opened, self);
                self.lemma_place_ahead();
                self.arg.lemma_seek_place(self.verify(), target@);
                let blocks = self.blocks();
                let i = keys_before(self.arg.order(), self.arg.index_entries(), target@) as int;
                assert(stands_at(sought.index(), i));
                if self.data_iter_.inner() is Some {
                    self.index_iter_.lemma_inv();
                    self.index().lemma_position();
                    assert(self.index().place() == i);
                    lemma_entries_ahead_step(blocks, i);
                    let j = keys_before(self.arg.order(), blocks[i], target@) as int;
                    assert(stands_at(self.data(), j));
                    crate::table::table_model::lemma_keys_before_bound(
                        self.arg.order(),
                        blocks[i],
                        target@,
                    );
                } else {
                    assert(i >= self.arg.index_entries().len());
                }
                assert(self.place_ahead() == keys_before(
                    self.arg.order(),
                    self.arg.all_entries(self.verify()),
                    target@,
                ));
            }
        }
        self.skip_empty_data_blocks_forward();
    }

    /// Moves to the next entry of the data block or, behind its last, to
    /// the first entry of the next data block that has one.
    fn next(&mut self)
        ensures
            final(self).table() == old(self).table(),
            final(self).spec_read_options() == old(self).spec_read_options(),
    {
        proof {
            self.data_iter_.lemma_inv();
            self.index_iter_.lemma_inv();
            self.data_iter_.inner().unwrap().lemma_measures();
            if self.all_sound() {
                self.lemma_place();
            }
        }
        self.data_iter_.next();
        proof {
            self.data_iter_.lemma_inv();
            if old(self).all_sound() && !self.spec_failed() {
                lemma_entries_ahead_step(self.blocks(), self.index().place());
                assert(self.all_sound());
                assert(self.place_ahead() == old(self).place() + 1);
            }
        }
        self.skip_empty_data_blocks_forward();
        proof {
            self.data_iter_.lemma_inv();
            if self.data_iter_.spec_valid() {
                self.data_iter_.inner().unwrap().lemma_measures();
            }
        }
    }

    /// Moves to the entry before in the data block or, before its first,
    /// to the last entry of the nearest data block before that has one.
    fn prev(&mut self)
        ensures
            final(self).table() == old(self).table(),
            final(self).spec_read_options() == old(self).spec_read_options(),
    {
        proof {
            self.data_iter_.lemma_inv();
            self.index_iter_.lemma_inv();
            self.data_iter_.inner().unwrap().lemma_measures();
            if self.all_sound() {
                self.lemma_place();
            }
        }
        self.data_iter_.prev();
        proof {
            self.data_iter_.lemma_inv();
            if old(self).all_sound() && !self.spec_failed() {
                assert(self.all_sound());
                assert(self.place_behind() == old(self).place() - 1);
            }
        }
        self.skip_empty_data_blocks_backward();
        proof {
            self.data_iter_.lemma_inv();
            if self.data_iter_.spec_valid() {
                self.data_iter_.inner().unwrap().lemma_measures();
            }
        }
    }

    fn key(&self) -> (k: Slice) {
        self.data_iter_.key()
    }

    fn value(&self) -> (v: Slice) {
        self.data_iter_.value()
    }

    /// The error of the index iterator, else that of the data iterator,
    /// else the first error of a data iterator that left.
    fn status(&self) -> (s: Status) {
        let index_status = self.index_iter_.status();
        if !index_status.is_ok() {
            return index_status;
        }
        if self.data_iter_.has_iter() {
            let data_status = self.data_iter_.status();
            if !data_status.is_ok() {
                return data_status;
            }
        }
        self.status.clone()
    }
}

} // verus!
