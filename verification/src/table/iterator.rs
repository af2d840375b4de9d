//! The interface of everything that walks key/value entries in order.

use crate::obj::slice::Slice;
use crate::obj::status_rs::{Status, StatusCode};
use crate::util::bytewise_comparator_impl::BytewiseComparatorImpl;
use crate::util::comparator::Comparator;
use vstd::prelude::*;

verus! {

/// The count of entries at the front of `entries` whose keys come before
/// `target`.
pub open spec fn keys_before<C: Comparator>(
    order: C,
    entries: Seq<(Seq<u8>, Seq<u8>)>,
    target: Seq<u8>,
) -> nat
    decreases entries.len(),
{
    if entries.len() == 0 || !order.less(entries[0].0, target) {
        0
    } else {
        1 + keys_before(order, entries.skip(1), target)
    }
}

/// A cursor over a sorted run of key/value entries.
pub trait Iter: Sized {
    /// The order of the keys.
    type Order: Comparator;

    /// What the iterator relies on between calls.
    spec fn inv(&self) -> bool;

    /// Whether the iterator stands at an entry.
    spec fn spec_valid(&self) -> bool;

    /// The key of the entry at which the iterator stands.
    spec fn spec_key(&self) -> Seq<u8>;

    /// The value of the entry at which the iterator stands.
    spec fn spec_value(&self) -> Seq<u8>;

    /// The keys that the iterator can be told to seek.
    spec fn seekable(&self, target: Seq<u8>) -> bool;

    /// A bound on the number of entries behind the one at which the
    /// iterator stands.
    spec fn ahead(&self) -> nat;

    /// A bound on the number of entries before the one at which the
    /// iterator stands.
    spec fn behind(&self) -> nat;

    /// The order of the keys.
    spec fn order(&self) -> Self::Order;

    /// Whether the iterator walks entries that are in order, stands
    /// among them where it is valid, and has met no error.  What is said
    /// of where the iterator stands is said of a sound iterator.
    spec fn sound(&self) -> bool;

    /// The entries that a sound iterator walks, in their order.
    spec fn entries(&self) -> Seq<(Seq<u8>, Seq<u8>)>;

    /// The index among the entries of the one at which a sound iterator
    /// stands, where it is valid.
    spec fn position(&self) -> int;

    /// Whether the status of the iterator is an error.
    spec fn failed(&self) -> bool;

    /// Whether the iterator may be told to step, and asked for key and
    /// value, while it stands at no entry.
    spec fn lenient(&self) -> bool;

    /// Whether no move of a sound iterator meets an error: nothing that it
    /// reads can fail.
    spec fn steady(&self) -> bool;

    /// A sound iterator has met no error, and where it is valid it stands
    /// at one of its entries, whose key and value are those that it gives.
    proof fn lemma_position(&self)
        requires
            self.inv(),
            self.sound(),
        ensures
            !self.failed(),
            self.spec_valid() ==> 0 <= self.position() < self.entries().len(),
            self.spec_valid() ==> self.spec_key() == self.entries()[self.position()].0,
            self.spec_valid() ==> self.spec_value() == self.entries()[self.position()].1,
    ;

    fn valid(&self) -> (b: bool)
        requires
            self.inv(),
        ensures
            b == self.spec_valid(),
    ;

    /// Moves to the first entry; the iterator is valid after it unless
    /// there is none.
    fn seek_to_first(&mut self)
        requires
            old(self).inv(),
        ensures
            final(self).inv(),
            forall|t: Seq<u8>| final(self).seekable(t) == old(self).seekable(t),
            old(self).failed() ==> final(self).failed(),
            old(self).sound() ==> {
                &&& final(self).entries() == old(self).entries()
                &&& final(self).order() == old(self).order()
                &&& final(self).sound() || final(self).failed()
                &&& old(self).steady() ==> final(self).sound() && final(self).steady()
            },
            old(self).sound() && final(self).sound() ==> if 0 <= 0 < final(self).entries().len() {
                final(self).spec_valid() && final(self).position() == 0
            } else {
                !final(self).spec_valid()
            },
    ;

    /// Moves to the last entry; the iterator is valid after it unless there
    /// is none.
    fn seek_to_last(&mut self)
        requires
            old(self).inv(),
        ensures
            final(self).inv(),
            forall|t: Seq<u8>| final(self).seekable(t) == old(self).seekable(t),
            old(self).failed() ==> final(self).failed(),
            old(self).sound() ==> {
                &&& final(self).entries() == old(self).entries()
                &&& final(self).order() == old(self).order()
                &&& final(self).sound() || final(self).failed()
                &&& old(self).steady() ==> final(self).sound() && final(self).steady()
            },
            old(self).sound() && final(self).sound() ==> if final(self).entries().len() > 0 {
                final(self).spec_valid() && final(self).position() == final(self).entries().len()
                    - 1
            } else {
                !final(self).spec_valid()
            },
    ;

    /// Moves to the first entry whose key is at or behind `target`; the
    /// iterator is valid after it unless there is none.
    fn seek(&mut self, target: &[u8])
        requires
            old(self).inv(),
            old(self).seekable(target@),
        ensures
            final(self).inv(),
            forall|t: Seq<u8>| final(self).seekable(t) == old(self).seekable(t),
            old(self).failed() ==> final(self).failed(),
            old(self).sound() ==> {
                &&& final(self).entries() == old(self).entries()
                &&& final(self).order() == old(self).order()
                &&& final(self).sound() || final(self).failed()
                &&& old(self).steady() ==> final(self).sound() && final(self).steady()
            },
            old(self).sound() && final(self).sound() ==> if keys_before(
                final(self).order(),
                final(self).entries(),
                target@,
            ) < final(self).entries().len() {
                final(self).spec_valid() && final(self).position() == keys_before(
                    final(self).order(),
                    final(self).entries(),
                    target@,
                )
            } else {
                !final(self).spec_valid()
            },
    ;

    /// Moves to the next entry; the iterator is valid after it unless it
    /// stood at the last.
    fn next(&mut self)
        requires
            old(self).inv(),
            old(self).spec_valid() || old(self).lenient(),
        ensures
            final(self).inv(),
            forall|t: Seq<u8>| final(self).seekable(t) == old(self).seekable(t),
            final(self).spec_valid() ==> final(self).ahead() < old(self).ahead(),
            old(self).failed() ==> final(self).failed(),
            old(self).sound() ==> {
                &&& final(self).entries() == old(self).entries()
                &&& final(self).order() == old(self).order()
                &&& final(self).sound() || final(self).failed()
                &&& old(self).steady() ==> final(self).sound() && final(self).steady()
            },
            old(self).sound() && final(self).sound() ==> if 0 <= old(self).position() + 1
                < final(self).entries().len() {
                final(self).spec_valid() && final(self).position() == old(self).position() + 1
            } else {
                !final(self).spec_valid()
            },
    ;

    /// Moves to the entry before; the iterator is valid after it unless it
    /// stood at the first.
    fn prev(&mut self)
        requires
            old(self).inv(),
            old(self).spec_valid() || old(self).lenient(),
        ensures
            final(self).inv(),
            forall|t: Seq<u8>| final(self).seekable(t) == old(self).seekable(t),
            final(self).spec_valid() ==> final(self).behind() < old(self).behind(),
            old(self).failed() ==> final(self).failed(),
            old(self).sound() ==> {
                &&& final(self).entries() == old(self).entries()
                &&& final(self).order() == old(self).order()
                &&& final(self).sound() || final(self).failed()
                &&& old(self).steady() ==> final(self).sound() && final(self).steady()
            },
            old(self).sound() && final(self).sound() ==> if 0 <= old(self).position() - 1
                < final(self).entries().len() {
                final(self).spec_valid() && final(self).position() == old(self).position() - 1
            } else {
                !final(self).spec_valid()
            },
    ;

    fn key(&self) -> (k: Slice)
        requires
            self.inv(),
            self.spec_valid() || self.lenient(),
        ensures
            k@ == self.spec_key(),
    ;

    fn value(&self) -> (v: Slice)
        requires
            self.inv(),
            self.spec_valid() || self.lenient(),
        ensures
            v@ == self.spec_value(),
    ;

    /// `OK`, or the error that the iterator met.
    fn status(&self) -> (s: Status)
        requires
            self.inv(),
        ensures
            (s.spec_code() != StatusCode::Kok) == self.failed(),
    ;
}

/// What every move keeps: an error, and of a sound iterator the entries
/// and the order, and soundness unless the iterator has met an error.
pub open spec fn moved<I: Iter>(before: I, after: I) -> bool {
    &&& before.failed() ==> after.failed()
    &&& before.sound() ==> {
        &&& after.entries() == before.entries()
        &&& after.order() == before.order()
        &&& after.sound() || after.failed()
        &&& before.steady() ==> after.sound() && after.steady()
    }
}

/// Whether an iterator stands at the `n`-th of its entries, or at none
/// where `n` is not the index of one.
pub open spec fn stands_at<I: Iter>(it: I, n: int) -> bool {
    if 0 <= n < it.entries().len() {
        it.spec_valid() && it.position() == n
    } else {
        !it.spec_valid()
    }
}

/// An iterator over nothing, with a status of its own.
#[derive(Debug)]
pub struct EmptyIterator {
    status: Status,
}

impl EmptyIterator {
    pub closed spec fn spec_status_code(&self) -> StatusCode {
        self.status.spec_code()
    }
}

impl Iter for EmptyIterator {
    type Order = BytewiseComparatorImpl;

    open spec fn inv(&self) -> bool {
        true
    }

    open spec fn order(&self) -> BytewiseComparatorImpl {
        BytewiseComparatorImpl {  }
    }

    open spec fn sound(&self) -> bool {
        !self.failed()
    }

    open spec fn entries(&self) -> Seq<(Seq<u8>, Seq<u8>)> {
        Seq::empty()
    }

    open spec fn position(&self) -> int {
        0
    }

    open spec fn failed(&self) -> bool {
        self.spec_status_code() != StatusCode::Kok
    }

    open spec fn lenient(&self) -> bool {
        true
    }

    open spec fn steady(&self) -> bool {
        true
    }

    proof fn lemma_position(&self) {
    }

    open spec fn spec_valid(&self) -> bool {
        false
    }

    open spec fn spec_key(&self) -> Seq<u8> {
        Seq::empty()
    }

    open spec fn spec_value(&self) -> Seq<u8> {
        Seq::empty()
    }

    open spec fn seekable(&self, target: Seq<u8>) -> bool {
        true
    }

    open spec fn ahead(&self) -> nat {
        0
    }

    open spec fn behind(&self) -> nat {
        0
    }

    fn valid(&self) -> (b: bool) {
        false
    }

    fn seek_to_first(&mut self)
        ensures
            *final(self) == *old(self),
    {
    }

    fn seek_to_last(&mut self)
        ensures
            *final(self) == *old(self),
    {
    }

    fn seek(&mut self, target: &[u8])
        ensures
            *final(self) == *old(self),
    {
    }

    fn next(&mut self)
        ensures
            *final(self) == *old(self),
    {
    }

    fn prev(&mut self)
        ensures
            *final(self) == *old(self),
    {
    }

    fn key(&self) -> (k: Slice) {
        Slice::new_empty()
    }

    fn value(&self) -> (v: Slice) {
        Slice::new_empty()
    }

    fn status(&self) -> (s: Status)
        ensures
            s.spec_code() == self.spec_status_code(),
    {
        self.status.clone()
    }
}

/// An iterator over nothing whose status is `OK`.
pub fn new_empty_iterator() -> (it: EmptyIterator)
    ensures
        it.spec_status_code() == StatusCode::Kok,
{
    EmptyIterator { status: Status::ok() }
}

/// An iterator over nothing whose status is `status`.
pub fn new_error_iterator(status: Status) -> (it: EmptyIterator)
    ensures
        it.spec_status_code() == status.spec_code(),
{
    EmptyIterator { status }
}

} // verus!
