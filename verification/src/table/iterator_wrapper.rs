//! Keeps the validity and the key of an iterator at hand.

use crate::obj::slice::Slice;
use crate::obj::status_rs::Status;
use crate::table::iterator::{keys_before, moved, stands_at, Iter};
use vstd::prelude::*;

verus! {

/// An iterator, or none, with its validity and its current key kept at
/// hand so that asking for them costs no call into the iterator.
pub struct IteratorWrapper<I: Iter> {
    iter: Option<I>,
    valid: bool,
    key: Slice,
}

impl<I: Iter> IteratorWrapper<I> {
    /// What is kept at hand is what the iterator says.
    pub closed spec fn inv(&self) -> bool {
        match self.iter {
            Some(it) => it.inv() && self.valid == it.spec_valid() && (self.valid ==> self.key@
                == it.spec_key()),
            None => !self.valid,
        }
    }

    /// The iterator inside.
    pub closed spec fn inner(&self) -> Option<I> {
        self.iter
    }

    pub closed spec fn spec_valid(&self) -> bool {
        self.valid
    }

    /// Whether there is an iterator inside.
    pub fn has_iter(&self) -> (b: bool)
        ensures
            b == self.inner().is_some(),
    {
        self.iter.is_some()
    }

    pub closed spec fn spec_key(&self) -> Seq<u8> {
        self.key@
    }

    /// What `inv` says where there is an iterator.
    pub proof fn lemma_inv(&self)
        requires
            self.inv(),
        ensures
            match self.inner() {
                Some(it) => it.inv() && self.spec_valid() == it.spec_valid() && (self.spec_valid()
                    ==> self.spec_key() == it.spec_key()),
                None => !self.spec_valid(),
            },
    {
    }

    pub fn new(iter: Option<I>) -> (w: Self)
        requires
            iter is Some ==> iter.unwrap().inv(),
        ensures
            w.inv(),
            w.inner() == iter,
    {
        let mut res = IteratorWrapper { iter, valid: false, key: Slice::new_empty() };
        res.update();
        res
    }

    /// Takes validity and key from the iterator.
    pub fn update(&mut self)
        requires
            old(self).inner() is Some ==> old(self).inner().unwrap().inv(),
        ensures
            final(self).inv(),
            final(self).inner() == old(self).inner(),
    {
        match &self.iter {
            Some(it) => {
                self.valid = it.valid();
                if self.valid {
                    self.key = it.key();
                }
            },
            None => {
                self.valid = false;
            },
        }
    }

    /// Puts another iterator, or none, in place.
    pub fn set(&mut self, iter: Option<I>)
        requires
            iter is Some ==> iter.unwrap().inv(),
        ensures
            final(self).inv(),
            final(self).inner() == iter,
    {
        self.iter = iter;
        self.update();
    }

    pub fn valid(&self) -> (b: bool)
        ensures
            b == self.spec_valid(),
    {
        self.valid
    }

    pub fn key(&self) -> (k: Slice)
        requires
            self.spec_valid(),
        ensures
            k@ == self.spec_key(),
    {
        self.key.clone()
    }

    pub fn value(&self) -> (v: Slice)
        requires
            self.inv(),
            self.spec_valid(),
        ensures
            self.inner() is Some,
            v@ == self.inner().unwrap().spec_value(),
    {
        match &self.iter {
            Some(it) => it.value(),
            None => Slice::new_empty(),
        }
    }

    pub fn status(&self) -> (s: Status)
        requires
            self.inv(),
            self.inner() is Some,
        ensures
            (s.spec_code() != crate::obj::status_rs::StatusCode::Kok) == self.inner().unwrap().failed(),
    {
        match &self.iter {
            Some(it) => it.status(),
            None => Status::ok(),
        }
    }

    pub fn next(&mut self)
        requires
            old(self).inv(),
            old(self).spec_valid(),
        ensures
            final(self).inv(),
            final(self).inner() is Some,
            old(self).inner() is Some,
            forall|t: Seq<u8>|
                final(self).inner().unwrap().seekable(t) == old(self).inner().unwrap().seekable(t),
            final(self).spec_valid() ==> final(self).inner().unwrap().ahead() < old(self).inner().unwrap().ahead(),
            moved(old(self).inner().unwrap(), final(self).inner().unwrap()),
            old(self).inner().unwrap().sound() && final(self).inner().unwrap().sound() ==> stands_at(
                final(self).inner().unwrap(),
                old(self).inner().unwrap().position() + 1,
            ),
    {
        match &mut self.iter {
            Some(it) => {
                it.next();
            },
            None => {},
        }
        self.update();
    }

    pub fn prev(&mut self)
        requires
            old(self).inv(),
            old(self).spec_valid(),
        ensures
            final(self).inv(),
            final(self).inner() is Some,
            old(self).inner() is Some,
            forall|t: Seq<u8>|
                final(self).inner().unwrap().seekable(t) == old(self).inner().unwrap().seekable(t),
            final(self).spec_valid() ==> final(self).inner().unwrap().behind() < old(self).inner().unwrap().behind(),
            moved(old(self).inner().unwrap(), final(self).inner().unwrap()),
            old(self).inner().unwrap().sound() && final(self).inner().unwrap().sound() ==> stands_at(
                final(self).inner().unwrap(),
                old(self).inner().unwrap().position() - 1,
            ),
    {
        match &mut self.iter {
            Some(it) => {
                it.prev();
            },
            None => {},
        }
        self.update();
    }

    pub fn seek(&mut self, target: &[u8])
        requires
            old(self).inv(),
            old(self).inner() is Some,
            old(self).inner().unwrap().seekable(target@),
        ensures
            final(self).inv(),
            final(self).inner() is Some,
            forall|t: Seq<u8>|
                final(self).inner().unwrap().seekable(t) == old(self).inner().unwrap().seekable(t),
            moved(old(self).inner().unwrap(), final(self).inner().unwrap()),
            old(self).inner().unwrap().sound() && final(self).inner().unwrap().sound() ==> stands_at(
                final(self).inner().unwrap(),
                keys_before(
                    final(self).inner().unwrap().order(),
                    final(self).inner().unwrap().entries(),
                    target@,
                ) as int,
            ),
    {
        match &mut self.iter {
            Some(it) => {
                it.seek(target);
            },
            None => {},
        }
        self.update();
    }

    pub fn seek_to_first(&mut self)
        requires
            old(self).inv(),
            old(self).inner() is Some,
        ensures
            final(self).inv(),
            final(self).inner() is Some,
            forall|t: Seq<u8>|
                final(self).inner().unwrap().seekable(t) == old(self).inner().unwrap().seekable(t),
            moved(old(self).inner().unwrap(), final(self).inner().unwrap()),
            old(self).inner().unwrap().sound() && final(self).inner().unwrap().sound() ==> stands_at(
                final(self).inner().unwrap(),
                0,
            ),
    {
        match &mut self.iter {
            Some(it) => {
                it.seek_to_first();
            },
            None => {},
        }
        self.update();
    }

    pub fn seek_to_last(&mut self)
        requires
            old(self).inv(),
            old(self).inner() is Some,
        ensures
            final(self).inv(),
            final(self).inner() is Some,
            forall|t: Seq<u8>|
                final(self).inner().unwrap().seekable(t) == old(self).inner().unwrap().seekable(t),
            moved(old(self).inner().unwrap(), final(self).inner().unwrap()),
            old(self).inner().unwrap().sound() && final(self).inner().unwrap().sound() ==> stands_at(
                final(self).inner().unwrap(),
                final(self).inner().unwrap().entries().len() - 1,
            ),
    {
        match &mut self.iter {
            Some(it) => {
                it.seek_to_last();
            },
            None => {},
        }
        self.update();
    }
}

} // verus!
