//! A buffer of bytes with a window that moves forward.

use vstd::prelude::*;
use vstd::slice::slice_subrange;
use vstd::string::StringSliceAdditionalSpecFns;

verus! {

/// Storage of a fixed capacity and, in it, a window of `len` bytes behind
/// the bytes that were advanced over.
#[derive(Debug)]
pub struct ByteBuffer {
    buf: Vec<u8>,
    offset: usize,
    len: usize,
    is_owner: bool,
}

impl View for ByteBuffer {
    type V = Seq<u8>;

    closed spec fn view(&self) -> Seq<u8> {
        self.buf@.subrange(self.offset as int, self.offset + self.len)
    }
}

impl Clone for ByteBuffer {
    /// A copy that does not own its storage.
    fn clone(&self) -> (copy: Self)
        ensures
            copy.wf() == self.wf(),
            copy@ == self@,
            copy.spec_cap() == self.spec_cap(),
            !copy.spec_is_owner(),
    {
        ByteBuffer { buf: self.buf.clone(), offset: self.offset, len: self.len, is_owner: false }
    }
}

impl ByteBuffer {
    /// The window lies within the storage.
    pub closed spec fn wf(&self) -> bool {
        self.offset + self.len <= self.buf.len()
    }

    /// Number of bytes from the start of the window to the end of the
    /// storage.
    pub closed spec fn spec_cap(&self) -> nat {
        (self.buf@.len() - self.offset) as nat
    }

    /// The bytes from the start of the window to the end of the storage.
    pub closed spec fn spec_storage(&self) -> Seq<u8> {
        self.buf@.subrange(self.offset as int, self.buf@.len() as int)
    }

    pub closed spec fn spec_is_owner(&self) -> bool {
        self.is_owner
    }

    /// A buffer with storage for `capacity` bytes, all zero, and an empty
    /// window.
    pub fn new(capacity: usize) -> (b: Self)
        ensures
            b.wf(),
            b@ == Seq::<u8>::empty(),
            b.spec_cap() == capacity,
            b.spec_storage() == Seq::new(capacity as nat, |i: int| 0u8),
            b.spec_is_owner(),
    {
        let mut buf: Vec<u8> = Vec::new();
        while buf.len() < capacity
            invariant
                buf@.len() <= capacity,
                buf@ == Seq::new(buf@.len(), |i: int| 0u8),
            decreases capacity - buf@.len(),
        {
            buf.push(0);
            assert(buf@ =~= Seq::new(buf@.len(), |i: int| 0u8));
        }
        let b = ByteBuffer { buf, offset: 0, len: 0, is_owner: true };
        proof {
            assert(b@ =~= Seq::<u8>::empty());
            assert(b.spec_storage() =~= Seq::new(capacity as nat, |i: int| 0u8));
        }
        b
    }

    /// A buffer over a copy of `slice`.
    pub fn from_slice(slice: &[u8]) -> (b: Self)
        ensures
            b.wf(),
            b@ == slice@,
            b.spec_cap() == slice@.len(),
            !b.spec_is_owner(),
    {
        let buf = vstd::slice::slice_to_vec(slice);
        let len = buf.len();
        let b = ByteBuffer { buf, offset: 0, len, is_owner: false };
        assert(b@ =~= slice@);
        b
    }

    /// A buffer over a copy of the UTF-8 bytes of `str`.
    pub fn from_string(str: &String) -> (b: Self)
        ensures
            b.wf(),
            b@ == vstd::utf8::encode_utf8(str@),
            !b.spec_is_owner(),
    {
        Self::from_slice(str.as_str().as_bytes())
    }

    /// A buffer over a copy of `data`.
    pub fn from_ptr(data: &[u8]) -> (b: Self)
        ensures
            b.wf(),
            b@ == data@,
            b.spec_cap() == data@.len(),
            !b.spec_is_owner(),
    {
        Self::from_slice(data)
    }

    /// A buffer over a copy of `vec`.
    pub fn from_vec(vec: &Vec<u8>) -> (b: Self)
        ensures
            b.wf(),
            b@ == vec@,
            b.spec_cap() == vec@.len(),
            !b.spec_is_owner(),
    {
        Self::from_slice(vec.as_slice())
    }

    /// Sets the length of the window, within the storage.
    pub fn resize(&mut self, len: usize)
        requires
            old(self).wf(),
            len <= old(self).spec_cap(),
        ensures
            final(self).wf(),
            final(self)@ == old(self).spec_storage().take(len as int),
            final(self).spec_storage() == old(self).spec_storage(),
            final(self).spec_cap() == old(self).spec_cap(),
            final(self).spec_is_owner() == old(self).spec_is_owner(),
    {
        self.len = len;
        assert(self@ =~= old(self).spec_storage().take(len as int));
    }

    /// Sets the bytes of the window from `start` up to `end`, or up to the
    /// end of the window, to zero.
    pub fn init(&mut self, start: usize, end: usize)
        requires
            old(self).wf(),
        ensures
            final(self).wf(),
            final(self)@.len() == old(self)@.len(),
            forall|i: int|
                0 <= i < old(self)@.len() ==> final(self)@[i] == if start <= i < end {
                    0u8
                } else {
                    old(self)@[i]
                },
            final(self).spec_cap() == old(self).spec_cap(),
            final(self).spec_is_owner() == old(self).spec_is_owner(),
    {
        let stop = if end < self.len {
            end
        } else {
            self.len
        };
        if start >= stop {
            return ;
        }
        let total = self.buf.len();
        let mut i = start;
        while i < stop
            invariant
                start <= i <= stop <= self.len == old(self).len,
                stop <= end,
                stop == end || stop == self.len,
                self.offset == old(self).offset,
                self.is_owner == old(self).is_owner,
                total == self.buf@.len() == old(self).buf@.len(),
                self.offset + self.len <= self.buf@.len(),
                forall|j: int|
                    0 <= j < self.buf@.len() ==> self.buf@[j] == if self.offset + start <= j
                        < self.offset + i {
                        0u8
                    } else {
                        old(self).buf@[j]
                    },
            decreases stop - i,
        {
            let at = self.offset + i;
            self.set_raw(at);
            i = i + 1;
        }
    }

    fn set_raw(&mut self, at: usize)
        requires
            old(self).wf(),
            at < old(self).buf@.len(),
        ensures
            final(self).wf(),
            final(self).buf@ == old(self).buf@.update(at as int, 0u8),
            final(self).offset == old(self).offset,
            final(self).len == old(self).len,
            final(self).is_owner == old(self).is_owner,
    {
        self.buf[at] = 0;
    }

    /// The bytes of the window, to be changed in place.  What the window
    /// holds when the slice is let go is what the slice then holds; a slice
    /// keeps its length.
    pub fn as_mut_slice(&mut self) -> (s: &mut [u8])
        requires
            old(self).wf(),
        ensures
            s@ == old(self)@,
            final(s)@.len() == s@.len() ==> {
                &&& final(self).wf()
                &&& final(self)@ =~= final(s)@
                &&& final(self).spec_cap() == old(self).spec_cap()
                &&& final(self).spec_is_owner() == old(self).spec_is_owner()
            },
    {
        let offset = self.offset;
        let len = self.len;
        let whole = self.buf.as_mut_slice();
        let (front, behind) = whole.split_at_mut(offset);
        let (window, tail) = behind.split_at_mut(len);
        proof {
            assert(window@ =~= old(self)@);
        }
        window
    }

    /// The bytes of the window.
    pub fn as_slice(&self) -> (s: &[u8])
        requires
            self.wf(),
        ensures
            s@ == self@,
    {
        slice_subrange(self.buf.as_slice(), self.offset, self.offset + self.len)
    }

    pub fn len(&self) -> (n: usize)
        requires
            self.wf(),
        ensures
            n == self@.len(),
    {
        self.len
    }

    pub fn cap(&self) -> (n: usize)
        requires
            self.wf(),
        ensures
            n == self.spec_cap(),
    {
        self.buf.len() - self.offset
    }

    pub fn is_owner(&self) -> (b: bool)
        ensures
            b == self.spec_is_owner(),
    {
        self.is_owner
    }

    pub fn is_empty(&self) -> (b: bool)
        requires
            self.wf(),
        ensures
            b == (self@.len() == 0),
    {
        self.len == 0
    }

    /// Moves the start of the window forward by `n` bytes.
    pub fn advance(&mut self, n: usize)
        requires
            old(self).wf(),
            n <= old(self)@.len(),
        ensures
            final(self).wf(),
            final(self)@ == old(self)@.skip(n as int),
            final(self).spec_cap() == old(self).spec_cap() - n,
            final(self).spec_is_owner() == old(self).spec_is_owner(),
    {
        let ghost before = self@;
        self.len = self.len - n;
        self.offset = self.offset + n;
        assert(self@ =~= before.skip(n as int));
    }

    /// Gives the storage up.
    pub fn clear(&mut self)
        requires
            old(self).wf(),
        ensures
            final(self).wf(),
            final(self)@ == Seq::<u8>::empty(),
            final(self).spec_cap() == 0,
            !final(self).spec_is_owner(),
    {
        self.len = 0;
        self.offset = 0;
        self.buf = Vec::new();
        self.is_owner = false;
        assert(self@ =~= Seq::<u8>::empty());
    }

    /// The byte at `index` of the window.
    pub fn get(&self, index: usize) -> (b: u8)
        requires
            self.wf(),
            index < self@.len(),
        ensures
            b == self@[index as int],
    {
        self.buf[self.offset + index]
    }

    /// Writes the byte at `index` of the window.
    pub fn set(&mut self, index: usize, value: u8)
        requires
            old(self).wf(),
            index < old(self)@.len(),
        ensures
            final(self).wf(),
            final(self)@ == old(self)@.update(index as int, value),
            final(self).spec_cap() == old(self).spec_cap(),
            final(self).spec_is_owner() == old(self).spec_is_owner(),
    {
        let at = self.offset + index;
        self.buf[at] = value;
        assert(self@ =~= old(self)@.update(index as int, value));
    }
}

} // verus!
