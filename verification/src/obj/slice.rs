//! An owned, cheaply narrowed byte string.

use vstd::prelude::*;
use vstd::slice::slice_subrange;
use vstd::string::StringSliceAdditionalSpecFns;

verus! {

/// A window onto an owned byte buffer.  The view is the bytes inside the
/// window.
#[derive(Debug)]
pub struct Slice {
    buf: Vec<u8>,
    start: usize,
    len: usize,
}

impl View for Slice {
    type V = Seq<u8>;

    closed spec fn view(&self) -> Seq<u8> {
        self.buf@.subrange(self.start as int, self.start + self.len)
    }
}

impl Clone for Slice {
    fn clone(&self) -> (copy: Self)
        ensures
            copy@ == self@,
            copy.spec_backing() == self.spec_backing(),
    {
        proof {
            use_type_invariant(self);
        }
        Slice { buf: self.buf.clone(), start: self.start, len: self.len }
    }
}

/// The text that `String::from_utf8_lossy` makes of bytes.
pub uninterp spec fn lossy_text(bytes: Seq<u8>) -> Seq<char>;

/// Calls `String::from_utf8_lossy`, which decodes bytes as UTF-8 and puts
/// U+FFFD in place of what is not UTF-8.  The text is a function of the
/// bytes; of bytes that are UTF-8 it is what they encode.
#[verifier::external_body]
fn utf8_lossy(bytes: &[u8]) -> (text: String)
    ensures
        text@ == lossy_text(bytes@),
        vstd::utf8::valid_utf8(bytes@) ==> text@ == vstd::utf8::decode_utf8(bytes@),
{
    String::from_utf8_lossy(bytes).to_string()
}

impl Slice {
    #[verifier::type_invariant]
    spec fn wf(&self) -> bool {
        self.start + self.len <= self.buf.len()
    }

    /// Number of bytes behind the window that a `resize` can bring in.
    pub closed spec fn spec_room(&self) -> nat {
        (self.buf@.len() - self.start) as nat
    }

    /// The bytes from the start of the window to the end of the buffer.
    pub closed spec fn spec_backing(&self) -> Seq<u8> {
        self.buf@.subrange(self.start as int, self.buf@.len() as int)
    }

    /// The empty byte string.
    pub fn new_empty() -> (s: Slice)
        ensures
            s@ == Seq::<u8>::empty(),
    {
        Slice { buf: Vec::new(), start: 0, len: 0 }
    }

    /// A byte string that owns `data`.
    pub fn new_from_vec(data: Vec<u8>) -> (s: Slice)
        ensures
            s@ == data@,
            s.spec_backing() == data@,
    {
        let len = data.len();
        Slice { buf: data, start: 0, len }
    }

    /// A byte string holding a copy of `data`.
    pub fn new_from_array(data: &[u8]) -> (s: Slice)
        ensures
            s@ == data@,
            s.spec_backing() == data@,
    {
        Self::new_from_vec(vstd::slice::slice_to_vec(data))
    }

    /// A byte string holding a copy of `data`.
    pub fn new_from_ptr(data: &[u8]) -> (s: Slice)
        ensures
            s@ == data@,
            s.spec_backing() == data@,
    {
        Self::new_from_array(data)
    }

    /// A byte string holding the bytes of `source` from `start` up to
    /// `end`.
    pub fn new_from_slice(source: &Slice, start: usize, end: usize) -> (s: Slice)
        requires
            start <= end <= source@.len(),
        ensures
            s@ == source@.subrange(start as int, end as int),
    {
        Self::new_from_array(slice_subrange(source.data(), start, end))
    }

    /// A byte string holding the bytes of the window of `data`.
    pub fn new_from_buff(data: crate::obj::byte_buffer::ByteBuffer) -> (s: Slice)
        requires
            data.wf(),
        ensures
            s@ == data@,
    {
        Self::new_from_array(data.as_slice())
    }

    /// A byte string holding the UTF-8 bytes of `text`.
    pub fn new_from_string_buffer(text: &String) -> (s: Slice)
        ensures
            s@ == vstd::utf8::encode_utf8(text@),
    {
        Self::new_from_array(text.as_str().as_bytes())
    }

    /// A byte string holding the UTF-8 bytes of `data`.
    pub fn new_from_static(data: &'static str) -> (s: Slice)
        ensures
            s@ == data.spec_bytes(),
    {
        Self::new_from_array(data.as_bytes())
    }

    /// A byte string holding the UTF-8 bytes of `data`.
    pub fn new_from_str(data: &str) -> (s: Slice)
        ensures
            s@ == data.spec_bytes(),
    {
        Self::new_from_array(data.as_bytes())
    }

    /// A byte string holding the UTF-8 bytes of `data`.
    pub fn new_from_string(data: String) -> (s: Slice)
        ensures
            s@ == vstd::utf8::encode_utf8(data@),
    {
        Self::new_from_array(data.as_str().as_bytes())
    }

    /// The bytes of this string.
    pub fn data(&self) -> (d: &[u8])
        ensures
            d@ == self@,
    {
        proof {
            use_type_invariant(self);
        }
        slice_subrange(self.buf.as_slice(), self.start, self.start + self.len)
    }

    pub fn size(&self) -> (n: usize)
        ensures
            n == self@.len(),
    {
        proof {
            use_type_invariant(self);
        }
        self.len
    }

    pub fn len(&self) -> (n: usize)
        ensures
            n == self@.len(),
    {
        proof {
            use_type_invariant(self);
        }
        self.len
    }

    pub fn is_empty(&self) -> (b: bool)
        ensures
            b == (self@.len() == 0),
    {
        proof {
            use_type_invariant(self);
        }
        self.len == 0
    }

    /// The byte at `index`.
    pub fn get(&self, index: usize) -> (b: u8)
        requires
            index < self@.len(),
        ensures
            b == self@[index as int],
    {
        proof {
            use_type_invariant(self);
        }
        self.buf[self.start + index]
    }

    /// Drops the first `n` bytes.
    pub fn advance(&mut self, n: usize)
        requires
            n <= old(self)@.len(),
        ensures
            final(self)@ == old(self)@.skip(n as int),
    {
        proof {
            use_type_invariant(&*self);
        }
        let ghost before = self@;
        self.len = self.len - n;
        self.start = self.start + n;
        assert(self@ =~= before.skip(n as int));
    }

    /// Drops the first `n` bytes.
    pub fn remove_prefix(&mut self, n: usize)
        requires
            n <= old(self)@.len(),
        ensures
            final(self)@ == old(self)@.skip(n as int),
    {
        self.advance(n)
    }

    /// The first `n` bytes, or the whole string if it is shorter.
    pub fn slice(&self, n: usize) -> (s: Slice)
        ensures
            s@ == self@.take(if n <= self@.len() { n as int } else { self@.len() as int }),
    {
        proof {
            use_type_invariant(self);
        }
        let m = if n <= self.len { n } else { self.len };
        let s = Slice { buf: self.buf.clone(), start: self.start, len: m };
        assert(s@ =~= self@.take(m as int));
        s
    }

    /// Sets the length of the window, over bytes that the buffer holds.
    pub fn resize(&mut self, n: usize)
        requires
            n <= old(self).spec_room(),
        ensures
            final(self)@ == old(self).spec_backing().take(n as int),
            final(self).spec_backing() == old(self).spec_backing(),
    {
        proof {
            use_type_invariant(&*self);
        }
        self.len = n;
        assert(self@ =~= old(self).spec_backing().take(n as int));
    }

    /// Empties the string.
    pub fn clear(&mut self)
        ensures
            final(self)@ == Seq::<u8>::empty(),
    {
        proof {
            use_type_invariant(&*self);
        }
        self.len = 0;
        self.start = 0;
        self.buf = Vec::new();
        assert(self@ =~= Seq::<u8>::empty());
    }

    /// The bytes read as UTF-8 text, with U+FFFD where they are not.
    pub fn to_string(&self) -> (text: String)
        ensures
            text@ == lossy_text(self@),
            vstd::utf8::valid_utf8(self@) ==> text@ == vstd::utf8::decode_utf8(self@),
    {
        utf8_lossy(self.data())
    }

    /// Compares byte by byte: -1 where this string comes first, 1 where
    /// `x` does, 0 where they are the same.
    pub fn three_way(&self, x: &Slice) -> (r: i8)
        ensures
            (r == -1) == crate::util::bytewise_comparator_impl::bytes_less(self@, x@),
            (r == 1) == crate::util::bytewise_comparator_impl::bytes_less(x@, self@),
            (r == 0) == (self@ == x@),
    {
        crate::util::bytewise_comparator_impl::bytes_three_way(self.data(), x.data())
    }

    /// Whether `x` is a prefix of this string.
    pub fn starts_with(&self, x: &Slice) -> (b: bool)
        ensures
            b == (x@.len() <= self@.len() && self@.take(x@.len() as int) == x@),
    {
        let a = self.data();
        let p = x.data();
        if a.len() < p.len() {
            return false;
        }
        let mut i: usize = 0;
        while i < p.len()
            invariant
                i <= p@.len() <= a@.len(),
                a@ == self@,
                p@ == x@,
                forall|j: int| 0 <= j < i ==> a@[j] == p@[j],
            decreases p@.len() - i,
        {
            if a[i] != p[i] {
                assert(self@.take(x@.len() as int)[i as int] != x@[i as int]);
                return false;
            }
            i = i + 1;
        }
        assert(self@.take(x@.len() as int) =~= x@);
        true
    }
}

} // verus!
