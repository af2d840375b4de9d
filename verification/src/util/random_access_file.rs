//! Files read at an offset, and the limiter of open read-only files.

use crate::obj::slice::Slice;
use crate::obj::status_rs::Status;
use vstd::prelude::*;
use vstd::slice::slice_subrange;

verus! {

/// The bytes of `contents` from `offset` on, `n` of them at most.
pub open spec fn file_range(contents: Seq<u8>, offset: int, n: int) -> Seq<u8> {
    if 0 <= offset <= contents.len() && n >= 0 {
        contents.subrange(offset, if offset + n <= contents.len() {
            offset + n
        } else {
            contents.len() as int
        })
    } else {
        Seq::empty()
    }
}

/// The bytes of a file as contracts speak of them.
pub type FileModel = Seq<u8>;

/// A file whose bytes can be read at any offset.
pub trait RandomAccessFile {
    /// The bytes of the file.
    spec fn contents(&self) -> Seq<u8>;

    /// Whether reads hand out the memory of the file itself, as a file
    /// mapped into memory does, and not a copy of it.
    spec fn lends(&self) -> bool;

    /// Whether no read that starts within the file fails, as with a file
    /// held in memory.
    spec fn steady(&self) -> bool;

    /// Whether reads hand out the memory of the file itself.
    fn is_lending(&self) -> (b: bool)
        ensures
            b == self.lends(),
    ;

    /// Reads up to `n` bytes starting at `offset`.  A read that succeeds
    /// returns the bytes of the file there, fewer than `n` only where the
    /// file ends.
    fn read(&self, offset: u64, n: usize) -> (r: Result<Slice, Status>)
        ensures
            match r {
                Ok(data) => data@ == file_range(self.contents(), offset as int, n as int),
                Err(status) => status.spec_code() != crate::obj::status_rs::StatusCode::Kok,
            },
            self.steady() && offset < self.contents().len() ==> r is Ok,
    ;
}

/// A random-access file held in memory.
#[derive(Debug)]
pub struct StringSource {
    contents_: Vec<u8>,
}

impl StringSource {
    pub fn new_contents(s: Vec<u8>) -> (f: StringSource)
        ensures
            f.contents() == s@,
    {
        StringSource { contents_: s }
    }
}

impl RandomAccessFile for StringSource {
    closed spec fn contents(&self) -> Seq<u8> {
        self.contents_@
    }

    open spec fn lends(&self) -> bool {
        false
    }

    open spec fn steady(&self) -> bool {
        true
    }

    fn is_lending(&self) -> (b: bool) {
        false
    }

    /// Fails with `InvalidArgument` where `offset` is at or past the end.
    fn read(&self, offset: u64, n: usize) -> (r: Result<Slice, Status>)
        ensures
            r is Err <==> offset >= self.contents().len(),
    {
        let len = self.contents_.len();
        if offset >= len as u64 {
            return Err(Status::invalid_argument("invalid offset", None));
        }
        let start = offset as usize;
        let end = if n > len - start {
            len
        } else {
            start + n
        };
        Ok(Slice::new_from_array(slice_subrange(self.contents_.as_slice(), start, end)))
    }
}

/// Counts down the resources of one kind that may still be acquired.
#[derive(Debug)]
pub struct Limiter {
    max_acquires: i64,
    acquires_allowed: i64,
}

impl Limiter {
    #[verifier::type_invariant]
    spec fn wf(&self) -> bool {
        0 <= self.acquires_allowed <= self.max_acquires
    }

    /// How many resources may still be acquired.
    pub closed spec fn available(&self) -> int {
        self.acquires_allowed as int
    }

    /// The most that may be held at once.
    pub closed spec fn capacity(&self) -> int {
        self.max_acquires as int
    }

    /// A limiter that lets `max_acquires` resources be held at once.
    pub fn new(max_acquires: i64) -> (l: Limiter)
        requires
            max_acquires >= 0,
        ensures
            l.available() == max_acquires,
            l.capacity() == max_acquires,
    {
        Limiter { max_acquires, acquires_allowed: max_acquires }
    }

    /// Acquires a resource if one is left and says whether it did.
    pub fn acquire(&mut self) -> (acquired: bool)
        ensures
            acquired == (old(self).available() > 0),
            final(self).available() == old(self).available() - if acquired {
                1int
            } else {
                0int
            },
            final(self).capacity() == old(self).capacity(),
    {
        proof {
            use_type_invariant(&*self);
        }
        if self.acquires_allowed > 0 {
            self.acquires_allowed = self.acquires_allowed - 1;
            true
        } else {
            false
        }
    }

    /// Whether a resource is out that `release` can give back.
    pub fn can_release(&self) -> (b: bool)
        ensures
            b == (self.available() < self.capacity()),
    {
        self.acquires_allowed < self.max_acquires
    }

    /// Gives back a resource that an earlier `acquire` handed out.
    pub fn release(&mut self)
        requires
            old(self).available() < old(self).capacity(),
        ensures
            final(self).available() == old(self).available() + 1,
            final(self).capacity() == old(self).capacity(),
    {
        proof {
            use_type_invariant(&*self);
        }
        self.acquires_allowed = self.acquires_allowed + 1;
    }
}

} // verus!
