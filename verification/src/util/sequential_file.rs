//! Files read from front to back.

use crate::obj::slice::Slice;
use crate::obj::status_rs::{Status, StatusCode};
use crate::util::random_access_file::file_range;
use vstd::prelude::*;
use vstd::slice::slice_subrange;

verus! {

/// A file read from front to back.
pub trait SequentialFile {
    /// The bytes not yet read.
    spec fn remaining(&self) -> Seq<u8>;

    /// Whether no read and no skip of the file fails, as with a file held
    /// in memory.
    spec fn steady(&self) -> bool;

    /// Reads up to `n` bytes.  A read that succeeds takes them off the
    /// front of what remained, fewer than `n` only where the file ends.
    fn read(&mut self, n: usize) -> (r: Result<Slice, Status>)
        ensures
            match r {
                Ok(data) => data@ == file_range(old(self).remaining(), 0, n as int)
                    && final(self).remaining() == old(self).remaining().skip(data@.len() as int),
                Err(status) => status.spec_code() != StatusCode::Kok,
            },
            old(self).steady() ==> r is Ok && final(self).steady(),
    ;

    /// Skips `n` bytes.  A skip that succeeds drops them from the front of
    /// what remained, or all of it where fewer remained.
    fn skip(&mut self, n: u64) -> (status: Status)
        ensures
            status.spec_code() == StatusCode::Kok ==> final(self).remaining() == old(
                self,
            ).remaining().skip(
                if n <= old(self).remaining().len() {
                    n as int
                } else {
                    old(self).remaining().len() as int
                },
            ),
            old(self).steady() ==> status.spec_code() == StatusCode::Kok && final(self).steady(),
    ;
}

/// A sequential file held in memory.
#[derive(Debug)]
pub struct StringReader {
    contents_: Vec<u8>,
    pos: usize,
}

impl StringReader {
    #[verifier::type_invariant]
    spec fn wf(&self) -> bool {
        self.pos <= self.contents_.len()
    }

    pub fn new_contents(s: Vec<u8>) -> (f: StringReader)
        ensures
            f.remaining() == s@,
    {
        let f = StringReader { contents_: s, pos: 0 };
        assert(f.remaining() =~= s@);
        f
    }
}

impl SequentialFile for StringReader {
    closed spec fn remaining(&self) -> Seq<u8> {
        self.contents_@.skip(self.pos as int)
    }

    open spec fn steady(&self) -> bool {
        true
    }

    fn read(&mut self, n: usize) -> (r: Result<Slice, Status>)
        ensures
            r is Ok,
    {
        proof {
            use_type_invariant(&*self);
        }
        let len = self.contents_.len();
        let end = if n > len - self.pos {
            len
        } else {
            self.pos + n
        };
        let data = Slice::new_from_array(slice_subrange(self.contents_.as_slice(), self.pos, end));
        proof {
            assert(data@ =~= file_range(old(self).remaining(), 0, n as int));
            assert(self.contents_@.skip(end as int) =~= old(self).remaining().skip(
                data@.len() as int,
            ));
        }
        self.pos = end;
        Ok(data)
    }

    fn skip(&mut self, n: u64) -> (status: Status)
        ensures
            status.spec_code() == StatusCode::Kok,
    {
        proof {
            use_type_invariant(&*self);
        }
        let left = self.contents_.len() - self.pos;
        let step = if n <= left as u64 {
            n as usize
        } else {
            left
        };
        proof {
            assert(self.contents_@.skip(self.pos + step) =~= old(self).remaining().skip(
                step as int,
            ));
        }
        self.pos = self.pos + step;
        Status::ok()
    }
}

} // verus!
