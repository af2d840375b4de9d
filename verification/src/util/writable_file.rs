//! Files appended to.

use crate::obj::slice::Slice;
use crate::obj::status_rs::{Status, StatusCode};
use vstd::prelude::*;
use vstd::string::StringSliceAdditionalSpecFns;

verus! {

/// The part of a path behind its last `/`: the name of the file.
pub open spec fn basename_spec(path: Seq<u8>) -> Seq<u8>
    decreases path.len(),
{
    if path.len() == 0 {
        path
    } else if path.last() == 47u8 {
        Seq::empty()
    } else {
        basename_spec(path.drop_last()).push(path.last())
    }
}

/// The bytes of the word `MANIFEST`.
pub open spec fn manifest_word() -> Seq<u8> {
    seq![77u8, 65u8, 78u8, 73u8, 70u8, 69u8, 83u8, 84u8]
}

/// Where the name of the file starts in a path: behind its last `/`.
pub fn basename_start(path: &[u8]) -> (start: usize)
    ensures
        start <= path@.len(),
        path@.skip(start as int) == basename_spec(path@),
{
    let mut i = path.len();
    proof {
        assert(path@.skip(i as int) =~= Seq::<u8>::empty());
        assert(path@.take(i as int) =~= path@);
    }
    while i > 0 && path[i - 1] != 47u8
        invariant
            i <= path@.len(),
            basename_spec(path@) == basename_spec(path@.take(i as int)) + path@.skip(i as int),
        decreases i,
    {
        proof {
            let p = path@.take(i as int);
            assert(p.drop_last() =~= path@.take(i - 1));
            assert(basename_spec(p.drop_last()).push(p.last()) + path@.skip(i as int)
                =~= basename_spec(p.drop_last()) + path@.skip(i - 1));
        }
        i = i - 1;
    }
    proof {
        assert(Seq::<u8>::empty() + path@.skip(i as int) =~= path@.skip(i as int));
    }
    i
}

/// Whether the name of the file of a path starts with `MANIFEST`.
pub fn is_manifest(filename: &str) -> (b: bool)
    ensures
        b == (basename_spec(filename.spec_bytes()).len() >= 8 && basename_spec(
            filename.spec_bytes(),
        ).take(8) == manifest_word()),
{
    let path = filename.as_bytes();
    let start = basename_start(path);
    if path.len() - start < 8 {
        return false;
    }
    let word: [u8; 8] = [77, 65, 78, 73, 70, 69, 83, 84];
    let mut i: usize = 0;
    while i < 8
        invariant
            i <= 8,
            start + 8 <= path@.len() <= usize::MAX,
            path@ == filename.spec_bytes(),
            path@.skip(start as int) == basename_spec(path@),
            word@ == manifest_word(),
            forall|j: int| 0 <= j < i ==> path@[start + j] == manifest_word()[j],
        decreases 8 - i,
    {
        if path[start + i] != word[i] {
            assert(path@.skip(start as int).take(8)[i as int] != manifest_word()[i as int]);
            return false;
        }
        i = i + 1;
    }
    assert(path@.skip(start as int).take(8) =~= manifest_word());
    true
}

/// A file that grows at its end.
pub trait WritableFile {
    /// The bytes handed to the file so far.
    spec fn written(&self) -> Seq<u8>;

    /// Whether nothing that is asked of the file fails, as with a file
    /// held in memory.
    spec fn steady(&self) -> bool;

    /// Appends `data`.  An append that succeeds adds exactly these bytes;
    /// one that fails adds some front part of them.
    fn append(&mut self, data: &Slice) -> (status: Status)
        ensures
            status.spec_code() == StatusCode::Kok ==> final(self).written() == old(self).written()
                + data@,
            exists|k: int|
                0 <= k <= data@.len() && final(self).written() == old(self).written()
                    + #[trigger] data@.take(k),
            old(self).steady() ==> status.spec_code() == StatusCode::Kok && final(self).steady(),
    ;

    /// Hands buffered bytes on to the operating system.
    fn flush(&mut self) -> (status: Status)
        ensures
            final(self).written() == old(self).written(),
            old(self).steady() ==> status.spec_code() == StatusCode::Kok && final(self).steady(),
    ;

    /// Makes what was written durable.
    fn sync(&mut self) -> (status: Status)
        ensures
            final(self).written() == old(self).written(),
            old(self).steady() ==> status.spec_code() == StatusCode::Kok && final(self).steady(),
    ;
}

/// A writable file held in memory.
#[derive(Debug)]
pub struct StringSink {
    contents_: Vec<u8>,
}

impl StringSink {
    pub fn new() -> (f: StringSink)
        ensures
            f.written() == Seq::<u8>::empty(),
    {
        StringSink { contents_: Vec::new() }
    }

    /// The bytes written so far.
    pub fn contents(&self) -> (c: &[u8])
        ensures
            c@ == self.written(),
    {
        self.contents_.as_slice()
    }
}

impl WritableFile for StringSink {
    closed spec fn written(&self) -> Seq<u8> {
        self.contents_@
    }

    open spec fn steady(&self) -> bool {
        true
    }

    fn append(&mut self, data: &Slice) -> (status: Status)
        ensures
            status.spec_code() == StatusCode::Kok,
    {
        crate::util::coding::append_bytes(&mut self.contents_, data.data());
        proof {
            assert(data@.take(data@.len() as int) =~= data@);
        }
        Status::ok()
    }

    fn flush(&mut self) -> (status: Status)
        ensures
            status.spec_code() == StatusCode::Kok,
    {
        Status::ok()
    }

    fn sync(&mut self) -> (status: Status)
        ensures
            status.spec_code() == StatusCode::Kok,
    {
        Status::ok()
    }
}

} // verus!
