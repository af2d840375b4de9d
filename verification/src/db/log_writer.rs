//! Appends records to a write-ahead log.

use crate::db::log_format::{
    fragment_bytes, fragment_header, fragment_type, frame_pad, frame_start, frame_take,
    lemma_record_frames_unfold, record_end_offset, record_frames, RecordType, K_BLOCK_SIZE,
    K_HEADER_SIZE,
};
use crate::obj::slice::Slice;
use crate::obj::status_rs::{Status, StatusCode};
use crate::util::coding::put_fixed32;
use crate::util::crc32c;
use crate::util::crc32c::crc32c_of;
use crate::util::writable_file::WritableFile;
use vstd::prelude::*;
use vstd::slice::slice_subrange;

verus! {

/// Fills `type_crc` with the checksum of each type byte, so that the
/// checksum of a fragment starts from there.
pub fn init_type_crc(type_crc: &mut [u32; 5])
    ensures
        forall|i: int| 0 <= i < 5 ==> final(type_crc)@[i] == crc32c_of(seq![i as u8]),
{
    let mut i: usize = 0;
    while i < 5
        invariant
            i <= 5,
            forall|j: int| 0 <= j < i ==> type_crc@[j] == crc32c_of(seq![j as u8]),
        decreases 5 - i,
    {
        let t: [u8; 1] = [i as u8];
        assert(t@ =~= seq![i as u8]);
        type_crc[i] = crc32c::value(t.as_slice());
        i = i + 1;
    }
}

/// Writes records to a file as fragments that never straddle a block.
pub struct LogWriter<W: WritableFile> {
    dest_: W,
    block_offset_: usize,
    type_crc_: [u32; 5],
}

/// Whether `after` is `before` and a front part of `whole` behind it.
pub open spec fn grown_by_front(after: Seq<u8>, before: Seq<u8>, whole: Seq<u8>) -> bool {
    exists|k: int| 0 <= k <= whole.len() && after == before + #[trigger] whole.take(k)
}

/// What was written of `whole` up to `done`, and a front part of what
/// follows there, is what was written of `whole` up to behind that part.
proof fn lemma_front(whole: Seq<u8>, done: int, front: Seq<u8>, rest: Seq<u8>, k: int)
    requires
        0 <= done <= whole.len(),
        whole.skip(done) == front + rest,
        0 <= k <= front.len(),
    ensures
        done + k <= whole.len(),
        whole.take(done) + front.take(k) == whole.take(done + k),
        k == front.len() ==> whole.skip(done + k) == rest,
{
    let tail = whole.skip(done);
    assert(tail.len() == front.len() + rest.len());
    assert forall|i: int| 0 <= i < k implies front.take(k)[i] == whole[done + i] by {
        assert(tail[i] == whole[done + i]);
        assert((front + rest)[i] == front[i]);
    }
    assert(whole.take(done) + front.take(k) =~= whole.take(done + k));
    if k == front.len() {
        assert forall|i: int| 0 <= i < rest.len() implies whole.skip(done + k)[i] == rest[i] by {
            assert(tail[k + i] == whole[done + k + i]);
            assert((front + rest)[k + i] == rest[i]);
        }
        assert(whole.skip(done + k) =~= rest);
    }
}

/// One write of a part of `whole` behind what was written of it up to
/// `done`: what the file then holds is a front part of `whole` behind what
/// it held at the start, and where the part was written in full, what was
/// written of `whole` up to behind the part.
proof fn lemma_grown_step(
    whole: Seq<u8>,
    done: int,
    part: Seq<u8>,
    rest: Seq<u8>,
    start: Seq<u8>,
    mid: Seq<u8>,
    after: Seq<u8>,
)
    requires
        0 <= done <= whole.len(),
        mid == start + whole.take(done),
        whole.skip(done) == part + rest,
        grown_by_front(after, mid, part),
    ensures
        grown_by_front(after, start, whole),
        done + part.len() <= whole.len(),
        after == mid + part ==> after == start + whole.take(done + part.len()) && whole.skip(
            done + part.len(),
        ) == rest,
        rest.len() == 0 ==> whole.take(done + part.len()) == whole,
{
    let k = choose|k: int| 0 <= k <= part.len() && after == mid + #[trigger] part.take(k);
    lemma_front(whole, done, part, rest, k);
    assert(after =~= start + whole.take(done + k));
    lemma_front(whole, done, part, rest, part.len() as int);
    assert(part.take(part.len() as int) =~= part);
    if after == mid + part {
        assert(after =~= start + whole.take(done + part.len()));
    }
    if rest.len() == 0 {
        assert(whole.take(done + part.len()) =~= whole);
    }
}

/// A part written in full was written as a front part of itself.
proof fn lemma_grown_whole(mid: Seq<u8>, part: Seq<u8>)
    ensures
        grown_by_front(mid + part, mid, part),
{
    assert(part.take(part.len() as int) =~= part);
}

proof fn lemma_length_bytes(length: usize)
    by (bit_vector)
    requires
        length <= 0xffff,
    ensures
        (length & 0xff) as u8 == length % 256,
        (length >> 8) as u8 == length / 256,
{
}

impl<W: WritableFile> LogWriter<W> {
    /// The block being filled is not overfull and the checksums of the
    /// type bytes are in place.
    pub closed spec fn inv(&self) -> bool {
        &&& self.block_offset_ <= 32768
        &&& forall|i: int| 0 <= i < 5 ==> self.type_crc_@[i] == crc32c_of(seq![i as u8])
    }

    /// The bytes that the file under this writer has been given.
    pub closed spec fn written(&self) -> Seq<u8> {
        self.dest_.written()
    }

    /// Whether no write to the file under this writer fails.
    pub closed spec fn steady(&self) -> bool {
        self.dest_.steady()
    }

    /// How many bytes the block being filled holds.
    pub closed spec fn block_offset(&self) -> nat {
        self.block_offset_ as nat
    }

    /// A writer over an empty file.
    pub fn new(dest: W) -> (w: Self)
        ensures
            w.inv(),
            w.written() == dest.written(),
            w.steady() == dest.steady(),
            w.block_offset() == 0,
    {
        let mut type_crc: [u32; 5] = [0; 5];
        init_type_crc(&mut type_crc);
        LogWriter { dest_: dest, block_offset_: 0, type_crc_: type_crc }
    }

    /// A writer that goes on behind the `dest_length` bytes of a log.
    pub fn new_dest_length(dest: W, dest_length: u64) -> (w: Self)
        ensures
            w.inv(),
            w.written() == dest.written(),
            w.steady() == dest.steady(),
            w.block_offset() == dest_length % 32768,
    {
        let mut type_crc: [u32; 5] = [0; 5];
        init_type_crc(&mut type_crc);
        LogWriter { dest_: dest, block_offset_: (dest_length % 32768) as usize, type_crc_: type_crc }
    }

    /// Gives the file back.
    pub fn into_dest(self) -> (dest: W)
        ensures
            dest.written() == self.written(),
            dest.steady() == self.steady(),
    {
        self.dest_
    }

    /// Writes one fragment of kind `t` into the block being filled.
    fn emit_physical_record(&mut self, t: RecordType, data: &[u8]) -> (status: Status)
        requires
            old(self).inv(),
            data@.len() <= 0xffff,
            old(self).block_offset() + 7 + data@.len() <= 32768,
        ensures
            final(self).inv(),
            final(self).block_offset() == old(self).block_offset() + 7 + data@.len(),
            status.spec_code() == StatusCode::Kok ==> final(self).written() == old(self).written()
                + fragment_bytes(t.spec_to_u8(), data@),
            grown_by_front(
                final(self).written(),
                old(self).written(),
                fragment_bytes(t.spec_to_u8(), data@),
            ),
            old(self).steady() ==> status.spec_code() == StatusCode::Kok && final(self).steady(),
    {
        let length = data.len();
        proof {
            lemma_length_bytes(length);
        }
        let type_byte = t.to_u8();
        let crc = crc32c::mask(crc32c::extend(self.type_crc_[type_byte as usize], data));
        let mut buf: Vec<u8> = Vec::new();
        put_fixed32(&mut buf, crc);
        buf.push((length & 0xff) as u8);
        buf.push((length >> 8) as u8);
        buf.push(type_byte);
        proof {
            assert(buf@ =~= fragment_header(t.spec_to_u8(), data@));
        }
        let ghost before = self.dest_.written();
        let ghost frame = fragment_bytes(t.spec_to_u8(), data@);
        let mut s = self.dest_.append(&Slice::new_from_ptr(buf.as_slice()));
        proof {
            let k = choose|k: int|
                0 <= k <= buf@.len() && self.dest_.written() == before + #[trigger] buf@.take(k);
            assert(buf@.take(k) =~= frame.take(k));
            assert(grown_by_front(self.dest_.written(), before, frame));
        }
        if s.is_ok() {
            let ghost headed = self.dest_.written();
            s = self.dest_.append(&Slice::new_from_ptr(data));
            proof {
                let k = choose|k: int|
                    0 <= k <= data@.len() && self.dest_.written() == headed + #[trigger] data@.take(k);
                assert(headed + data@.take(k) =~= before + frame.take(7 + k));
                assert(grown_by_front(self.dest_.written(), before, frame));
            }
            if s.is_ok() {
                s = self.dest_.flush();
                proof {
                    assert(self.dest_.written() =~= before + fragment_bytes(t.spec_to_u8(), data@));
                }
            }
        }
        self.block_offset_ = self.block_offset_ + K_HEADER_SIZE + length;
        s
    }

    /// Appends one record.  Where every write succeeds, as with a steady
    /// file, the log grows by the frames of the record and the status is
    /// `OK`; the first write that fails ends the call with its status, the
    /// log grown by a front part of the frames.
    pub fn add_record(&mut self, slice: &Slice) -> (status: Status)
        requires
            old(self).inv(),
        ensures
            final(self).inv(),
            status.spec_code() == StatusCode::Kok ==> final(self).written() == old(self).written()
                + record_frames(old(self).block_offset(), slice@, true),
            status.spec_code() == StatusCode::Kok ==> final(self).block_offset()
                == record_end_offset(old(self).block_offset(), slice@),
            grown_by_front(
                final(self).written(),
                old(self).written(),
                record_frames(old(self).block_offset(), slice@, true),
            ),
            old(self).steady() ==> status.spec_code() == StatusCode::Kok && final(self).steady(),
    {
        let data = slice.data();
        let mut pos: usize = 0;
        let mut left: usize = data.len();
        let mut begin = true;
        let ghost start_written = self.written();
        let ghost start_offset = self.block_offset();
        let ghost frames = record_frames(start_offset, slice@, true);
        let ghost mut done: int = 0;
        proof {
            assert(data@.skip(0) =~= data@);
            assert(frames.skip(0) =~= frames);
            assert(start_written + frames.take(0) =~= start_written);
        }
        loop
            invariant
                frames == record_frames(start_offset, slice@, true),
                0 <= done <= frames.len(),
                self.written() == start_written + frames.take(done),
                frames.skip(done) == record_frames(
                    self.block_offset(),
                    data@.skip(pos as int),
                    begin,
                ),
                data@ == slice@,
                pos + left == data@.len(),
                data@.len() <= usize::MAX,
                start_written == old(self).written(),
                start_offset == old(self).block_offset(),
                self.inv(),
                old(self).steady() ==> self.steady(),
                record_end_offset(start_offset, slice@) == record_end_offset(
                    self.block_offset(),
                    data@.skip(pos as int),
                ),
            decreases left, 32768 - self.block_offset(),
        {
            let ghost rest = data@.skip(pos as int);
            let ghost offset = self.block_offset();
            let ghost written = self.written();
            proof {
                lemma_record_frames_unfold(offset, rest, begin);
            }
            let ghost n = frame_take(offset, rest.len());
            let ghost whole_frame = fragment_bytes(
                fragment_type(begin, rest.len() == n).spec_to_u8(),
                rest.take(n as int),
            );
            let ghost behind = if rest.len() == n {
                Seq::<u8>::empty()
            } else {
                record_frames(frame_start(offset) + 7 + n, rest.skip(n as int), false)
            };
            proof {
                assert(frames.skip(done) =~= frame_pad(offset) + (whole_frame + behind));
            }
            let leftover = K_BLOCK_SIZE - self.block_offset_;
            if leftover < K_HEADER_SIZE {
                if leftover > 0 {
                    let zero: [u8; 7] = [0; 7];
                    let pad = self.dest_.append(
                        &Slice::new_from_ptr(slice_subrange(zero.as_slice(), 0, leftover)),
                    );
                    proof {
                        assert(zero@.subrange(0, leftover as int) =~= frame_pad(offset));
                    }
                    if !pad.is_ok() {
                        proof {
                            lemma_grown_step(
                                frames,
                                done,
                                frame_pad(offset),
                                whole_frame + behind,
                                start_written,
                                written,
                                self.written(),
                            );
                        }
                        return pad;
                    }
                }
                self.block_offset_ = 0;
            }
            assert(self.written() =~= written + frame_pad(offset));
            proof {
                lemma_grown_whole(written, frame_pad(offset));
                lemma_grown_step(
                    frames,
                    done,
                    frame_pad(offset),
                    whole_frame + behind,
                    start_written,
                    written,
                    self.written(),
                );
                done = done + frame_pad(offset).len();
            }
            let ghost padded = self.written();
            let avail = K_BLOCK_SIZE - self.block_offset_ - K_HEADER_SIZE;
            let fragment_length = if left < avail {
                left
            } else {
                avail
            };
            let end = left == fragment_length;
            let record_type = if begin && end {
                RecordType::KFullType
            } else if begin {
                RecordType::KFirstType
            } else if end {
                RecordType::KLastType
            } else {
                RecordType::KMiddleType
            };
            assert(data@.subrange(pos as int, pos + fragment_length) =~= rest.take(
                fragment_length as int,
            ));
            let s = self.emit_physical_record(
                record_type,
                slice_subrange(data, pos, pos + fragment_length),
            );
            proof {
                assert(rest.skip(fragment_length as int) =~= data@.skip(pos + fragment_length));
                lemma_grown_step(
                    frames,
                    done,
                    whole_frame,
                    behind,
                    start_written,
                    padded,
                    self.written(),
                );
                done = done + whole_frame.len();
            }
            pos = pos + fragment_length;
            left = left - fragment_length;
            begin = false;
            if !s.is_ok() || left == 0 {
                return s;
            }
        }
    }
}

} // verus!
