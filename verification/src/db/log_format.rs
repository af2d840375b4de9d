//! Layout of the write-ahead log: blocks of 32768 bytes filled with
//! fragments, each behind a header of seven bytes.

use crate::util::coding::fixed32_bytes;
use crate::util::crc32c::{crc32c_continued, crc32c_of, mask_spec};
use vstd::prelude::*;

verus! {

/// Kind of a fragment.
#[derive(Debug, Clone, Copy, PartialEq, Eq, Structural)]
pub enum RecordType {
    /// Reserved for preallocated files.
    KZeroType,
    KFullType,
    KFirstType,
    KMiddleType,
    KLastType,
}

pub const K_MAX_RECORD_TYPE: usize = 4;

pub const K_BLOCK_SIZE: usize = 32768;

/// Checksum (4 bytes), length (2 bytes), type (1 byte).
pub const K_HEADER_SIZE: usize = 4 + 2 + 1;

impl RecordType {
    /// The type byte of a kind of fragment.
    pub open spec fn spec_to_u8(self) -> u8 {
        match self {
            RecordType::KZeroType => 0,
            RecordType::KFullType => 1,
            RecordType::KFirstType => 2,
            RecordType::KMiddleType => 3,
            RecordType::KLastType => 4,
        }
    }

    /// The kind of fragment that a type byte stands for, if any.
    pub open spec fn spec_from_u8(byte: u8) -> Option<RecordType> {
        if byte == 0 {
            Some(RecordType::KZeroType)
        } else if byte == 1 {
            Some(RecordType::KFullType)
        } else if byte == 2 {
            Some(RecordType::KFirstType)
        } else if byte == 3 {
            Some(RecordType::KMiddleType)
        } else if byte == 4 {
            Some(RecordType::KLastType)
        } else {
            None
        }
    }

    pub fn to_u8(self) -> (byte: u8)
        ensures
            byte == self.spec_to_u8(),
            byte <= 4,
    {
        match self {
            RecordType::KZeroType => 0,
            RecordType::KFullType => 1,
            RecordType::KFirstType => 2,
            RecordType::KMiddleType => 3,
            RecordType::KLastType => 4,
        }
    }

    pub fn from_u8(byte: u8) -> (kind: Option<RecordType>)
        ensures
            kind == Self::spec_from_u8(byte),
    {
        if byte == 0 {
            Some(RecordType::KZeroType)
        } else if byte == 1 {
            Some(RecordType::KFullType)
        } else if byte == 2 {
            Some(RecordType::KFirstType)
        } else if byte == 3 {
            Some(RecordType::KMiddleType)
        } else if byte == 4 {
            Some(RecordType::KLastType)
        } else {
            None
        }
    }
}

/// The checksum of a fragment: the CRC32C of its type byte continued over
/// its payload.
pub open spec fn fragment_crc(type_byte: u8, payload: Seq<u8>) -> u32 {
    crc32c_continued(crc32c_of(seq![type_byte]), payload)
}

/// The header of a fragment: masked checksum, length and type.
pub open spec fn fragment_header(type_byte: u8, payload: Seq<u8>) -> Seq<u8>
    recommends
        payload.len() <= 0xffff,
{
    fixed32_bytes(mask_spec(fragment_crc(type_byte, payload))) + seq![
        (payload.len() % 256) as u8,
        (payload.len() / 256) as u8,
        type_byte,
    ]
}

/// A fragment as it stands in the log.
pub open spec fn fragment_bytes(type_byte: u8, payload: Seq<u8>) -> Seq<u8>
    recommends
        payload.len() <= 0xffff,
{
    fragment_header(type_byte, payload) + payload
}

/// The kind of the fragment that opens a record (`begin`) or not, and
/// closes it (`end`) or not.
pub open spec fn fragment_type(begin: bool, end: bool) -> RecordType {
    if begin && end {
        RecordType::KFullType
    } else if begin {
        RecordType::KFirstType
    } else if end {
        RecordType::KLastType
    } else {
        RecordType::KMiddleType
    }
}

/// What writing `data` adds to a log whose last block holds `offset` bytes:
/// zeros to the end of the block where fewer than seven bytes are left in
/// it, then as much of `data` as the block takes behind a header, then the
/// rest in the same way.  `begin` says whether `data` starts a record.
#[verifier::opaque]
pub open spec fn record_frames(offset: nat, data: Seq<u8>, begin: bool) -> Seq<u8>
    decreases data.len(), 32768 - offset,
{
    if offset > 32768 {
        Seq::empty()
    } else {
        let leftover = (32768 - offset) as nat;
        let pad = if leftover < 7 {
            Seq::new(leftover, |i: int| 0u8)
        } else {
            Seq::empty()
        };
        let start = if leftover < 7 {
            0nat
        } else {
            offset
        };
        let avail = (32768 - start - 7) as nat;
        let n = if data.len() < avail {
            data.len()
        } else {
            avail
        };
        let end = data.len() == n;
        let head = pad + fragment_bytes(
            fragment_type(begin, end).spec_to_u8(),
            data.take(n as int),
        );
        if end {
            head
        } else {
            head + record_frames(start + 7 + n, data.skip(n as int), false)
        }
    }
}

/// How many bytes the last block of the log holds once `data` is written,
/// where it held `offset` bytes before.
#[verifier::opaque]
pub open spec fn record_end_offset(offset: nat, data: Seq<u8>) -> nat
    decreases data.len(), 32768 - offset,
{
    if offset > 32768 {
        offset
    } else {
        let leftover = (32768 - offset) as nat;
        let start = if leftover < 7 {
            0nat
        } else {
            offset
        };
        let avail = (32768 - start - 7) as nat;
        let n = if data.len() < avail {
            data.len()
        } else {
            avail
        };
        if data.len() == n {
            start + 7 + n
        } else {
            record_end_offset(start + 7 + n, data.skip(n as int))
        }
    }
}

/// The zeros written before a fragment where the block that holds `offset`
/// bytes has fewer than seven left.
pub open spec fn frame_pad(offset: nat) -> Seq<u8> {
    if 32768 - offset < 7 {
        Seq::new((32768 - offset) as nat, |i: int| 0u8)
    } else {
        Seq::empty()
    }
}

/// Where in its block the next fragment starts.
pub open spec fn frame_start(offset: nat) -> nat {
    if 32768 - offset < 7 {
        0
    } else {
        offset
    }
}

/// How many of `len` bytes the next fragment takes.
pub open spec fn frame_take(offset: nat, len: nat) -> nat {
    let avail = (32768 - frame_start(offset) - 7) as nat;
    if len < avail {
        len
    } else {
        avail
    }
}

/// The frames of a record are its first fragment, behind padding where the
/// block is full, and the frames of what the fragment left over.
pub proof fn lemma_record_frames_unfold(offset: nat, data: Seq<u8>, begin: bool)
    requires
        offset <= 32768,
    ensures
        ({
            let n = frame_take(offset, data.len());
            let end = data.len() == n;
            let frame = fragment_bytes(
                fragment_type(begin, end).spec_to_u8(),
                data.take(n as int),
            );
            let next = frame_start(offset) + 7 + n;
            &&& n <= data.len()
            &&& n <= 32761
            &&& next <= 32768
            &&& end ==> record_frames(offset, data, begin) == frame_pad(offset) + frame
            &&& end ==> record_end_offset(offset, data) == next
            &&& !end ==> record_frames(offset, data, begin) == frame_pad(offset) + frame
                + record_frames(next, data.skip(n as int), false)
            &&& !end ==> record_end_offset(offset, data) == record_end_offset(
                next,
                data.skip(n as int),
            )
        }),
{
    reveal(record_frames);
    reveal(record_end_offset);
}

} // verus!
