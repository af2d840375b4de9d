//! Block handles, the table footer, and reading one block off a file.

use crate::obj::options::{CompressionType, ReadOptions};
use crate::obj::slice::Slice;
use crate::obj::status_rs::{Status, StatusCode};
use crate::util::coding::{
    decode_fixed32, fixed32_bytes, fixed32_value, get_varint64, lemma_fixed32_roundtrip,
    lemma_varint64_roundtrip, lemma_varint_bytes_len, put_fixed32, put_varint64, varint64_parse,
    varint_bytes, varint_len,
};
use crate::util::crc32c::{crc32c_of, unmask_spec};
use crate::util::random_access_file::{file_range, RandomAccessFile};
use vstd::prelude::*;
use vstd::slice::slice_subrange;

verus! {

/// Longest encoding of a block handle: two base-128 numbers of ten bytes.
pub const K_MAX_ENCODED_LENGTH: u64 = 10 + 10;

/// Length of an encoded footer: two padded handles and the magic number.
pub const K_ENCODED_LENGTH: u64 = 2 * K_MAX_ENCODED_LENGTH + 8;

/// Marks the end of a table file.
pub const K_TABLE_MAGIC_NUMBER: u64 = 0xdb4775248b80fb57;

/// Length of what follows every block body: a type byte and a checksum.
pub const K_BLOCK_TRAILER_SIZE: u64 = 5;

/// Where a block lies in its file: the offset of its body and the body's
/// size, trailer not counted.
#[derive(Debug, Clone, Copy, PartialEq, Eq, Structural)]
pub struct BlockHandle {
    offset: u64,
    size: u64,
}

/// The encoding of a handle: offset, then size, each in base 128.
pub open spec fn handle_bytes(h: BlockHandle) -> Seq<u8> {
    varint_bytes(h.spec_offset() as nat) + varint_bytes(h.spec_size() as nat)
}

/// The handle at the front of `s` and the count of bytes that hold it.
pub open spec fn handle_parse(s: Seq<u8>) -> Option<(BlockHandle, nat)> {
    match varint64_parse(s) {
        Some((offset, used1)) => match varint64_parse(s.skip(used1 as int)) {
            Some((size, used2)) => Some((BlockHandle::spec_new(offset, size), used1 + used2)),
            None => None,
        },
        None => None,
    }
}

/// A handle decodes to itself, whatever follows it.
pub proof fn lemma_handle_roundtrip(h: BlockHandle, rest: Seq<u8>)
    ensures
        handle_bytes(h).len() <= K_MAX_ENCODED_LENGTH,
        handle_parse(handle_bytes(h) + rest) == Some((h, handle_bytes(h).len())),
{
    let o = h.spec_offset();
    let z = h.spec_size();
    let s = handle_bytes(h) + rest;
    lemma_varint_bytes_len(o as nat);
    lemma_varint_bytes_len(z as nat);
    lemma_varint64_roundtrip(o, varint_bytes(z as nat) + rest);
    assert(s =~= varint_bytes(o as nat) + (varint_bytes(z as nat) + rest));
    assert(s.skip(varint_len(o as nat) as int) =~= varint_bytes(z as nat) + rest);
    lemma_varint64_roundtrip(z, rest);
}

impl BlockHandle {
    pub closed spec fn spec_offset(self) -> u64 {
        self.offset
    }

    pub closed spec fn spec_size(self) -> u64 {
        self.size
    }

    /// The handle with the given offset and size.
    pub closed spec fn spec_new(offset: u64, size: u64) -> BlockHandle {
        BlockHandle { offset, size }
    }

    /// Two handles with the same offset and size are the same handle.
    pub broadcast proof fn lemma_fields(self)
        ensures
            #[trigger] BlockHandle::spec_new(self.spec_offset(), self.spec_size()) == self,
    {
    }

    /// The offset and size of a handle are those it was made with.
    pub broadcast proof fn lemma_new(offset: u64, size: u64)
        ensures
            (#[trigger] BlockHandle::spec_new(offset, size)).spec_offset() == offset,
            BlockHandle::spec_new(offset, size).spec_size() == size,
    {
    }

    /// The handle of offset 0 and size 0.
    pub fn new() -> (h: BlockHandle)
        ensures
            h == BlockHandle::spec_new(0, 0),
    {
        BlockHandle { offset: 0, size: 0 }
    }

    pub fn set_offset(&mut self, offset: u64)
        ensures
            *final(self) == BlockHandle::spec_new(offset, old(self).spec_size()),
    {
        self.offset = offset;
    }

    pub fn set_size(&mut self, size: u64)
        ensures
            *final(self) == BlockHandle::spec_new(old(self).spec_offset(), size),
    {
        self.size = size;
    }

    pub fn offset(&self) -> (o: u64)
        ensures
            o == self.spec_offset(),
    {
        self.offset
    }

    pub fn size(&self) -> (s: u64)
        ensures
            s == self.spec_size(),
    {
        self.size
    }

    /// Appends the encoding of this handle to `dst`.
    pub fn encode_to(&self, dst: &mut Vec<u8>)
        ensures
            final(dst)@ == old(dst)@ + handle_bytes(*self),
    {
        put_varint64(dst, self.offset);
        put_varint64(dst, self.size);
        assert(dst@ =~= old(dst)@ + handle_bytes(*self));
    }

    /// Takes a handle off the front of `input`.  Fails with `Corruption`
    /// where none is there; what was decoded until then stays taken.
    pub fn decode_from(&mut self, input: &mut Slice) -> (status: Status)
        ensures
            match handle_parse(old(input)@) {
                Some((h, used)) => status.spec_code() == StatusCode::Kok && *final(self) == h
                    && final(input)@ == old(input)@.skip(used as int),
                None => status.spec_code() == StatusCode::KCorruption && status.spec_message()
                    == Some("bad block handle"@) && match varint64_parse(old(input)@) {
                    Some((offset, used1)) => *final(self) == BlockHandle::spec_new(
                        offset,
                        old(self).spec_size(),
                    ) && final(input)@ == old(input)@.skip(used1 as int),
                    None => *final(self) == *old(self) && final(input)@ == old(input)@,
                },
            },
    {
        if get_varint64(input, &mut self.offset) && get_varint64(input, &mut self.size) {
            proof {
                let u1 = varint64_parse(old(input)@).unwrap().1;
                let u2 = varint64_parse(old(input)@.skip(u1 as int)).unwrap().1;
                crate::util::coding::lemma_varint_parse_used(old(input)@, 10);
                crate::util::coding::lemma_varint_parse_used(old(input)@.skip(u1 as int), 10);
                assert(input@ =~= old(input)@.skip((u1 + u2) as int));
            }
            Status::ok()
        } else {
            Status::corruption("bad block handle", None)
        }
    }
}

/// The tail of a table file: where the meta-index block and the index block
/// lie.
#[derive(Debug, Clone, Copy, PartialEq, Eq, Structural)]
pub struct Footer {
    meta_index_handle: BlockHandle,
    index_handle: BlockHandle,
}

/// `n` zero bytes.
pub open spec fn zeros(n: nat) -> Seq<u8> {
    Seq::new(n, |i: int| 0u8)
}

/// The magic number as it stands at the end of a footer: the low half, then
/// the high half, each least significant byte first.
pub open spec fn magic_bytes() -> Seq<u8> {
    fixed32_bytes(0x8b80fb57) + fixed32_bytes(0xdb477524)
}

/// The 48 bytes of a footer: both handles, zeros up to 40 bytes, the magic
/// number.
pub open spec fn footer_bytes(f: Footer) -> Seq<u8> {
    let handles = handle_bytes(f.spec_meta_index_handle()) + handle_bytes(f.spec_index_handle());
    handles + zeros((40 - handles.len()) as nat) + magic_bytes()
}

/// Why a footer does not decode.
#[derive(Debug, Clone, Copy, PartialEq, Eq, Structural)]
pub enum FooterError {
    TooShort,
    BadMagic,
    BadHandle,
}

/// The footer at the front of `s`.
pub open spec fn footer_parse(s: Seq<u8>) -> Result<Footer, FooterError> {
    if s.len() < 48 {
        Err(FooterError::TooShort)
    } else if s.subrange(40, 48) != magic_bytes() {
        Err(FooterError::BadMagic)
    } else {
        match handle_parse(s) {
            Some((meta, used)) => match handle_parse(s.skip(used as int)) {
                Some((index, used2)) => Ok(Footer::spec_new(meta, index)),
                None => Err(FooterError::BadHandle),
            },
            None => Err(FooterError::BadHandle),
        }
    }
}

/// A footer is 48 bytes long and decodes to itself, whatever follows it.
pub proof fn lemma_footer_roundtrip(f: Footer, rest: Seq<u8>)
    ensures
        footer_bytes(f).len() == 48,
        footer_parse(footer_bytes(f) + rest) == Ok::<Footer, FooterError>(f),
{
    let m = f.spec_meta_index_handle();
    let x = f.spec_index_handle();
    let handles = handle_bytes(m) + handle_bytes(x);
    let pad = zeros((40 - handles.len()) as nat);
    let s = footer_bytes(f) + rest;
    lemma_handle_roundtrip(m, handle_bytes(x) + pad + magic_bytes() + rest);
    lemma_handle_roundtrip(x, pad + magic_bytes() + rest);
    assert(s =~= handle_bytes(m) + (handle_bytes(x) + pad + magic_bytes() + rest));
    assert(s.skip(handle_bytes(m).len() as int) =~= handle_bytes(x) + (pad + magic_bytes()
        + rest));
    assert(s.subrange(40, 48) =~= magic_bytes());
}

impl Footer {
    pub closed spec fn spec_meta_index_handle(self) -> BlockHandle {
        self.meta_index_handle
    }

    pub closed spec fn spec_index_handle(self) -> BlockHandle {
        self.index_handle
    }

    /// The footer with the given handles.
    pub closed spec fn spec_new(meta_index_handle: BlockHandle, index_handle: BlockHandle) -> Footer {
        Footer { meta_index_handle, index_handle }
    }

    /// A footer is made of its two handles.
    pub broadcast proof fn lemma_fields(self)
        ensures
            #[trigger] Footer::spec_new(self.spec_meta_index_handle(), self.spec_index_handle())
                == self,
    {
    }

    /// The handles of a footer are those it was made with.
    pub broadcast proof fn lemma_new(meta: BlockHandle, index: BlockHandle)
        ensures
            (#[trigger] Footer::spec_new(meta, index)).spec_meta_index_handle() == meta,
            Footer::spec_new(meta, index).spec_index_handle() == index,
    {
    }

    /// The footer whose handles are both of offset 0 and size 0.
    pub fn new() -> (f: Footer)
        ensures
            f == Footer::spec_new(BlockHandle::spec_new(0, 0), BlockHandle::spec_new(0, 0)),
    {
        Footer { meta_index_handle: BlockHandle::new(), index_handle: BlockHandle::new() }
    }

    pub fn meta_index_handle(&self) -> (h: &BlockHandle)
        ensures
            *h == self.spec_meta_index_handle(),
    {
        &self.meta_index_handle
    }

    pub fn index_handle(&self) -> (h: &BlockHandle)
        ensures
            *h == self.spec_index_handle(),
    {
        &self.index_handle
    }

    pub fn set_meta_index_handle(&mut self, meta_index_handle: &BlockHandle)
        ensures
            *final(self) == Footer::spec_new(*meta_index_handle, old(self).spec_index_handle()),
    {
        self.meta_index_handle = *meta_index_handle;
    }

    pub fn set_index_handle(&mut self, index_handle: &BlockHandle)
        ensures
            *final(self) == Footer::spec_new(old(self).spec_meta_index_handle(), *index_handle),
    {
        self.index_handle = *index_handle;
    }

    /// Appends the 48 bytes of this footer to `dst`.
    pub fn encode_to(&self, dst: &mut Vec<u8>)
        ensures
            final(dst)@ == old(dst)@ + footer_bytes(*self),
            footer_bytes(*self).len() == 48,
    {
        let mut buf: Vec<u8> = Vec::new();
        self.meta_index_handle.encode_to(&mut buf);
        self.index_handle.encode_to(&mut buf);
        proof {
            lemma_handle_roundtrip(self.meta_index_handle, Seq::empty());
            lemma_handle_roundtrip(self.index_handle, Seq::empty());
            assert(buf@ =~= handle_bytes(self.meta_index_handle) + handle_bytes(self.index_handle));
        }
        let ghost handles = buf@;
        while buf.len() < 40
            invariant
                handles.len() <= buf@.len() <= 40,
                buf@ == handles + zeros((buf@.len() - handles.len()) as nat),
            decreases 40 - buf@.len(),
        {
            let ghost before = buf@;
            buf.push(0);
            assert(buf@ =~= handles + zeros((buf@.len() - handles.len()) as nat));
        }
        put_fixed32(&mut buf, 0x8b80fb57);
        put_fixed32(&mut buf, 0xdb477524);
        proof {
            assert(buf@ =~= footer_bytes(*self));
        }
        crate::util::coding::append_bytes(dst, buf.as_slice());
    }

    /// Takes a footer off the front of `input`: 48 bytes.  Fails with
    /// `Corruption`, and leaves `input` as it was or behind what was decoded
    /// of the handles, where `input` is shorter, where the magic number is
    /// not at its place, or where a handle does not decode.
    pub fn decode_from(&mut self, input: &mut Slice) -> (status: Status)
        ensures
            match footer_parse(old(input)@) {
                Ok(f) => status.spec_code() == StatusCode::Kok && *final(self) == f
                    && final(input)@ == old(input)@.skip(48),
                Err(e) => status.spec_code() == StatusCode::KCorruption && status.spec_message()
                    == Some(
                    match e {
                        FooterError::TooShort => "input is too short to be an sstable"@,
                        FooterError::BadMagic => "not an sstable (bad magic number)"@,
                        FooterError::BadHandle => "bad block handle"@,
                    },
                ),
            },
            footer_parse(old(input)@) matches Err(e) && !(e is BadHandle) ==> *final(self) == *old(
                self,
            ) && final(input)@ == old(input)@,
    {
        let size = input.size();
        if size < K_ENCODED_LENGTH as usize {
            return Status::corruption("input is too short to be an sstable", None);
        }
        let magic_lo = decode_fixed32(slice_subrange(input.data(), 40, 48));
        let magic_hi = decode_fixed32(slice_subrange(input.data(), 44, 48));
        proof {
            let m = old(input)@.subrange(40, 48);
            assert(old(input)@.subrange(44, 48) =~= m.skip(4));
            lemma_fixed32_roundtrip(0x8b80fb57, fixed32_bytes(0xdb477524));
            lemma_fixed32_roundtrip(0xdb477524, Seq::empty());
            assert(magic_bytes().skip(4) =~= fixed32_bytes(0xdb477524) + Seq::<u8>::empty());
            if magic_lo == 0x8b80fb57 && magic_hi == 0xdb477524 {
                lemma_fixed32_bytes(m);
                lemma_fixed32_bytes(m.skip(4));
                assert(m =~= m.take(4) + m.skip(4).take(4));
                assert(m =~= magic_bytes());
            }
        }
        if magic_lo != 0x8b80fb57 || magic_hi != 0xdb477524 {
            return Status::corruption("not an sstable (bad magic number)", None);
        }
        let mut result = self.meta_index_handle.decode_from(input);
        if result.is_ok() {
            result = self.index_handle.decode_from(input);
        }
        if result.is_ok() {
            proof {
                let (meta, used) = handle_parse(old(input)@).unwrap();
                let (index, used2) = handle_parse(old(input)@.skip(used as int)).unwrap();
                lemma_handle_parse_used(old(input)@);
                lemma_handle_parse_used(old(input)@.skip(used as int));
                lemma_footer_handles_fit(old(input)@);
                assert(input@ =~= old(input)@.skip((used + used2) as int));
            }
            let taken = size - input.size();
            input.advance(48 - taken);
        }
        result
    }
}

/// Where a handle decodes, it was read from at least two and at most
/// twenty bytes that the input holds.
pub proof fn lemma_handle_parse_used(s: Seq<u8>)
    ensures
        match handle_parse(s) {
            Some((h, used)) => 2 <= used <= 20 && used <= s.len(),
            None => true,
        },
{
    crate::util::coding::lemma_varint_parse_used(s, 10);
    match varint64_parse(s) {
        Some((o, u1)) => {
            crate::util::coding::lemma_varint_parse_used(s.skip(u1 as int), 10);
        },
        None => {},
    }
}

proof fn lemma_footer_handles_fit(s: Seq<u8>)
    ensures
        match handle_parse(s) {
            Some((h, used)) => match handle_parse(s.skip(used as int)) {
                Some((h2, used2)) => used + used2 <= 40,
                None => true,
            },
            None => true,
        },
{
    lemma_handle_parse_used(s);
    match handle_parse(s) {
        Some((h, used)) => {
            lemma_handle_parse_used(s.skip(used as int));
        },
        None => {},
    }
}

/// Four bytes are the little-endian bytes of the number they decode to.
proof fn lemma_fixed32_bytes(s: Seq<u8>)
    requires
        s.len() >= 4,
    ensures
        fixed32_bytes(fixed32_value(s)) == s.take(4),
{
    lemma_byte_digits(s[0], s[1], s[2], s[3]);
    assert(fixed32_bytes(fixed32_value(s)) =~= s.take(4));
}

proof fn lemma_byte_digits(b0: u8, b1: u8, b2: u8, b3: u8)
    by (bit_vector)
    ensures
        b0 + 256 * b1 + 65536 * b2 + 16777216 * b3 <= 0xffff_ffff,
        ((b0 + 256 * b1 + 65536 * b2 + 16777216 * b3) as u32) % 256 == b0,
        ((b0 + 256 * b1 + 65536 * b2 + 16777216 * b3) as u32) / 256 % 256 == b1,
        ((b0 + 256 * b1 + 65536 * b2 + 16777216 * b3) as u32) / 65536 % 256 == b2,
        ((b0 + 256 * b1 + 65536 * b2 + 16777216 * b3) as u32) / 16777216 == b3,
{
}

/// The bytes of a block as its reader hands them on, and whether they may
/// be kept in the block cache.
#[derive(Debug)]
pub struct BlockContents {
    pub data: Slice,
    pub cachable: bool,
}

/// The error type of the `snap` crate.
#[verifier::external_type_specification]
#[verifier::external_body]
pub struct ExSnapError(snap::Error);

/// The error type of `zstd_safe::get_frame_content_size`.
#[verifier::external_type_specification]
#[verifier::external_body]
pub struct ExContentSizeError(zstd_safe::ContentSizeError);

/// The uncompressed length that a Snappy block announces in its header;
/// `None` where the header is not valid.
pub uninterp spec fn snappy_length(input: Seq<u8>) -> Option<nat>;

/// What a Snappy block decompresses to; `None` where it is not valid.
pub uninterp spec fn snappy_output(input: Seq<u8>) -> Option<Seq<u8>>;

/// The content size that a Zstandard frame announces: `None` where the
/// frame header is cut short or not valid, `Some(None)` where it announces
/// no size.
pub uninterp spec fn zstd_frame_content_size(input: Seq<u8>) -> Option<Option<u64>>;

/// What a Zstandard frame decompresses to in a buffer of `room` bytes;
/// `None` where it is not valid or does not fit.
pub uninterp spec fn zstd_output(input: Seq<u8>, room: nat) -> Option<Seq<u8>>;

/// Calls `snap::raw::decompress_len`, which reads the uncompressed length
/// from the header of a Snappy block and refuses a length above 2^32 - 1.
#[verifier::external_body]
fn snappy_decompress_len(input: &[u8]) -> (r: Result<usize, snap::Error>)
    ensures
        match r {
            Ok(n) => snappy_length(input@) == Some(n as nat) && n <= u32::MAX,
            Err(_) => snappy_length(input@) is None,
        },
{
    snap::raw::decompress_len(input)
}

/// Calls `snap::raw::Decoder::decompress_vec`, which decompresses a Snappy
/// block into a new vector.
#[verifier::external_body]
fn snappy_decompress(input: &[u8]) -> (r: Result<Vec<u8>, snap::Error>)
    ensures
        match r {
            Ok(out) => snappy_output(input@) == Some(out@),
            Err(_) => snappy_output(input@) is None,
        },
{
    snap::raw::Decoder::new().decompress_vec(input)
}

/// Calls `zstd_safe::get_frame_content_size`, which reads the content size
/// from the header of a Zstandard frame.
#[verifier::external_body]
fn zstd_content_size(input: &[u8]) -> (r: Result<Option<u64>, zstd_safe::ContentSizeError>)
    ensures
        match r {
            Ok(size) => zstd_frame_content_size(input@) == Some(size),
            Err(_) => zstd_frame_content_size(input@) is None,
        },
{
    zstd_safe::get_frame_content_size(input)
}

/// Calls `zstd_safe::decompress`, which decompresses one Zstandard frame
/// into a buffer, here `room` bytes of a new vector, and returns how many
/// bytes it wrote, or an error code where the frame is not valid or the
/// buffer too small.
#[verifier::external_body]
fn zstd_decompress(input: &[u8], room: usize) -> (r: Result<Vec<u8>, usize>)
    requires
        room <= isize::MAX,
    ensures
        match r {
            Ok(out) => zstd_output(input@, room as nat) == Some(out@),
            Err(_) => zstd_output(input@, room as nat) is None,
        },
{
    let mut out: Vec<u8> = vec![0u8; room];
    let written = zstd_safe::decompress(&mut out[..], input)?;
    out.truncate(written);
    Ok(out)
}

/// Why the bytes read for a block do not make a block.
#[derive(Debug, Clone, Copy, PartialEq, Eq, Structural)]
pub enum BlockError {
    Truncated,
    ChecksumMismatch,
    BadType,
    BadSnappyLength,
    BadSnappyContents,
    BadZstdLength,
    BadZstdContents,
}

/// The message of each block error.
pub open spec fn block_error_message(e: BlockError) -> Seq<char> {
    match e {
        BlockError::Truncated => "truncated block read"@,
        BlockError::ChecksumMismatch => "block checksum mismatch"@,
        BlockError::BadType => "bad block type"@,
        BlockError::BadSnappyLength => "corrupted snappy compressed block length"@,
        BlockError::BadSnappyContents => "corrupted snappy compressed block"@,
        BlockError::BadZstdLength => "corrupted zstd compressed block length"@,
        BlockError::BadZstdContents => "corrupted zstd compressed block"@,
    }
}

/// What a compressed body of the given kind holds.
pub open spec fn body_uncompressed(kind: CompressionType, body: Seq<u8>) -> Result<
    Seq<u8>,
    BlockError,
> {
    match kind {
        CompressionType::KnoCompression => Ok(body),
        CompressionType::KSnappyCompression => match snappy_length(body) {
            None => Err(BlockError::BadSnappyLength),
            Some(_) => match snappy_output(body) {
                None => Err(BlockError::BadSnappyContents),
                Some(data) => Ok(data),
            },
        },
        CompressionType::KZstdCompression => match zstd_frame_content_size(body) {
            Some(Some(size)) => if size <= isize::MAX {
                match zstd_output(body, size as nat) {
                    None => Err(BlockError::BadZstdContents),
                    Some(data) => Ok(data),
                }
            } else {
                Err(BlockError::BadZstdLength)
            },
            _ => Err(BlockError::BadZstdLength),
        },
    }
}

/// The block that `raw` holds, read for a handle of size `n`: `raw` must be
/// `n` bytes of body, a type byte, and the masked CRC32C of body and type
/// byte, which is compared only where `verify` is set.
pub open spec fn block_wire_parse(raw: Seq<u8>, n: nat, verify: bool) -> Result<
    Seq<u8>,
    BlockError,
> {
    if raw.len() != n + 5 {
        Err(BlockError::Truncated)
    } else if verify && unmask_spec(fixed32_value(raw.skip(n + 1 as int))) != crc32c_of(
        raw.take(n + 1 as int),
    ) {
        Err(BlockError::ChecksumMismatch)
    } else {
        match CompressionType::spec_from_u8(raw[n as int]) {
            None => Err(BlockError::BadType),
            Some(kind) => body_uncompressed(kind, raw.take(n as int)),
        }
    }
}

/// The block that a file holds where `handle` points, with or without a
/// comparison of its checksum.
pub open spec fn block_of_file(contents: Seq<u8>, handle: BlockHandle, verify: bool) -> Result<
    Seq<u8>,
    BlockError,
> {
    block_wire_parse(
        file_range(contents, handle.spec_offset() as int, handle.spec_size() + 5),
        handle.spec_size() as nat,
        verify,
    )
}

fn block_error(e: BlockError) -> (status: Status)
    ensures
        status.spec_code() == StatusCode::KCorruption,
        status.spec_message() == Some(block_error_message(e)),
{
    match e {
        BlockError::Truncated => Status::corruption("truncated block read", None),
        BlockError::ChecksumMismatch => Status::corruption("block checksum mismatch", None),
        BlockError::BadType => Status::corruption("bad block type", None),
        BlockError::BadSnappyLength => Status::corruption(
            "corrupted snappy compressed block length",
            None,
        ),
        BlockError::BadSnappyContents => Status::corruption(
            "corrupted snappy compressed block",
            None,
        ),
        BlockError::BadZstdLength => Status::corruption(
            "corrupted zstd compressed block length",
            None,
        ),
        BlockError::BadZstdContents => Status::corruption("corrupted zstd compressed block", None),
    }
}

/// Uncompresses the body of a block of the given kind.
pub fn uncompress_body(kind: CompressionType, body: &[u8]) -> (r: Result<Vec<u8>, BlockError>)
    ensures
        match r {
            Ok(data) => body_uncompressed(kind, body@) == Ok::<Seq<u8>, BlockError>(data@),
            Err(e) => body_uncompressed(kind, body@) == Err::<Seq<u8>, BlockError>(e),
        },
{
    match kind {
        CompressionType::KnoCompression => Ok(vstd::slice::slice_to_vec(body)),
        CompressionType::KSnappyCompression => {
            if snappy_decompress_len(body).is_err() {
                return Err(BlockError::BadSnappyLength);
            }
            match snappy_decompress(body) {
                Ok(data) => Ok(data),
                Err(_) => Err(BlockError::BadSnappyContents),
            }
        },
        CompressionType::KZstdCompression => {
            let size = match zstd_content_size(body) {
                Ok(Some(size)) => size,
                _ => { return Err(BlockError::BadZstdLength); },
            };
            if size > isize::MAX as u64 {
                return Err(BlockError::BadZstdLength);
            }
            match zstd_decompress(body, size as usize) {
                Ok(data) => Ok(data),
                Err(_) => Err(BlockError::BadZstdContents),
            }
        },
    }
}

/// Makes a block of the bytes read for a handle of size `n`.  Fails with
/// `Corruption`, and the message of the error, where they do not hold one.
pub fn decode_block(raw: &[u8], n: usize, verify_checksums: bool) -> (r: Result<
    BlockContents,
    Status,
>)
    ensures
        match r {
            Ok(contents) => block_wire_parse(raw@, n as nat, verify_checksums) == Ok::<
                Seq<u8>,
                BlockError,
            >(contents.data@) && contents.cachable,
            Err(status) => status.spec_code() == StatusCode::KCorruption && match block_wire_parse(
                raw@,
                n as nat,
                verify_checksums,
            ) {
                Ok(_) => false,
                Err(e) => status.spec_message() == Some(block_error_message(e)),
            },
        },
{
    let len = raw.len();
    if n > usize::MAX - 5 || len != n + 5 {
        return Err(block_error(BlockError::Truncated));
    }
    if verify_checksums {
        let crc = crate::util::crc32c::unmask(decode_fixed32(slice_subrange(raw, n + 1, n + 5)));
        let actual = crate::util::crc32c::value(slice_subrange(raw, 0, n + 1));
        proof {
            assert(raw@.subrange(n + 1, n + 5) =~= raw@.skip(n + 1));
            assert(raw@.subrange(0, n + 1) =~= raw@.take(n + 1));
        }
        if crc != actual {
            return Err(block_error(BlockError::ChecksumMismatch));
        }
    }
    let kind = match CompressionType::from_u8(raw[n]) {
        Some(kind) => kind,
        None => { return Err(block_error(BlockError::BadType)); },
    };
    proof {
        assert(raw@.subrange(0, n as int) =~= raw@.take(n as int));
    }
    match uncompress_body(kind, slice_subrange(raw, 0, n)) {
        Ok(data) => Ok(BlockContents { data: Slice::new_from_vec(data), cachable: true }),
        Err(e) => Err(block_error(e)),
    }
}

/// Whether the block at `handle` is stored as it is, not compressed: its
/// type byte is 0.
pub open spec fn stored_plain(contents: Seq<u8>, handle: BlockHandle) -> bool {
    let raw = file_range(contents, handle.spec_offset() as int, handle.spec_size() + 5);
    raw.len() == handle.spec_size() + 5 && raw[handle.spec_size() as int] == 0
}

/// Whether a block read from a file may be kept in the block cache: not
/// where the file hands out its own memory and the block is stored as it
/// is, for a copy of what the file keeps at hand anyway gains nothing.
pub open spec fn block_cachable(lends: bool, contents: Seq<u8>, handle: BlockHandle) -> bool {
    !(lends && stored_plain(contents, handle))
}

/// Reads the block that `handle` points to: its body and the five bytes of
/// its trailer.  What the file returns is decoded by [`decode_block`]; an
/// error of the file is handed on as it is, and a steady file gives none
/// for a block that it holds.  A handle whose size and
/// trailer no machine word counts gives `Corruption` without a read.
pub fn read_block<F: RandomAccessFile>(
    file: &F,
    options: &ReadOptions,
    handle: &BlockHandle,
) -> (r: Result<BlockContents, Status>)
    ensures
        match r {
            Ok(contents) => block_of_file(file.contents(), *handle, options.verify_checksums)
                == Ok::<Seq<u8>, BlockError>(contents.data@) && contents.cachable
                == block_cachable(file.lends(), file.contents(), *handle),
            Err(status) => status.spec_code() != StatusCode::Kok,
        },
        file.steady() && handle.spec_size() <= usize::MAX - 5 && block_of_file(
            file.contents(),
            *handle,
            options.verify_checksums,
        ) is Ok ==> r is Ok,
        handle.spec_size() > usize::MAX - 5 ==> r is Err && r->Err_0.spec_code()
            == StatusCode::KCorruption && r->Err_0.spec_message() == Some(
            block_error_message(BlockError::Truncated),
        ),
{
    let size = handle.size();
    if size > (usize::MAX - 5) as u64 {
        return Err(block_error(BlockError::Truncated));
    }
    let n = size as usize;
    let raw = match file.read(handle.offset(), n + 5) {
        Ok(raw) => raw,
        Err(status) => { return Err(status); },
    };
    let mut contents = match decode_block(raw.data(), n, options.verify_checksums) {
        Ok(contents) => contents,
        Err(status) => { return Err(status); },
    };
    if file.is_lending() && raw.data()[n] == 0 {
        contents.cachable = false;
    }
    Ok(contents)
}

} // verus!
