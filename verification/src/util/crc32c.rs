//! CRC32C (Castagnoli) checksums and the masking applied to stored checksums.

use vstd::prelude::*;

verus! {

/// Constant added to a rotated checksum before it is stored.
pub const K_MASK_DELTA: u32 = 0xa282ead8;

/// The Castagnoli polynomial, bits reversed.
pub const K_POLYNOMIAL: u32 = 0x82f63b78;

/// The checksum register behind one more bit: shifted right, and changed
/// by the polynomial where a bit fell out.
pub open spec fn crc_bit(register: u32) -> u32 {
    if register & 1 == 1 {
        (register >> 1) ^ K_POLYNOMIAL
    } else {
        register >> 1
    }
}

/// The checksum register behind `count` more bits.
pub open spec fn crc_bits(register: u32, count: nat) -> u32
    decreases count,
{
    if count == 0 {
        register
    } else {
        crc_bits(crc_bit(register), (count - 1) as nat)
    }
}

/// The checksum register behind the bytes of `data`: each byte is added
/// to the low bits of the register, and eight bits are taken.
pub open spec fn crc_bytes(register: u32, data: Seq<u8>) -> u32
    decreases data.len(),
{
    if data.len() == 0 {
        register
    } else {
        crc_bits(crc_bytes(register, data.drop_last()) ^ (data.last() as u32), 8)
    }
}

/// The CRC32C of `data` continued from a running checksum `init`: the
/// register starts and ends with all bits turned over.
pub open spec fn crc32c_continued(init: u32, data: Seq<u8>) -> u32 {
    !crc_bytes(!init, data)
}

/// The checksum register behind two byte strings is that behind the
/// second, from the register behind the first.
pub proof fn lemma_crc_bytes_split(register: u32, first: Seq<u8>, second: Seq<u8>)
    ensures
        crc_bytes(register, first + second) == crc_bytes(crc_bytes(register, first), second),
    decreases second.len(),
{
    if second.len() == 0 {
        assert(first + second =~= first);
    } else {
        lemma_crc_bytes_split(register, first, second.drop_last());
        assert((first + second).drop_last() =~= first + second.drop_last());
        assert((first + second).last() == second.last());
    }
}

/// Feeding a byte string in two pieces gives the checksum of the whole.
pub proof fn lemma_crc_split(init: u32, data: Seq<u8>, k: int)
    requires
        0 <= k <= data.len(),
    ensures
        crc32c_continued(init, data) == crc32c_continued(
            crc32c_continued(init, data.subrange(0, k)),
            data.subrange(k, data.len() as int),
        ),
{
    let first = data.subrange(0, k);
    let second = data.subrange(k, data.len() as int);
    assert(first + second =~= data);
    lemma_crc_bytes_split(!init, first, second);
    let mid = crc_bytes(!init, first);
    assert(!!mid == mid) by (bit_vector);
}

/// The CRC32C of a whole byte string.
pub open spec fn crc32c_of(data: Seq<u8>) -> u32 {
    crc32c_continued(0, data)
}

/// `crc` rotated right by 15 bits plus the mask constant, modulo 2^32.
pub open spec fn mask_spec(crc: u32) -> u32 {
    (((crc >> 15) | (crc << 17)) as u32).wrapping_add(K_MASK_DELTA)
}

/// Inverse of [`mask_spec`].
pub open spec fn unmask_spec(masked: u32) -> u32 {
    let rot = masked.wrapping_sub(K_MASK_DELTA);
    ((rot >> 17) | (rot << 15)) as u32
}

/// Calls `crc32c::crc32c_append`, which continues a CRC32C over `data` from
/// the running value `init`.
#[verifier::external_body]
fn crc32c_append(init: u32, data: &[u8]) -> (crc: u32)
    ensures
        crc == crc32c_continued(init, data@),
{
    crc32c::crc32c_append(init, data)
}

/// Continues a checksum over more data.
pub fn extend(init_crc: u32, data: &[u8]) -> (crc: u32)
    ensures
        crc == crc32c_continued(init_crc, data@),
        forall|k: int|
            0 <= k <= data@.len() ==> crc == crc32c_continued(
                #[trigger] crc32c_continued(init_crc, data@.subrange(0, k)),
                data@.subrange(k, data@.len() as int),
            ),
{
    let crc = crc32c_append(init_crc, data);
    proof {
        assert forall|k: int| 0 <= k <= data@.len() implies crc == crc32c_continued(
            #[trigger] crc32c_continued(init_crc, data@.subrange(0, k)),
            data@.subrange(k, data@.len() as int),
        ) by {
            lemma_crc_split(init_crc, data@, k);
        }
    }
    crc
}

/// Checksum of `data` from the initial state.
pub fn value(data: &[u8]) -> (crc: u32)
    ensures
        crc == crc32c_of(data@),
        forall|k: int|
            0 <= k <= data@.len() ==> crc == crc32c_continued(
                #[trigger] crc32c_of(data@.subrange(0, k)),
                data@.subrange(k, data@.len() as int),
            ),
{
    extend(0, data)
}

/// Masks a checksum so that a stored checksum of data that itself embeds
/// checksums does not look like one.
pub fn mask(crc: u32) -> (masked: u32)
    ensures
        masked == mask_spec(crc),
{
    ((crc >> 15) | (crc << 17)).wrapping_add(K_MASK_DELTA)
}

/// Recovers the checksum from its masked form.
pub fn unmask(masked_crc: u32) -> (crc: u32)
    ensures
        crc == unmask_spec(masked_crc),
{
    let rot = masked_crc.wrapping_sub(K_MASK_DELTA);
    (rot >> 17) | (rot << 15)
}

/// Unmasking a masked checksum gives the checksum back.
pub proof fn lemma_unmask_mask(crc: u32)
    ensures
        unmask_spec(mask_spec(crc)) == crc,
{
    let rot: u32 = ((crc >> 15) | (crc << 17)) as u32;
    let m: u32 = rot.wrapping_add(K_MASK_DELTA);
    assert(m.wrapping_sub(K_MASK_DELTA) == rot) by {
        lemma_wrapping_add_sub(rot, K_MASK_DELTA);
    }
    assert(((rot >> 17) | (rot << 15)) as u32 == crc) by (bit_vector)
        requires
            rot == ((crc >> 15) | (crc << 17)) as u32,
    ;
}

/// Masking changes every checksum but two.
pub proof fn lemma_mask_changes(crc: u32)
    requires
        crc != 0xd7ee9ab5,
        crc != 0x8299f00b,
    ensures
        mask_spec(crc) != crc,
{
    lemma_rotated_sum_differs(crc);
}

proof fn lemma_rotated_sum_differs(crc: u32)
    by (bit_vector)
    requires
        crc != 0xd7ee9ab5,
        crc != 0x8299f00b,
    ensures
        ((crc >> 15) | (crc << 17)) + 0xa282ead8u32 != crc,
        ((crc >> 15) | (crc << 17)) + 0xa282ead8u32 - 0x1_0000_0000 != crc,
{
}

/// Adding then subtracting the same amount modulo 2^32 is the identity.
proof fn lemma_wrapping_add_sub(x: u32, d: u32)
    ensures
        x.wrapping_add(d).wrapping_sub(d) == x,
{
}

} // verus!
