//! Little-endian fixed-width integers, base-128 variable-width integers and
//! length-prefixed byte strings.

use crate::obj::slice::Slice;
use vstd::prelude::*;
use vstd::slice::slice_subrange;

verus! {

/// The four bytes of `v`, least significant first.
pub open spec fn fixed32_bytes(v: u32) -> Seq<u8> {
    seq![
        (v % 256) as u8,
        (v / 256 % 256) as u8,
        (v / 65536 % 256) as u8,
        (v / 16777216) as u8,
    ]
}

/// The number whose little-endian bytes are the first four of `s`.
pub open spec fn fixed32_value(s: Seq<u8>) -> u32
    recommends
        s.len() >= 4,
{
    (s[0] + 256 * s[1] + 65536 * s[2] + 16777216 * s[3]) as u32
}

/// The eight bytes of `v`, least significant first.
pub open spec fn fixed64_bytes(v: u64) -> Seq<u8> {
    fixed32_bytes((v % 4294967296) as u32) + fixed32_bytes((v / 4294967296) as u32)
}

/// The number whose little-endian bytes are the first eight of `s`.
pub open spec fn fixed64_value(s: Seq<u8>) -> u64
    recommends
        s.len() >= 8,
{
    (fixed32_value(s) + 4294967296 * fixed32_value(s.skip(4))) as u64
}

proof fn lemma_split32(v: u32)
    by (bit_vector)
    ensures
        v as u8 == v % 256,
        (v >> 8) as u8 == v / 256 % 256,
        (v >> 16) as u8 == v / 65536 % 256,
        (v >> 24) as u8 == v / 16777216,
{
}

proof fn lemma_join32(b0: u8, b1: u8, b2: u8, b3: u8)
    by (bit_vector)
    ensures
        (b0 as u32) | ((b1 as u32) << 8) | ((b2 as u32) << 16) | ((b3 as u32) << 24) == b0 + 256
            * b1 + 65536 * b2 + 16777216 * b3,
{
}

proof fn lemma_split64(v: u64)
    by (bit_vector)
    ensures
        v as u8 == (v % 4294967296) as u32 % 256,
        (v >> 8) as u8 == (v % 4294967296) as u32 / 256 % 256,
        (v >> 16) as u8 == (v % 4294967296) as u32 / 65536 % 256,
        (v >> 24) as u8 == (v % 4294967296) as u32 / 16777216,
        (v >> 32) as u8 == (v / 4294967296) as u32 % 256,
        (v >> 40) as u8 == (v / 4294967296) as u32 / 256 % 256,
        (v >> 48) as u8 == (v / 4294967296) as u32 / 65536 % 256,
        (v >> 56) as u8 == (v / 4294967296) as u32 / 16777216,
{
}

proof fn lemma_join64(b0: u8, b1: u8, b2: u8, b3: u8, b4: u8, b5: u8, b6: u8, b7: u8)
    by (bit_vector)
    ensures
        (b0 as u64) | ((b1 as u64) << 8) | ((b2 as u64) << 16) | ((b3 as u64) << 24) | ((b4 as u64)
            << 32) | ((b5 as u64) << 40) | ((b6 as u64) << 48) | ((b7 as u64) << 56) == (b0 + 256
            * b1 + 65536 * b2 + 16777216 * b3) + 4294967296 * (b4 + 256 * b5 + 65536 * b6
            + 16777216 * b7),
{
}

/// Decoding the little-endian bytes of a 32-bit number gives the number
/// back, whatever follows the four bytes.
pub proof fn lemma_fixed32_roundtrip(v: u32, rest: Seq<u8>)
    ensures
        fixed32_bytes(v).len() == 4,
        fixed32_value(fixed32_bytes(v) + rest) == v,
{
    lemma_digits32(v);
    let s = fixed32_bytes(v) + rest;
    assert(s[0] == v % 256);
    assert(s[1] == v / 256 % 256);
    assert(s[2] == v / 65536 % 256);
    assert(s[3] == v / 16777216);
}

proof fn lemma_digits32(v: u32)
    by (bit_vector)
    ensures
        (v % 256) + 256 * (v / 256 % 256) + 65536 * (v / 65536 % 256) + 16777216 * (v / 16777216)
            == v,
        v / 16777216 < 256,
{
}

/// Decoding the little-endian bytes of a 64-bit number gives the number
/// back, whatever follows the eight bytes.
pub proof fn lemma_fixed64_roundtrip(v: u64, rest: Seq<u8>)
    ensures
        fixed64_bytes(v).len() == 8,
        fixed64_value(fixed64_bytes(v) + rest) == v,
{
    let lo = (v % 4294967296) as u32;
    let hi = (v / 4294967296) as u32;
    let s = fixed64_bytes(v) + rest;
    lemma_fixed32_roundtrip(lo, fixed32_bytes(hi) + rest);
    assert(s =~= fixed32_bytes(lo) + (fixed32_bytes(hi) + rest));
    lemma_fixed32_roundtrip(hi, rest);
    assert(s.skip(4) =~= fixed32_bytes(hi) + rest);
}

/// Writes `value` into the first four bytes of `dst`, least significant
/// byte first.
pub fn encode_fixed32(dst: &mut [u8], value: u32)
    requires
        old(dst)@.len() >= 4,
    ensures
        final(dst)@.len() == old(dst)@.len(),
        final(dst)@.take(4) == fixed32_bytes(value),
        final(dst)@.skip(4) == old(dst)@.skip(4),
{
    proof {
        lemma_split32(value);
    }
    dst[0] = value as u8;
    dst[1] = (value >> 8) as u8;
    dst[2] = (value >> 16) as u8;
    dst[3] = (value >> 24) as u8;
    assert(dst@.take(4) =~= fixed32_bytes(value));
    assert(dst@.skip(4) =~= old(dst)@.skip(4));
}

/// Reads a number from the first four bytes of `src`, least significant
/// byte first.
pub fn decode_fixed32(src: &[u8]) -> (value: u32)
    requires
        src@.len() >= 4,
    ensures
        value == fixed32_value(src@),
{
    proof {
        lemma_join32(src@[0], src@[1], src@[2], src@[3]);
    }
    (src[0] as u32) | ((src[1] as u32) << 8) | ((src[2] as u32) << 16) | ((src[3] as u32) << 24)
}

/// Appends the four little-endian bytes of `value` to `dst`.
pub fn put_fixed32(dst: &mut Vec<u8>, value: u32)
    ensures
        final(dst)@ == old(dst)@ + fixed32_bytes(value),
{
    proof {
        lemma_split32(value);
    }
    dst.push(value as u8);
    dst.push((value >> 8) as u8);
    dst.push((value >> 16) as u8);
    dst.push((value >> 24) as u8);
    assert(dst@ =~= old(dst)@ + fixed32_bytes(value));
}

/// Writes `value` into the first eight bytes of `dst`, least significant
/// byte first.
pub fn encode_fixed64(dst: &mut [u8], value: u64)
    requires
        old(dst)@.len() >= 8,
    ensures
        final(dst)@.len() == old(dst)@.len(),
        final(dst)@.take(8) == fixed64_bytes(value),
        final(dst)@.skip(8) == old(dst)@.skip(8),
{
    proof {
        lemma_split64(value);
    }
    dst[0] = value as u8;
    dst[1] = (value >> 8) as u8;
    dst[2] = (value >> 16) as u8;
    dst[3] = (value >> 24) as u8;
    dst[4] = (value >> 32) as u8;
    dst[5] = (value >> 40) as u8;
    dst[6] = (value >> 48) as u8;
    dst[7] = (value >> 56) as u8;
    assert(dst@.take(8) =~= fixed64_bytes(value));
    assert(dst@.skip(8) =~= old(dst)@.skip(8));
}

/// Reads a number from the first eight bytes of `src`, least significant
/// byte first.
pub fn decode_fixed64(src: &[u8]) -> (value: u64)
    requires
        src@.len() >= 8,
    ensures
        value == fixed64_value(src@),
{
    proof {
        lemma_join64(
            src@[0],
            src@[1],
            src@[2],
            src@[3],
            src@[4],
            src@[5],
            src@[6],
            src@[7],
        );
    }
    (src[0] as u64) | ((src[1] as u64) << 8) | ((src[2] as u64) << 16) | ((src[3] as u64) << 24)
        | ((src[4] as u64) << 32) | ((src[5] as u64) << 40) | ((src[6] as u64) << 48) | ((
    src[7] as u64) << 56)
}

/// Appends the eight little-endian bytes of `value` to `dst`.
pub fn put_fixed64(dst: &mut Vec<u8>, value: u64)
    ensures
        final(dst)@ == old(dst)@ + fixed64_bytes(value),
{
    proof {
        lemma_split64(value);
    }
    dst.push(value as u8);
    dst.push((value >> 8) as u8);
    dst.push((value >> 16) as u8);
    dst.push((value >> 24) as u8);
    dst.push((value >> 32) as u8);
    dst.push((value >> 40) as u8);
    dst.push((value >> 48) as u8);
    dst.push((value >> 56) as u8);
    assert(dst@ =~= old(dst)@ + fixed64_bytes(value));
}

/// The base-128 encoding of `v`: seven bits to a byte, least significant
/// group first, the top bit set on every byte but the last.
pub open spec fn varint_bytes(v: nat) -> Seq<u8>
    decreases v,
{
    if v < 128 {
        seq![v as u8]
    } else {
        seq![(v % 128 + 128) as u8] + varint_bytes(v / 128)
    }
}

/// What a base-128 number at the front of `s` decodes to, reading at most
/// `max_bytes` bytes: the number and how many bytes hold it.  `None` where
/// `s` ends, or `max_bytes` are used up, before a byte without the top bit.
pub open spec fn varint_parse(s: Seq<u8>, max_bytes: nat) -> Option<(nat, nat)>
    decreases max_bytes,
{
    if max_bytes == 0 || s.len() == 0 {
        None
    } else if s[0] < 128 {
        Some((s[0] as nat, 1nat))
    } else {
        match varint_parse(s.skip(1), (max_bytes - 1) as nat) {
            Some((rest, used)) => Some((((s[0] - 128) + 128 * rest) as nat, used + 1)),
            None => None,
        }
    }
}

/// What `get_varint32ptr` makes of the front of `s`: the decoded number
/// reduced modulo 2^32, and the count of bytes it took.
pub open spec fn varint32_parse(s: Seq<u8>) -> Option<(u32, nat)> {
    match varint_parse(s, 5) {
        Some((v, used)) => Some(((v % 0x1_0000_0000) as u32, used)),
        None => None,
    }
}

/// What `get_varint64ptr` makes of the front of `s`: the decoded number
/// reduced modulo 2^64, and the count of bytes it took.
pub open spec fn varint64_parse(s: Seq<u8>) -> Option<(u64, nat)> {
    match varint_parse(s, 10) {
        Some((v, used)) => Some(((v % 0x1_0000_0000_0000_0000) as u64, used)),
        None => None,
    }
}

/// Number of bytes in the base-128 encoding of `v`.
pub open spec fn varint_len(v: nat) -> nat
    decreases v,
{
    if v < 128 {
        1
    } else {
        1 + varint_len(v / 128)
    }
}

/// The encoding of `v` has `varint_len(v)` bytes.
pub proof fn lemma_varint_bytes_len(v: nat)
    ensures
        varint_bytes(v).len() == varint_len(v),
    decreases v,
{
    if v >= 128 {
        lemma_varint_bytes_len(v / 128);
    }
}

/// A number below 128^k encodes in at most k bytes.
pub proof fn lemma_varint_len_bound(v: nat)
    ensures
        varint_len(v) >= 1,
        v < 0x80 ==> varint_len(v) == 1,
        0x80 <= v < 0x4000 ==> varint_len(v) == 2,
        0x4000 <= v < 0x20_0000 ==> varint_len(v) == 3,
        0x20_0000 <= v < 0x1000_0000 ==> varint_len(v) == 4,
        0x1000_0000 <= v < 0x8_0000_0000 ==> varint_len(v) == 5,
        v < 0x1_0000_0000 ==> varint_len(v) <= 5,
        v < 0x1_0000_0000_0000_0000 ==> varint_len(v) <= 10,
{
    reveal_with_fuel(varint_len, 11);
}

/// Decoding the encoding of `v` gives `v` and the length of the encoding,
/// whatever follows it, as long as the decoder may read that many bytes.
pub proof fn lemma_varint_roundtrip(v: nat, rest: Seq<u8>, max_bytes: nat)
    requires
        varint_len(v) <= max_bytes,
    ensures
        varint_parse(varint_bytes(v) + rest, max_bytes) == Some((v, varint_len(v))),
    decreases v,
{
    let s = varint_bytes(v) + rest;
    if v < 128 {
        assert(s[0] == v);
    } else {
        assert(s[0] == v % 128 + 128);
        assert(s.skip(1) =~= varint_bytes(v / 128) + rest);
        lemma_varint_roundtrip(v / 128, rest, (max_bytes - 1) as nat);
    }
}

/// A 32-bit number survives `put_varint32` followed by `get_varint32ptr`,
/// in at most five bytes.
pub proof fn lemma_varint32_roundtrip(v: u32, rest: Seq<u8>)
    ensures
        varint_len(v as nat) <= 5,
        varint32_parse(varint_bytes(v as nat) + rest) == Some((v, varint_len(v as nat))),
{
    lemma_varint_len_bound(v as nat);
    lemma_varint_roundtrip(v as nat, rest, 5);
}

/// A 64-bit number survives `put_varint64` followed by `get_varint64ptr`,
/// in at most ten bytes.
pub proof fn lemma_varint64_roundtrip(v: u64, rest: Seq<u8>)
    ensures
        varint_len(v as nat) <= 10,
        varint64_parse(varint_bytes(v as nat) + rest) == Some((v, varint_len(v as nat))),
{
    lemma_varint_len_bound(v as nat);
    lemma_varint_roundtrip(v as nat, rest, 10);
}

/// An encoding cut short does not decode.
pub proof fn lemma_varint_truncated(v: nat, cut: int, max_bytes: nat)
    requires
        0 <= cut < varint_len(v),
    ensures
        varint_parse(varint_bytes(v).take(cut), max_bytes) is None,
    decreases v,
{
    lemma_varint_bytes_len(v);
    let s = varint_bytes(v).take(cut);
    if cut > 0 && max_bytes > 0 {
        assert(v >= 128);
        assert(s[0] == v % 128 + 128);
        assert(s.skip(1) =~= varint_bytes(v / 128).take(cut - 1));
        lemma_varint_truncated(v / 128, cut - 1, (max_bytes - 1) as nat);
    }
}

/// A run of `max_bytes` bytes that all carry the continuation bit does not
/// decode, however long the input.
pub proof fn lemma_varint_overlong(s: Seq<u8>, max_bytes: nat)
    requires
        forall|i: int| 0 <= i < max_bytes && i < s.len() ==> s[i] >= 128,
    ensures
        varint_parse(s, max_bytes) is None,
    decreases max_bytes,
{
    if max_bytes > 0 && s.len() > 0 {
        let t = s.skip(1);
        assert forall|i: int| 0 <= i < max_bytes - 1 && i < t.len() implies t[i] >= 128 by {
            assert(t[i] == s[i + 1]);
        }
        lemma_varint_overlong(t, (max_bytes - 1) as nat);
    }
}

/// Where a number decodes, it was read from at least one and at most
/// `max_bytes` bytes that the input holds.
pub proof fn lemma_varint_parse_used(s: Seq<u8>, max_bytes: nat)
    ensures
        match varint_parse(s, max_bytes) {
            Some((v, used)) => 1 <= used <= max_bytes && used <= s.len(),
            None => true,
        },
    decreases max_bytes,
{
    if max_bytes > 0 && s.len() > 0 && s[0] >= 128 {
        lemma_varint_parse_used(s.skip(1), (max_bytes - 1) as nat);
    }
}

/// What is decoded depends only on the bytes that were read.
pub proof fn lemma_varint_parse_prefix(s: Seq<u8>, t: Seq<u8>, max_bytes: nat)
    requires
        varint_parse(s, max_bytes) is Some,
        varint_parse(s, max_bytes).unwrap().1 <= t.len(),
        t.len() <= s.len(),
        t == s.take(t.len() as int),
    ensures
        varint_parse(t, max_bytes) == varint_parse(s, max_bytes),
    decreases max_bytes,
{
    lemma_varint_parse_used(s, max_bytes);
    if s[0] >= 128 {
        lemma_varint_parse_used(s.skip(1), (max_bytes - 1) as nat);
        assert(t.skip(1) =~= s.skip(1).take(t.len() - 1));
        lemma_varint_parse_prefix(s.skip(1), t.skip(1), (max_bytes - 1) as nat);
    }
}

proof fn lemma_varint_step32(v: u32)
    by (bit_vector)
    ensures
        v >= 128 ==> (v | 128) as u8 == v % 128 + 128,
        v < 128 ==> v as u8 == v,
        v >> 7 == v / 128,
        v >> 14 == v / 128 / 128,
        v >> 21 == v / 128 / 128 / 128,
        v >> 28 == v / 128 / 128 / 128 / 128,
        ((v >> 7) | 128) as u8 == (v >> 7) % 128 + 128,
        ((v >> 14) | 128) as u8 == (v >> 14) % 128 + 128,
        ((v >> 21) | 128) as u8 == (v >> 21) % 128 + 128,
        (v >> 28) < 128,
{
}

proof fn lemma_varint_step64(v: u64)
    by (bit_vector)
    ensures
        v >= 128 ==> (v | 128) as u8 == v % 128 + 128,
        v < 128 ==> v as u8 == v,
        v >> 7 == v / 128,
{
}

/// Writes the base-128 encoding of `v` at the front of `dst` and returns
/// how many bytes it took.
pub fn encode_varint32(dst: &mut [u8], v: u32) -> (written: usize)
    requires
        old(dst)@.len() >= 5,
    ensures
        written == varint_len(v as nat),
        1 <= written <= 5,
        final(dst)@.len() == old(dst)@.len(),
        final(dst)@.take(written as int) == varint_bytes(v as nat),
        final(dst)@.skip(written as int) == old(dst)@.skip(written as int),
{
    proof {
        lemma_varint_step32(v);
        lemma_small_casts(v);
        lemma_varint_len_bound(v as nat);
        reveal_with_fuel(varint_bytes, 6);
    }
    let written: usize = if v < (1 << 7) {
        dst[0] = v as u8;
        1
    } else if v < (1 << 14) {
        dst[0] = #[verifier::truncate] ((v | 128) as u8);
        dst[1] = (v >> 7) as u8;
        2
    } else if v < (1 << 21) {
        dst[0] = #[verifier::truncate] ((v | 128) as u8);
        dst[1] = #[verifier::truncate] (((v >> 7) | 128) as u8);
        dst[2] = (v >> 14) as u8;
        3
    } else if v < (1 << 28) {
        dst[0] = #[verifier::truncate] ((v | 128) as u8);
        dst[1] = #[verifier::truncate] (((v >> 7) | 128) as u8);
        dst[2] = #[verifier::truncate] (((v >> 14) | 128) as u8);
        dst[3] = (v >> 21) as u8;
        4
    } else {
        dst[0] = #[verifier::truncate] ((v | 128) as u8);
        dst[1] = #[verifier::truncate] (((v >> 7) | 128) as u8);
        dst[2] = #[verifier::truncate] (((v >> 14) | 128) as u8);
        dst[3] = #[verifier::truncate] (((v >> 21) | 128) as u8);
        dst[4] = (v >> 28) as u8;
        5
    };
    proof {
        assert(dst@.take(written as int) =~= varint_bytes(v as nat));
        assert(dst@.skip(written as int) =~= old(dst)@.skip(written as int));
    }
    written
}

proof fn lemma_small_casts(v: u32)
    by (bit_vector)
    ensures
        (1u32 << 7) == 0x80,
        (1u32 << 14) == 0x4000,
        (1u32 << 21) == 0x20_0000,
        (1u32 << 28) == 0x1000_0000,
        v < 0x4000 ==> (v >> 7) as u8 == v >> 7,
        v < 0x20_0000 ==> (v >> 14) as u8 == v >> 14,
        v < 0x1000_0000 ==> (v >> 21) as u8 == v >> 21,
        (v >> 28) as u8 == v >> 28,
{
}

/// Appends the base-128 encoding of `v` to `dst`.
pub fn put_varint32(dst: &mut Vec<u8>, v: u32)
    ensures
        final(dst)@ == old(dst)@ + varint_bytes(v as nat),
{
    put_varint64(dst, v as u64)
}

/// Writes the base-128 encoding of `v` at the front of `dst` and returns
/// how many bytes it took.
pub fn encode_varint64(dst: &mut [u8], v: u64) -> (written: usize)
    requires
        old(dst)@.len() >= 10,
    ensures
        written == varint_len(v as nat),
        1 <= written <= 10,
        final(dst)@.len() == old(dst)@.len(),
        final(dst)@.take(written as int) == varint_bytes(v as nat),
        final(dst)@.skip(written as int) == old(dst)@.skip(written as int),
{
    let mut rest: u64 = v;
    let mut pos: usize = 0;
    proof {
        lemma_varint_len_bound(v as nat);
    }
    while rest >= 128
        invariant
            dst@.len() == old(dst)@.len(),
            dst@.len() >= 10,
            pos + varint_len(rest as nat) == varint_len(v as nat),
            varint_len(v as nat) <= 10,
            dst@.take(pos as int) + varint_bytes(rest as nat) == varint_bytes(v as nat),
            forall|j: int| pos <= j < dst@.len() ==> dst@[j] == old(dst)@[j],
        decreases rest,
    {
        proof {
            lemma_varint_step64(rest);
            lemma_varint_len_bound((rest / 128) as nat);
        }
        let ghost before = dst@;
        dst[pos] = #[verifier::truncate] ((rest | 128) as u8);
        proof {
            assert(dst@.take(pos + 1) =~= before.take(pos as int) + seq![(rest % 128 + 128) as u8]);
            assert(dst@.take(pos + 1) + varint_bytes((rest / 128) as nat) =~= before.take(
                pos as int,
            ) + varint_bytes(rest as nat));
        }
        pos = pos + 1;
        rest = rest >> 7;
    }
    proof {
        lemma_varint_step64(rest);
    }
    let ghost before = dst@;
    dst[pos] = rest as u8;
    proof {
        assert(dst@.take(pos + 1) =~= before.take(pos as int) + varint_bytes(rest as nat));
        assert(dst@.skip(pos + 1) =~= old(dst)@.skip(pos + 1));
    }
    pos + 1
}

/// Appends the base-128 encoding of `v` to `dst`.
pub fn put_varint64(dst: &mut Vec<u8>, v: u64)
    ensures
        final(dst)@ == old(dst)@ + varint_bytes(v as nat),
{
    let mut rest: u64 = v;
    while rest >= 128
        invariant
            dst@ + varint_bytes(rest as nat) == old(dst)@ + varint_bytes(v as nat),
        decreases rest,
    {
        proof {
            lemma_varint_step64(rest);
        }
        let ghost before = dst@;
        dst.push(#[verifier::truncate] ((rest | 128) as u8));
        proof {
            assert(dst@ + varint_bytes((rest / 128) as nat) =~= before + varint_bytes(rest as nat));
        }
        rest = rest >> 7;
    }
    proof {
        lemma_varint_step64(rest);
    }
    let ghost before = dst@;
    dst.push(rest as u8);
    assert(dst@ =~= before + varint_bytes(rest as nat));
}

/// Appends the length of `value` in base 128, then its bytes.
pub fn put_length_prefixed_slice(dst: &mut Vec<u8>, value: &Slice)
    requires
        value@.len() <= u32::MAX,
    ensures
        final(dst)@ == old(dst)@ + length_prefixed(value@),
{
    put_varint32(dst, value.len() as u32);
    let ghost mid = dst@;
    append_bytes(dst, value.data());
    assert(dst@ =~= old(dst)@ + length_prefixed(value@));
}

/// A byte string behind its length in base 128.
pub open spec fn length_prefixed(value: Seq<u8>) -> Seq<u8> {
    varint_bytes(value.len()) + value
}

/// Appends `src` to `dst`.
pub fn append_bytes(dst: &mut Vec<u8>, src: &[u8])
    ensures
        final(dst)@ == old(dst)@ + src@,
{
    dst.extend_from_slice(src);
    assert(dst@ =~= old(dst)@ + src@);
}

/// Number of bytes in the base-128 encoding of `v`.
pub fn varint_length(v: u64) -> (len: u32)
    ensures
        len == varint_len(v as nat),
        1 <= len <= 10,
{
    let mut rest: u64 = v;
    let mut len: u32 = 1;
    proof {
        lemma_varint_len_bound(v as nat);
    }
    while rest >= 128
        invariant
            len - 1 + varint_len(rest as nat) == varint_len(v as nat),
            varint_len(v as nat) <= 10,
            len >= 1,
        decreases rest,
    {
        proof {
            lemma_varint_step64(rest);
            lemma_varint_len_bound((rest / 128) as nat);
        }
        rest = rest >> 7;
        len = len + 1;
    }
    len
}

/// A decoded tail `tail`, read behind `pos` bytes that hold `acc` in base
/// 128, as the result of decoding the whole.
spec fn varint_lift(acc: nat, scale: nat, pos: nat, tail: Option<(nat, nat)>) -> Option<
    (nat, nat),
> {
    match tail {
        Some((v, used)) => Some((acc + scale * v, pos + used)),
        None => None,
    }
}

proof fn lemma_varint_lift_step(s: Seq<u8>, max_bytes: nat, acc: nat, scale: nat, pos: nat)
    requires
        pos < s.len(),
        pos < max_bytes,
        s[pos as int] >= 128,
    ensures
        varint_lift(acc, scale, pos, varint_parse(s.skip(pos as int), (max_bytes - pos) as nat))
            == varint_lift(
            acc + scale * (s[pos as int] - 128) as nat,
            scale * 128,
            pos + 1,
            varint_parse(s.skip(pos + 1 as int), (max_bytes - pos - 1) as nat),
        ),
{
    let t = s.skip(pos as int);
    assert(t[0] == s[pos as int]);
    assert(t.skip(1) =~= s.skip(pos + 1 as int));
    match varint_parse(s.skip(pos + 1 as int), (max_bytes - pos - 1) as nat) {
        Some((v, used)) => {
            let b = (s[pos as int] - 128) as nat;
            assert(scale * (b + 128 * v) == scale * b + (scale * 128) * v) by (nonlinear_arith);
        },
        None => {},
    }
}

proof fn lemma_varint_acc64(acc: u64, m: u64, shift: u32, b: u8)
    by (bit_vector)
    requires
        shift <= 63,
        m == 1u64 << shift,
        acc < m,
    ensures
        ((b as u64) & 128) > 0 <==> b >= 128,
        b >= 128 ==> ((b as u64) & 127) == b - 128,
        shift <= 56 ==> (acc | (((b as u64) & 127) << shift)) == acc + m * ((b as u64) & 127),
        shift <= 56 ==> (acc | (((b as u64) & 127) << shift)) < m * 128,
        shift <= 56 ==> m * 128 == 1u64 << ((shift + 7) as u32),
        b < 128 ==> (acc | ((b as u64) << shift)) == (acc + m * b) % 0x1_0000_0000_0000_0000,
{
}

proof fn lemma_varint_acc32(acc: u32, m: u32, shift: u32, b: u8)
    by (bit_vector)
    requires
        shift <= 28,
        m == 1u32 << shift,
        acc < m,
    ensures
        ((b as u32) & 128) > 0 <==> b >= 128,
        b >= 128 ==> ((b as u32) & 127) == b - 128,
        shift <= 21 ==> (acc | (((b as u32) & 127) << shift)) == acc + m * ((b as u32) & 127),
        shift <= 21 ==> (acc | (((b as u32) & 127) << shift)) < m * 128,
        shift <= 21 ==> m * 128 == 1u32 << ((shift + 7) as u32),
        b < 128 ==> (acc | ((b as u32) << shift)) == (acc + m * b) % 0x1_0000_0000,
{
}

/// Decodes a base-128 number of at most five bytes, one byte at a time.
pub fn get_varint32ptr_fallback<'a>(ptr: &'a [u8], value: &mut u32) -> (rest: Option<&'a [u8]>)
    ensures
        match varint32_parse(ptr@) {
            Some((v, used)) => rest is Some && rest.unwrap()@ == ptr@.skip(used as int)
                && *final(value) == v,
            None => rest is None && *final(value) == *old(value),
        },
{
    let mut result: u32 = 0;
    let mut shift: u32 = 0;
    let mut pos: usize = 0;
    let ghost mut scale: u32 = 1;
    proof {
        assert(1u32 << 0u32 == 1) by (bit_vector);
        assert(ptr@.skip(0) =~= ptr@);
    }
    while shift <= 28 && pos < ptr.len()
        invariant
            pos <= ptr@.len(),
            pos <= 5,
            shift == 7 * pos,
            shift <= 28 ==> scale == 1u32 << shift && result < scale,
            *value == *old(value),
            varint_parse(ptr@, 5) == varint_lift(
                result as nat,
                scale as nat,
                pos as nat,
                varint_parse(ptr@.skip(pos as int), (5 - pos) as nat),
            ),
        decreases 5 - pos,
    {
        let byte = ptr[pos] as u32;
        let ghost acc = result;
        proof {
            lemma_varint_acc32(acc, scale, shift, ptr@[pos as int]);
            assert(ptr@.skip(pos as int)[0] == ptr@[pos as int]);
        }
        if (byte & 128) > 0 {
            result = result | ((byte & 127) << shift);
            proof {
                lemma_varint_lift_step(ptr@, 5, acc as nat, scale as nat, pos as nat);
                if shift <= 21 {
                    scale = (scale * 128) as u32;
                }
            }
        } else {
            result = result | (byte << shift);
            *value = result;
            proof {
                let b = ptr@[pos as int];
                assert(varint_parse(ptr@.skip(pos as int), (5 - pos) as nat) == Some(
                    (b as nat, 1nat),
                ));
                assert(varint_parse(ptr@, 5) == Some(
                    ((acc as nat + scale as nat * b as nat) as nat, (pos + 1) as nat),
                ));
            }
            return Some(slice_subrange(ptr, pos + 1, ptr.len()));
        }
        shift = shift + 7;
        pos = pos + 1;
    }
    None
}

/// Decodes a base-128 number of at most five bytes from the front of `ptr`
/// into `value` and returns what follows it.  `None`, with `value`
/// untouched, where `ptr` ends within the number or the number runs past
/// five bytes.
pub fn get_varint32ptr<'a>(ptr: &'a [u8], value: &mut u32) -> (rest: Option<&'a [u8]>)
    ensures
        match varint32_parse(ptr@) {
            Some((v, used)) => rest is Some && rest.unwrap()@ == ptr@.skip(used as int)
                && *final(value) == v,
            None => rest is None && *final(value) == *old(value),
        },
{
    if ptr.len() > 0 {
        let first = ptr[0];
        if first < 128 {
            *value = first as u32;
            return Some(slice_subrange(ptr, 1, ptr.len()));
        }
    }
    get_varint32ptr_fallback(ptr, value)
}

/// Decodes a base-128 number of at most ten bytes from the front of `ptr`
/// into `value` and returns what follows it.  `None`, with `value`
/// untouched, where `ptr` ends within the number or the number runs past
/// ten bytes.
pub fn get_varint64ptr<'a>(ptr: &'a [u8], value: &mut u64) -> (rest: Option<&'a [u8]>)
    ensures
        match varint64_parse(ptr@) {
            Some((v, used)) => rest is Some && rest.unwrap()@ == ptr@.skip(used as int)
                && *final(value) == v,
            None => rest is None && *final(value) == *old(value),
        },
{
    let mut result: u64 = 0;
    let mut shift: u32 = 0;
    let mut pos: usize = 0;
    let ghost mut scale: u64 = 1;
    proof {
        assert(1u64 << 0u32 == 1) by (bit_vector);
        assert(ptr@.skip(0) =~= ptr@);
    }
    while shift <= 63 && pos < ptr.len()
        invariant
            pos <= ptr@.len(),
            pos <= 10,
            shift == 7 * pos,
            shift <= 63 ==> scale == 1u64 << shift && result < scale,
            *value == *old(value),
            varint_parse(ptr@, 10) == varint_lift(
                result as nat,
                scale as nat,
                pos as nat,
                varint_parse(ptr@.skip(pos as int), (10 - pos) as nat),
            ),
        decreases 10 - pos,
    {
        let byte = ptr[pos] as u64;
        let ghost acc = result;
        proof {
            lemma_varint_acc64(acc, scale, shift, ptr@[pos as int]);
            assert(ptr@.skip(pos as int)[0] == ptr@[pos as int]);
        }
        if (byte & 128) > 0 {
            result = result | ((byte & 127) << shift);
            proof {
                lemma_varint_lift_step(ptr@, 10, acc as nat, scale as nat, pos as nat);
                if shift <= 56 {
                    scale = (scale * 128) as u64;
                }
            }
        } else {
            result = result | (byte << shift);
            *value = result;
            proof {
                let b = ptr@[pos as int];
                assert(varint_parse(ptr@.skip(pos as int), (10 - pos) as nat) == Some(
                    (b as nat, 1nat),
                ));
                assert(varint_parse(ptr@, 10) == Some(
                    ((acc as nat + scale as nat * b as nat) as nat, (pos + 1) as nat),
                ));
            }
            return Some(slice_subrange(ptr, pos + 1, ptr.len()));
        }
        shift = shift + 7;
        pos = pos + 1;
    }
    None
}

/// Takes a base-128 number of at most five bytes off the front of `input`.
/// Returns `false`, with nothing changed, where none is there.
pub fn get_varint32(input: &mut Slice, value: &mut u32) -> (found: bool)
    ensures
        match varint32_parse(old(input)@) {
            Some((v, used)) => found && final(input)@ == old(input)@.skip(used as int)
                && *final(value) == v,
            None => !found && final(input)@ == old(input)@ && *final(value) == *old(value),
        },
{
    let size = input.size();
    let rest_len = match get_varint32ptr(input.data(), value) {
        Some(rest) => rest.len(),
        None => { return false; },
    };
    proof {
        lemma_varint_parse_used(old(input)@, 5);
    }
    input.advance(size - rest_len);
    true
}

/// Takes a base-128 number of at most ten bytes off the front of `input`.
/// Returns `false`, with nothing changed, where none is there.
pub fn get_varint64(input: &mut Slice, value: &mut u64) -> (found: bool)
    ensures
        match varint64_parse(old(input)@) {
            Some((v, used)) => found && final(input)@ == old(input)@.skip(used as int)
                && *final(value) == v,
            None => !found && final(input)@ == old(input)@ && *final(value) == *old(value),
        },
{
    let size = input.size();
    let rest_len = match get_varint64ptr(input.data(), value) {
        Some(rest) => rest.len(),
        None => { return false; },
    };
    proof {
        lemma_varint_parse_used(old(input)@, 10);
    }
    input.advance(size - rest_len);
    true
}

/// What a length-prefixed byte string at the front of `s` decodes to: the
/// string and how many bytes hold it with its length.  `None` where no
/// length decodes or fewer bytes follow than it announces.
pub open spec fn length_prefixed_parse(s: Seq<u8>) -> Option<(Seq<u8>, nat)> {
    match varint32_parse(s) {
        Some((len, used)) => if s.len() - used >= len {
            Some((s.subrange(used as int, used + len), (used + len) as nat))
        } else {
            None
        },
        None => None,
    }
}

/// Takes a length-prefixed byte string off the front of `input` into
/// `result`.  Where the length decodes but too few bytes follow it, the
/// length alone is taken off and `false` returned.
pub fn get_length_prefixed_slice(input: &mut Slice, result: &mut Slice) -> (found: bool)
    ensures
        found == length_prefixed_parse(old(input)@).is_some(),
        match length_prefixed_parse(old(input)@) {
            Some((body, used)) => final(result)@ == body && final(input)@ == old(input)@.skip(
                used as int,
            ),
            None => final(result)@ == old(result)@ && final(input)@ == match varint32_parse(
                old(input)@,
            ) {
                Some((len, used)) => old(input)@.skip(used as int),
                None => old(input)@,
            },
        },
{
    let mut len: u32 = 0;
    if get_varint32(input, &mut len) && input.size() >= len as usize {
        let ghost mid = input@;
        *result = input.slice(len as usize);
        input.remove_prefix(len as usize);
        proof {
            lemma_varint_parse_used(old(input)@, 5);
            let used = varint32_parse(old(input)@).unwrap().1;
            assert(result@ =~= old(input)@.subrange(used as int, used + len));
            assert(input@ =~= old(input)@.skip(used + len));
        }
        true
    } else {
        false
    }
}

/// A length-prefixed byte string decodes to itself, whatever follows it.
pub proof fn lemma_length_prefixed_roundtrip(value: Seq<u8>, rest: Seq<u8>)
    requires
        value.len() <= u32::MAX,
    ensures
        length_prefixed_parse(length_prefixed(value) + rest) == Some(
            (value, length_prefixed(value).len()),
        ),
{
    let s = length_prefixed(value) + rest;
    lemma_varint32_roundtrip(value.len() as u32, value + rest);
    lemma_varint_bytes_len(value.len());
    assert(s =~= varint_bytes(value.len()) + (value + rest));
    let used = varint_len(value.len());
    assert(s.subrange(used as int, used + value.len() as int) =~= value);
}

} // verus!
