//! A fast 32-bit hash of byte strings, used for Bloom filters and for
//! spreading keys over cache shards.

use crate::util::coding::{decode_fixed32, fixed32_value};
use vstd::prelude::*;
use vstd::slice::slice_subrange;
use vstd::string::StringSliceAdditionalSpecFns;

verus! {

/// The multiplier of the hash.
pub const K_HASH_MULTIPLIER: u32 = 0xc6a4a793;

/// One round of the hash over a word of four bytes.
pub open spec fn hash_mix_word(h: u32, w: u32) -> u32 {
    let t = h.wrapping_add(w).wrapping_mul(K_HASH_MULTIPLIER);
    t ^ (t >> 16)
}

/// The hash state after all whole words of `data`, four bytes each and
/// least significant byte first, went in.
pub open spec fn hash_words(h: u32, data: Seq<u8>) -> u32
    decreases data.len(),
{
    if data.len() < 4 {
        h
    } else {
        hash_words(hash_mix_word(h, fixed32_value(data)), data.skip(4))
    }
}

/// The bytes of `data` behind its last whole word.
pub open spec fn hash_rest(data: Seq<u8>) -> Seq<u8> {
    data.skip((data.len() - data.len() % 4) as int)
}

/// The last round of the hash, over the one to three bytes that make no
/// whole word, read as a number least significant byte first.
pub open spec fn hash_tail(h: u32, rest: Seq<u8>) -> u32 {
    if rest.len() == 0 || rest.len() > 3 {
        h
    } else {
        let w = (rest[0] + if rest.len() >= 2 {
            256 * rest[1]
        } else {
            0
        } + if rest.len() >= 3 {
            65536 * rest[2]
        } else {
            0
        }) as u32;
        let t = h.wrapping_add(w).wrapping_mul(K_HASH_MULTIPLIER);
        t ^ (t >> 24)
    }
}

/// The hash of `data` under `seed`.
pub open spec fn hash_spec(data: Seq<u8>, seed: u32) -> u32 {
    let start = K_HASH_MULTIPLIER.wrapping_mul((data.len() % 0x1_0000_0000) as u32) ^ seed;
    hash_tail(hash_words(start, data), hash_rest(data))
}

proof fn lemma_hash_words_skip(h: u32, data: Seq<u8>, i: int)
    requires
        0 <= i,
        i + 4 <= data.len(),
    ensures
        hash_words(h, data.skip(i)) == hash_words(
            hash_mix_word(h, fixed32_value(data.skip(i))),
            data.skip(i + 4),
        ),
{
    assert(data.skip(i).skip(4) =~= data.skip(i + 4));
}

proof fn lemma_len_low_bits(len: usize)
    by (bit_vector)
    ensures
        len as u32 == (len as u64) % 0x1_0000_0000u64,
{
}

/// The last round of the hash over what is left behind the whole words.
fn mix_tail(h: u32, rest: &[u8]) -> (mixed: u32)
    requires
        rest@.len() < 4,
    ensures
        mixed == hash_tail(h, rest@),
{
    let n = rest.len();
    if n == 0 {
        return h;
    }
    let mut w: u32 = rest[0] as u32;
    if n >= 2 {
        w = w + 256 * (rest[1] as u32);
    }
    if n >= 3 {
        w = w + 65536 * (rest[2] as u32);
    }
    let t = h.wrapping_add(w).wrapping_mul(K_HASH_MULTIPLIER);
    t ^ (t >> 24)
}

/// The hash state after the whole words of `data` went in.
fn mix_words(start: u32, data: &[u8]) -> (r: (u32, usize))
    ensures
        r.0 == hash_words(start, data@),
        r.1 == data@.len() - data@.len() % 4,
{
    let len = data.len();
    let mut h = start;
    let mut i: usize = 0;
    let ghost mut words: nat = 0;
    proof {
        assert(data@.skip(0) =~= data@);
    }
    while len - i >= 4
        invariant
            i <= len == data@.len(),
            i == 4 * words,
            hash_words(start, data@) == hash_words(h, data@.skip(i as int)),
        decreases len - i,
    {
        let w = decode_fixed32(slice_subrange(data, i, i + 4));
        proof {
            let a = data@.subrange(i as int, i + 4);
            let b = data@.skip(i as int);
            assert(a[0] == b[0] && a[1] == b[1] && a[2] == b[2] && a[3] == b[3]);
            lemma_hash_words_skip(h, data@, i as int);
            words = words + 1;
        }
        h = h.wrapping_add(w).wrapping_mul(K_HASH_MULTIPLIER);
        h = h ^ (h >> 16);
        i = i + 4;
    }
    (h, i)
}

/// Hashes `data_bytes` under `seed`.
pub fn hash_bytes(data_bytes: &[u8], seed: u32) -> (h: u32)
    ensures
        h == hash_spec(data_bytes@, seed),
{
    let len = data_bytes.len();
    proof {
        lemma_len_low_bits(len);
    }
    let start: u32 = K_HASH_MULTIPLIER.wrapping_mul(#[verifier::truncate] (len as u32)) ^ seed;
    let (h, i) = mix_words(start, data_bytes);
    proof {
        assert(data_bytes@.subrange(i as int, len as int) =~= hash_rest(data_bytes@));
    }
    mix_tail(h, slice_subrange(data_bytes, i, len))
}

/// Hashes the UTF-8 bytes of `data` under `seed`.
pub fn hash(data: &str, seed: u32) -> (h: u32)
    ensures
        h == hash_spec(data.spec_bytes(), seed),
{
    hash_bytes(data.as_bytes(), seed)
}

} // verus!
