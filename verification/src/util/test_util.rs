//! Byte strings drawn from a pseudo-random number generator, for tests.

use crate::obj::slice::Slice;
use crate::util::random::{random_step, Random};
use vstd::prelude::*;

verus! {

/// The state of a generator behind `count` numbers drawn from the state
/// `state`.
pub open spec fn state_after(state: u32, count: nat) -> u32
    decreases count,
{
    if count == 0 {
        state
    } else {
        random_step(state_after(state, (count - 1) as nat))
    }
}

/// The printable characters that `len` numbers drawn from `state` give:
/// each number modulo 95, counted from the blank.
pub open spec fn random_text(state: u32, len: nat) -> Seq<u8> {
    Seq::new(len, |i: int| (state_after(state, (i + 1) as nat) % 95 + 32) as u8)
}

/// The bytes from which `random_key` draws.
pub open spec fn key_bytes() -> Seq<u8> {
    seq![0u8, 1u8, 97u8, 98u8, 99u8, 100u8, 101u8, 0xfdu8, 0xfeu8, 0xffu8]
}

/// The key that `len` numbers drawn from `state` give: for each number
/// the byte of `key_bytes` at the number modulo 10.
pub open spec fn random_key_bytes(state: u32, len: nat) -> Seq<u8> {
    Seq::new(len, |i: int| key_bytes()[(state_after(state, (i + 1) as nat) % 10) as int])
}

/// Appends `len` printable characters drawn from `rnd` to `dst`, and
/// returns what `dst` then holds.
pub fn random_string(rnd: &mut Random, len: usize, dst: &mut Vec<u8>) -> (s: Slice)
    ensures
        final(dst)@ == old(dst)@ + random_text(old(rnd).state(), len as nat),
        final(rnd).state() == state_after(old(rnd).state(), len as nat),
        s@ == final(dst)@,
{
    let mut i: usize = 0;
    while i < len
        invariant
            i <= len,
            rnd.state() == state_after(old(rnd).state(), i as nat),
            dst@ == old(dst)@ + random_text(old(rnd).state(), i as nat),
        decreases len - i,
    {
        let drawn = rnd.uniform(95);
        dst.push(drawn as u8 + 32);
        proof {
            assert(dst@ =~= old(dst)@ + random_text(old(rnd).state(), (i + 1) as nat));
        }
        i = i + 1;
    }
    Slice::new_from_array(dst.as_slice())
}

/// A key of `len` bytes drawn from `rnd`: bytes at the edges of the range
/// of bytes, and a few letters.
pub fn random_key(rnd: &mut Random, len: usize) -> (key: Vec<u8>)
    ensures
        key@ == random_key_bytes(old(rnd).state(), len as nat),
        final(rnd).state() == state_after(old(rnd).state(), len as nat),
{
    let chars: [u8; 10] = [0, 1, 97, 98, 99, 100, 101, 0xfd, 0xfe, 0xff];
    let mut key: Vec<u8> = Vec::new();
    let mut i: usize = 0;
    while i < len
        invariant
            i <= len,
            chars@ == key_bytes(),
            rnd.state() == state_after(old(rnd).state(), i as nat),
            key@ == random_key_bytes(old(rnd).state(), i as nat),
        decreases len - i,
    {
        let drawn = rnd.uniform(10);
        key.push(chars[drawn as usize]);
        proof {
            assert(key@ =~= random_key_bytes(old(rnd).state(), (i + 1) as nat));
        }
        i = i + 1;
    }
    key
}

} // verus!
