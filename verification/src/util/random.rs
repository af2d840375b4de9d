//! A small pseudo-random number generator for tests and for choices that
//! need no strong randomness.

use vstd::prelude::*;

verus! {

/// The modulus of the generator: 2^31 - 1.
pub const K_RANDOM_MODULUS: u32 = 2147483647;

/// The multiplier of the generator.
pub const K_RANDOM_MULTIPLIER: u64 = 16807;

/// A linear congruential generator: each number is the one before times
/// 16807, modulo 2^31 - 1.
pub struct Random {
    seed: u32,
}

/// The number that follows `seed`: the upper and the lower 31 bits of the
/// product added up, less the modulus where the sum is above it.
pub open spec fn random_step(seed: u32) -> u32 {
    let product = seed as nat * 16807;
    let sum = product / 0x8000_0000 + product % 0x8000_0000;
    if sum > 2147483647 {
        (sum - 2147483647) as u32
    } else {
        sum as u32
    }
}

/// The number that follows `seed` is the product modulo 2^31 - 1, or the
/// modulus itself in place of 0.
pub proof fn lemma_random_step(seed: u32)
    requires
        1 <= seed <= 2147483647,
    ensures
        1 <= random_step(seed) <= 2147483647,
        random_step(seed) % 2147483647 == (seed as nat * 16807) % 2147483647,
{
    let product = seed as nat * 16807;
    let q = product / 0x8000_0000;
    let r = product % 0x8000_0000;
    assert(product == q * 2147483647 + (q + r));
    assert(q <= 16807);
    if q + r > 2147483647 {
        assert(product == (q + 1) * 2147483647 + (q + r - 2147483647));
        vstd::arithmetic::div_mod::lemma_fundamental_div_mod_converse(
            product as int,
            2147483647,
            (q + 1) as int,
            (q + r - 2147483647) as int,
        );
        vstd::arithmetic::div_mod::lemma_small_mod((q + r - 2147483647) as nat, 2147483647);
    } else if q + r == 2147483647 {
        vstd::arithmetic::div_mod::lemma_fundamental_div_mod_converse(
            product as int,
            2147483647,
            (q + 1) as int,
            0,
        );
    } else {
        vstd::arithmetic::div_mod::lemma_fundamental_div_mod_converse(
            product as int,
            2147483647,
            q as int,
            (q + r) as int,
        );
        vstd::arithmetic::div_mod::lemma_small_mod((q + r) as nat, 2147483647);
    }
}

proof fn lemma_random_bits(product: u64)
    by (bit_vector)
    ensures
        product >> 31 == product / 0x8000_0000,
        product & 2147483647 == product % 0x8000_0000,
{
}

proof fn lemma_seed_bits(s: u32)
    by (bit_vector)
    ensures
        s & 0x7fffffff <= 2147483647,
        s & 0x7fffffff == s % 0x8000_0000,
{
}

impl Random {
    #[verifier::type_invariant]
    spec fn wf(&self) -> bool {
        1 <= self.seed <= 2147483647
    }

    /// The number returned last, or the seed.
    pub closed spec fn state(&self) -> u32 {
        self.seed
    }

    /// A generator seeded with the lower 31 bits of `s`, or with 1 where
    /// those are 0 or 2^31 - 1.
    pub fn new(s: u32) -> (r: Random)
        ensures
            r.state() == if s % 0x8000_0000 == 0 || s % 0x8000_0000 == 2147483647 {
                1
            } else {
                s % 0x8000_0000
            },
    {
        proof {
            lemma_seed_bits(s);
        }
        let mut seed = s & 0x7fffffff;
        if seed == 0 || seed == 2147483647 {
            seed = 1;
        }
        Random { seed }
    }

    /// The next number.
    pub fn next(&mut self) -> (n: u32)
        ensures
            n == random_step(old(self).state()),
            final(self).state() == n,
            1 <= n <= 2147483647,
    {
        proof {
            use_type_invariant(&*self);
            lemma_random_step(self.seed);
        }
        let product: u64 = (self.seed as u64) * K_RANDOM_MULTIPLIER;
        proof {
            lemma_random_bits(product);
        }
        let mut seed = ((product >> 31) + (product & (K_RANDOM_MODULUS as u64))) as u32;
        if seed > K_RANDOM_MODULUS {
            seed = seed - K_RANDOM_MODULUS;
        }
        self.seed = seed;
        seed
    }

    /// A number in `0..n`.
    pub fn uniform(&mut self, n: u32) -> (r: u32)
        requires
            n > 0,
        ensures
            r == random_step(old(self).state()) % n,
            final(self).state() == random_step(old(self).state()),
            r < n,
    {
        self.next() % n
    }

    /// `true` about once in `n` calls.
    pub fn one_in(&mut self, n: u32) -> (r: bool)
        requires
            n > 0,
        ensures
            r == (random_step(old(self).state()) % n == 0),
            final(self).state() == random_step(old(self).state()),
    {
        self.next() % n == 0
    }

    /// A number in `0..2^max_log` that is small more often than large: a
    /// number of bits is drawn first, then a number of that many bits.
    pub fn skewed(&mut self, max_log: u32) -> (r: u32)
        requires
            max_log <= 30,
        ensures
            final(self).state() == random_step(random_step(old(self).state())),
            r == random_step(random_step(old(self).state())) % (1u32 << (random_step(
                old(self).state(),
            ) % ((max_log + 1) as u32))),
            r < 0x4000_0000,
    {
        let base = self.uniform(max_log + 1);
        proof {
            lemma_shift_range(base);
        }
        self.uniform(1u32 << base)
    }
}

proof fn lemma_shift_range(base: u32)
    by (bit_vector)
    requires
        base <= 30,
    ensures
        1 <= (1u32 << base) <= 0x4000_0000,
{
}

} // verus!
