//! Bloom filters with double hashing.

use crate::obj::slice::Slice;
use crate::unit::filter_policy::{key_views, FilterPolicy};
use crate::unit::hash::{hash_bytes, hash_spec};
use vstd::prelude::*;

verus! {

/// The seed under which keys are hashed for a Bloom filter.
pub const K_BLOOM_SEED: u32 = 0xbc9f1d34;

/// A Bloom filter policy: about `bits_per_key` bits of filter for each key,
/// and `k` probes of the filter for each key.
#[derive(Debug, Clone, Copy)]
pub struct BloomFilterPolicy {
    bits_per_key: usize,
    k: u8,
}

/// The hash of a key, from which its probes start.
pub open spec fn bloom_hash_spec(key: Seq<u8>) -> u32 {
    hash_spec(key, K_BLOOM_SEED)
}

/// The step from one probe of a key to the next: its hash rotated right by
/// 17 bits.
pub open spec fn bloom_delta(h: u32) -> u32 {
    (h >> 17) | (h << 15)
}

/// The number of probes for a number of bits per key: 0.69 times, which
/// is about ln 2, that number, at least 1 and at most 30.
pub open spec fn probes_for(bits_per_key: nat) -> nat {
    if bits_per_key >= 44 {
        30
    } else if bits_per_key * 69 / 100 < 1 {
        1
    } else {
        bits_per_key * 69 / 100
    }
}

/// The number of bytes of the bit array of a filter of `n` keys: enough
/// for `n * bits_per_key` bits, and for 64 bits at least.  A count of bits
/// that no machine word holds when rounded up to whole bytes stands as the
/// largest that one holds.
pub open spec fn filter_bytes(n: nat, bits_per_key: nat) -> nat {
    let raw = n * bits_per_key;
    let bits = if raw < 64 {
        64
    } else if raw > usize::MAX - 7 {
        (usize::MAX - 7) as nat
    } else {
        raw
    };
    (bits + 7) / 8
}

/// Whether bit `pos` of a bit array is set.
pub open spec fn bit_is_set(array: Seq<u8>, pos: nat) -> bool {
    array[(pos / 8) as int] & (1u8 << ((pos % 8) as u32)) != 0
}

/// A bit array with bit `pos` set.
pub open spec fn set_bit(array: Seq<u8>, pos: nat) -> Seq<u8> {
    array.update((pos / 8) as int, array[(pos / 8) as int] | (1u8 << ((pos % 8) as u32)))
}

/// A bit array with the bits of `probes` probes set, the first at `h`
/// modulo the count of bits, each next one `delta` further.
pub open spec fn probes_marked(array: Seq<u8>, h: u32, delta: u32, probes: nat) -> Seq<u8>
    decreases probes,
{
    if probes == 0 {
        array
    } else {
        probes_marked(
            set_bit(array, (h as nat) % (array.len() * 8)),
            h.wrapping_add(delta),
            delta,
            (probes - 1) as nat,
        )
    }
}

/// Whether the bits of `probes` probes are all set.
pub open spec fn probes_all_set(array: Seq<u8>, h: u32, delta: u32, probes: nat) -> bool
    decreases probes,
{
    probes == 0 || (bit_is_set(array, (h as nat) % (array.len() * 8)) && probes_all_set(
        array,
        h.wrapping_add(delta),
        delta,
        (probes - 1) as nat,
    ))
}

/// A bit array with the probes of one key set.
pub open spec fn key_marked(array: Seq<u8>, key: Seq<u8>, k: nat) -> Seq<u8> {
    probes_marked(array, bloom_hash_spec(key), bloom_delta(bloom_hash_spec(key)), k)
}

/// A bit array with the probes of every key of a list set.
pub open spec fn keys_marked(array: Seq<u8>, keys: Seq<Seq<u8>>, k: nat) -> Seq<u8>
    decreases keys.len(),
{
    if keys.len() == 0 {
        array
    } else {
        key_marked(keys_marked(array, keys.drop_last(), k), keys.last(), k)
    }
}

/// The Bloom filter of a list of keys: the bit array with the probes of
/// every key set, and the number of probes in a last byte.
pub open spec fn bloom_filter(keys: Seq<Seq<u8>>, bits_per_key: nat, k: u8) -> Seq<u8> {
    keys_marked(
        Seq::new(filter_bytes(keys.len(), bits_per_key), |i: int| 0u8),
        keys,
        k as nat,
    ).push(k)
}

/// Whether a Bloom filter lets a key pass: a filter of fewer than two
/// bytes lets none pass, one that records more than 30 probes lets every
/// key pass, and any other lets those pass whose probes are all set.
pub open spec fn bloom_matches(key: Seq<u8>, filter: Seq<u8>) -> bool {
    if filter.len() < 2 {
        false
    } else if filter.last() > 30 {
        true
    } else {
        probes_all_set(
            filter.drop_last(),
            bloom_hash_spec(key),
            bloom_delta(bloom_hash_spec(key)),
            filter.last() as nat,
        )
    }
}

proof fn lemma_bit_ops(x: u8, y: u8, j: u32)
    by (bit_vector)
    requires
        j < 8,
    ensures
        (x | (1u8 << j)) & (1u8 << j) != 0,
        x & (1u8 << j) != 0 ==> (x | y) & (1u8 << j) != 0,
{
}

proof fn lemma_set_bit(array: Seq<u8>, pos: nat, q: nat)
    requires
        pos < array.len() * 8,
        q < array.len() * 8,
    ensures
        set_bit(array, pos).len() == array.len(),
        bit_is_set(set_bit(array, pos), pos),
        bit_is_set(array, q) ==> bit_is_set(set_bit(array, pos), q),
{
    let x = array[(pos / 8) as int];
    lemma_bit_ops(x, 0, (pos % 8) as u32);
    if q / 8 == pos / 8 {
        lemma_bit_ops(x, 1u8 << ((pos % 8) as u32), (q % 8) as u32);
    }
}

/// Whether every bit set in `a` is set in `b`.
pub open spec fn bits_kept(a: Seq<u8>, b: Seq<u8>) -> bool {
    &&& a.len() == b.len()
    &&& forall|q: nat| q < a.len() * 8 && bit_is_set(a, q) ==> bit_is_set(b, q)
}

proof fn lemma_probes_marked_keeps(array: Seq<u8>, h: u32, delta: u32, probes: nat)
    requires
        array.len() > 0,
    ensures
        bits_kept(array, probes_marked(array, h, delta, probes)),
    decreases probes,
{
    if probes > 0 {
        let pos = (h as nat) % (array.len() * 8);
        let next = set_bit(array, pos);
        lemma_probes_marked_keeps(next, h.wrapping_add(delta), delta, (probes - 1) as nat);
        let result = probes_marked(array, h, delta, probes);
        assert forall|q: nat| q < array.len() * 8 && bit_is_set(array, q) implies bit_is_set(
            result,
            q,
        ) by {
            lemma_set_bit(array, pos, q);
        }
        lemma_set_bit(array, pos, pos);
    }
}

proof fn lemma_all_set_kept(a: Seq<u8>, b: Seq<u8>, h: u32, delta: u32, probes: nat)
    requires
        a.len() > 0,
        bits_kept(a, b),
        probes_all_set(a, h, delta, probes),
    ensures
        probes_all_set(b, h, delta, probes),
    decreases probes,
{
    if probes > 0 {
        lemma_all_set_kept(a, b, h.wrapping_add(delta), delta, (probes - 1) as nat);
    }
}

proof fn lemma_probes_marked_sets(array: Seq<u8>, h: u32, delta: u32, probes: nat)
    requires
        array.len() > 0,
    ensures
        probes_all_set(probes_marked(array, h, delta, probes), h, delta, probes),
    decreases probes,
{
    if probes > 0 {
        let pos = (h as nat) % (array.len() * 8);
        let next = set_bit(array, pos);
        let result = probes_marked(array, h, delta, probes);
        lemma_set_bit(array, pos, pos);
        lemma_probes_marked_sets(next, h.wrapping_add(delta), delta, (probes - 1) as nat);
        lemma_probes_marked_keeps(next, h.wrapping_add(delta), delta, (probes - 1) as nat);
    }
}

proof fn lemma_keys_marked_keeps(array: Seq<u8>, keys: Seq<Seq<u8>>, k: nat)
    requires
        array.len() > 0,
    ensures
        bits_kept(array, keys_marked(array, keys, k)),
    decreases keys.len(),
{
    if keys.len() > 0 {
        lemma_keys_marked_keeps(array, keys.drop_last(), k);
        let mid = keys_marked(array, keys.drop_last(), k);
        let h = bloom_hash_spec(keys.last());
        lemma_probes_marked_keeps(mid, h, bloom_delta(h), k);
    }
}

/// Every key of a list has all its probes set in the bit array in which
/// the probes of the list were set.
pub proof fn lemma_keys_marked_match(array: Seq<u8>, keys: Seq<Seq<u8>>, k: nat, i: int)
    requires
        array.len() > 0,
        0 <= i < keys.len(),
    ensures
        keys_marked(array, keys, k).len() == array.len(),
        probes_all_set(
            keys_marked(array, keys, k),
            bloom_hash_spec(keys[i]),
            bloom_delta(bloom_hash_spec(keys[i])),
            k,
        ),
    decreases keys.len(),
{
    lemma_keys_marked_keeps(array, keys, k);
    lemma_keys_marked_keeps(array, keys.drop_last(), k);
    let mid = keys_marked(array, keys.drop_last(), k);
    let last = bloom_hash_spec(keys.last());
    if i == keys.len() - 1 {
        lemma_probes_marked_sets(mid, last, bloom_delta(last), k);
    } else {
        lemma_keys_marked_match(array, keys.drop_last(), k, i);
        assert(keys.drop_last()[i] == keys[i]);
        lemma_probes_marked_keeps(mid, last, bloom_delta(last), k);
        let h = bloom_hash_spec(keys[i]);
        lemma_all_set_kept(mid, keys_marked(array, keys, k), h, bloom_delta(h), k);
    }
}

/// Bloom filter: a filter lets every key pass that it was made of.
pub proof fn lemma_bloom_no_false_negative(
    keys: Seq<Seq<u8>>,
    bits_per_key: nat,
    k: u8,
    i: int,
)
    requires
        0 <= i < keys.len(),
    ensures
        bloom_matches(keys[i], bloom_filter(keys, bits_per_key, k)),
{
    let zeros = Seq::new(filter_bytes(keys.len(), bits_per_key), |j: int| 0u8);
    let filter = bloom_filter(keys, bits_per_key, k);
    lemma_keys_marked_match(zeros, keys, k as nat, i);
    assert(filter.drop_last() =~= keys_marked(zeros, keys, k as nat));
    assert(filter.last() == k);
}

impl BloomFilterPolicy {
    pub closed spec fn spec_bits_per_key(&self) -> nat {
        self.bits_per_key as nat
    }

    /// Number of probes for each key.
    pub closed spec fn spec_k(&self) -> u8 {
        self.k
    }

    /// A policy with about `bits_per_key` bits of filter for each key.
    pub fn new(bits_per_key: usize) -> (p: Self)
        ensures
            p.spec_bits_per_key() == bits_per_key,
            p.spec_k() == probes_for(bits_per_key as nat),
    {
        let k: u8 = if bits_per_key >= 44 {
            30
        } else {
            let scaled = bits_per_key * 69 / 100;
            if scaled < 1 {
                1
            } else {
                scaled as u8
            }
        };
        BloomFilterPolicy { bits_per_key, k }
    }

    /// The hash of a key, from which its probes start.
    pub fn bloom_hash(key: &[u8]) -> (h: u32)
        ensures
            h == bloom_hash_spec(key@),
    {
        hash_bytes(key, K_BLOOM_SEED)
    }

    /// Sets the probes of one key in a bit array.
    fn mark_key(array: &mut Vec<u8>, key: &[u8], k: u8)
        requires
            old(array)@.len() > 0,
        ensures
            final(array)@ == key_marked(old(array)@, key@, k as nat),
            final(array)@.len() == old(array)@.len(),
    {
        let bits: u128 = array.len() as u128 * 8;
        let mut h = Self::bloom_hash(key);
        let delta = (h >> 17) | (h << 15);
        let mut j: u8 = 0;
        proof {
            lemma_probes_marked_keeps(array@, h, delta, k as nat);
        }
        while j < k
            invariant
                j <= k,
                array@.len() * 8 == bits,
                array@.len() == old(array)@.len(),
                bits > 0,
                probes_marked(array@, h, delta, (k - j) as nat) == key_marked(
                    old(array)@,
                    key@,
                    k as nat,
                ),
            decreases k - j,
        {
            let probe = (h as u128) % bits;
            proof {
                vstd::arithmetic::div_mod::lemma_mod_decreases(h as nat, bits as nat);
            }
            let bit_pos = probe as usize;
            assert(bit_pos as nat == (h as nat) % (array@.len() * 8));
            let index = bit_pos / 8;
            let mask = 1u8 << ((bit_pos % 8) as u32);
            let byte = array[index];
            let ghost before = array@;
            array[index] = byte | mask;
            assert(array@ == set_bit(before, bit_pos as nat));
            h = h.wrapping_add(delta);
            j = j + 1;
        }
    }

    /// Whether the probes of a key are all set in a bit array.
    fn probes_set(array: &[u8], key: &[u8], k: u8) -> (all: bool)
        requires
            array@.len() > 0,
        ensures
            all == probes_all_set(
                array@,
                bloom_hash_spec(key@),
                bloom_delta(bloom_hash_spec(key@)),
                k as nat,
            ),
    {
        let bits: u128 = array.len() as u128 * 8;
        let mut h = Self::bloom_hash(key);
        let delta = (h >> 17) | (h << 15);
        let mut j: u8 = 0;
        while j < k
            invariant
                j <= k,
                array@.len() * 8 == bits,
                bits > 0,
                probes_all_set(array@, h, delta, (k - j) as nat) == probes_all_set(
                    array@,
                    bloom_hash_spec(key@),
                    bloom_delta(bloom_hash_spec(key@)),
                    k as nat,
                ),
            decreases k - j,
        {
            let probe = (h as u128) % bits;
            proof {
                vstd::arithmetic::div_mod::lemma_mod_decreases(h as nat, bits as nat);
            }
            let bit_pos = probe as usize;
            assert(bit_pos as nat == (h as nat) % (array@.len() * 8));
            if array[bit_pos / 8] & (1u8 << ((bit_pos % 8) as u32)) == 0 {
                return false;
            }
            h = h.wrapping_add(delta);
            j = j + 1;
        }
        true
    }
}

impl FilterPolicy for BloomFilterPolicy {
    open spec fn filter_of(&self, keys: Seq<Seq<u8>>) -> Seq<u8> {
        bloom_filter(keys, self.spec_bits_per_key(), self.spec_k())
    }

    open spec fn matches(&self, key: Seq<u8>, filter: Seq<u8>) -> bool {
        bloom_matches(key, filter)
    }

    proof fn lemma_no_false_negative(&self, keys: Seq<Seq<u8>>, i: int) {
        lemma_bloom_no_false_negative(keys, self.spec_bits_per_key(), self.spec_k(), i);
    }

    open spec fn spec_name(&self) -> Seq<char> {
        "leveldb.BuiltinBloomFilter2"@
    }

    fn name(&self) -> (n: &'static str) {
        "leveldb.BuiltinBloomFilter2"
    }

    fn create_filter(&self, keys: &[Slice], dst: &mut Vec<u8>) {
        let n = keys.len();
        proof {
            assert(n * self.bits_per_key <= 0xffff_ffff_ffff_ffff * 0xffff_ffff_ffff_ffff)
                by (nonlinear_arith)
                requires
                    n <= 0xffff_ffff_ffff_ffff,
                    self.bits_per_key <= 0xffff_ffff_ffff_ffff,
            ;
        }
        let raw: u128 = n as u128 * self.bits_per_key as u128;
        let bits: usize = if raw < 64 {
            64
        } else if raw > (usize::MAX - 7) as u128 {
            usize::MAX - 7
        } else {
            raw as usize
        };
        let bytes = (bits + 7) / 8;
        let ghost views = key_views(keys@);
        assert(bytes == filter_bytes(views.len(), self.spec_bits_per_key()));
        let mut array: Vec<u8> = Vec::new();
        while array.len() < bytes
            invariant
                array@.len() <= bytes,
                array@ == Seq::new(array@.len(), |i: int| 0u8),
            decreases bytes - array@.len(),
        {
            array.push(0);
            assert(array@ =~= Seq::new(array@.len(), |i: int| 0u8));
        }
        let ghost zeros = array@;
        let mut i: usize = 0;
        proof {
            assert(views.take(0) =~= Seq::<Seq<u8>>::empty());
        }
        while i < n
            invariant
                i <= n == keys@.len(),
                views == key_views(keys@),
                zeros.len() == bytes,
                bytes >= 8,
                array@.len() == bytes,
                array@ == keys_marked(zeros, views.take(i as int), self.k as nat),
            decreases n - i,
        {
            Self::mark_key(&mut array, keys[i].data(), self.k);
            proof {
                let next = views.take(i + 1);
                assert(next.drop_last() =~= views.take(i as int));
                assert(next.last() == keys@[i as int]@);
            }
            i = i + 1;
        }
        proof {
            assert(views.take(n as int) =~= views);
        }
        array.push(self.k);
        crate::util::coding::append_bytes(dst, array.as_slice());
    }

    fn key_may_match(&self, key: &[u8], bloom_filter: &[u8]) -> (may: bool) {
        let len = bloom_filter.len();
        if len < 2 {
            return false;
        }
        let k = bloom_filter[len - 1];
        if k > 30 {
            return true;
        }
        proof {
            assert(bloom_filter@.subrange(0, len - 1) =~= bloom_filter@.drop_last());
        }
        Self::probes_set(vstd::slice::slice_subrange(bloom_filter, 0, len - 1), key, k)
    }
}

} // verus!
