//! The order of byte strings read as base-256 fractions.

use crate::util::comparator::Comparator;
use std::cmp::Ordering;
use vstd::prelude::*;

verus! {

/// Whether `a` comes before `b` byte by byte: at the first place where they
/// differ `a` has the smaller byte, or `a` ends there and `b` does not.
pub open spec fn bytes_less(a: Seq<u8>, b: Seq<u8>) -> bool
    decreases a.len(),
{
    if b.len() == 0 {
        false
    } else if a.len() == 0 {
        true
    } else if a[0] != b[0] {
        a[0] < b[0]
    } else {
        bytes_less(a.skip(1), b.skip(1))
    }
}

/// No byte string comes before itself.
pub proof fn lemma_bytes_irreflexive(a: Seq<u8>)
    ensures
        !bytes_less(a, a),
    decreases a.len(),
{
    if a.len() > 0 {
        lemma_bytes_irreflexive(a.skip(1));
    }
}

/// The byte order is transitive.
pub proof fn lemma_bytes_transitive(a: Seq<u8>, b: Seq<u8>, c: Seq<u8>)
    requires
        bytes_less(a, b),
        bytes_less(b, c),
    ensures
        bytes_less(a, c),
    decreases a.len(),
{
    if a.len() > 0 && a[0] == b[0] && b[0] == c[0] {
        lemma_bytes_transitive(a.skip(1), b.skip(1), c.skip(1));
    }
}

/// Of two different byte strings one comes before the other.
pub proof fn lemma_bytes_total(a: Seq<u8>, b: Seq<u8>)
    ensures
        bytes_less(a, b) || bytes_less(b, a) || a == b,
    decreases a.len(),
{
    if a.len() > 0 && b.len() > 0 && a[0] == b[0] {
        lemma_bytes_total(a.skip(1), b.skip(1));
        if a.skip(1) == b.skip(1) {
            assert(a =~= seq![a[0]] + a.skip(1));
            assert(b =~= seq![b[0]] + b.skip(1));
        }
    } else if a.len() == 0 && b.len() == 0 {
        assert(a =~= b);
    }
}

/// No two byte strings come before each other.
pub proof fn lemma_bytes_asymmetric(a: Seq<u8>, b: Seq<u8>)
    requires
        bytes_less(a, b),
    ensures
        !bytes_less(b, a),
{
    if bytes_less(b, a) {
        lemma_bytes_transitive(a, b, a);
        lemma_bytes_irreflexive(a);
    }
}

/// Behind a common front part, the order is that of what follows it.
pub proof fn lemma_bytes_less_skip(a: Seq<u8>, b: Seq<u8>, k: int)
    requires
        0 <= k <= a.len(),
        k <= b.len(),
        a.take(k) == b.take(k),
    ensures
        bytes_less(a, b) == bytes_less(a.skip(k), b.skip(k)),
    decreases k,
{
    if k > 0 {
        assert(a[0] == a.take(k)[0] && b[0] == b.take(k)[0]);
        assert(a.skip(1).take(k - 1) =~= a.take(k).skip(1));
        assert(b.skip(1).take(k - 1) =~= b.take(k).skip(1));
        lemma_bytes_less_skip(a.skip(1), b.skip(1), k - 1);
        assert(a.skip(1).skip(k - 1) =~= a.skip(k));
        assert(b.skip(1).skip(k - 1) =~= b.skip(k));
    } else {
        assert(a.skip(0) =~= a);
        assert(b.skip(0) =~= b);
    }
}

/// The first place at which `a` and `b` differ, or the length of the
/// shorter where one is the front part of the other.
pub open spec fn first_difference(a: Seq<u8>, b: Seq<u8>) -> nat
    decreases a.len(),
{
    if a.len() == 0 || b.len() == 0 || a[0] != b[0] {
        0
    } else {
        1 + first_difference(a.skip(1), b.skip(1))
    }
}

/// Up to their first difference two byte strings agree, and there they
/// differ unless one of them ends.
pub proof fn lemma_first_difference(a: Seq<u8>, b: Seq<u8>)
    ensures
        first_difference(a, b) <= a.len(),
        first_difference(a, b) <= b.len(),
        a.take(first_difference(a, b) as int) == b.take(first_difference(a, b) as int),
        first_difference(a, b) < a.len() && first_difference(a, b) < b.len() ==> a[first_difference(
            a,
            b,
        ) as int] != b[first_difference(a, b) as int],
    decreases a.len(),
{
    if a.len() == 0 || b.len() == 0 || a[0] != b[0] {
        assert(a.take(0) =~= b.take(0));
    } else {
        lemma_first_difference(a.skip(1), b.skip(1));
        let d = first_difference(a.skip(1), b.skip(1)) as int;
        assert(a.take(d + 1) =~= seq![a[0]] + a.skip(1).take(d));
        assert(b.take(d + 1) =~= seq![b[0]] + b.skip(1).take(d));
    }
}

/// Number of leading bytes that two byte strings share.
pub fn shared_prefix_len(a: &[u8], b: &[u8]) -> (d: usize)
    ensures
        d == first_difference(a@, b@),
        d <= a@.len(),
        d <= b@.len(),
{
    let mut i: usize = 0;
    proof {
        assert(a@.skip(0) =~= a@);
        assert(b@.skip(0) =~= b@);
    }
    while i < a.len() && i < b.len() && a[i] == b[i]
        invariant
            i <= a@.len(),
            i <= b@.len(),
            first_difference(a@, b@) == i + first_difference(a@.skip(i as int), b@.skip(i as int)),
        decreases a@.len() - i,
    {
        proof {
            assert(a@.skip(i as int).skip(1) =~= a@.skip(i + 1));
            assert(b@.skip(i as int).skip(1) =~= b@.skip(i + 1));
        }
        i = i + 1;
    }
    proof {
        lemma_first_difference(a@, b@);
    }
    i
}

/// Compares byte by byte: -1 where `a` comes first, 1 where `b` does, 0
/// where they are the same.
pub fn bytes_three_way(a: &[u8], b: &[u8]) -> (r: i8)
    ensures
        (r == -1) == bytes_less(a@, b@),
        (r == 1) == bytes_less(b@, a@),
        (r == 0) == (a@ == b@),
        r == -1 || r == 0 || r == 1,
{
    let d = shared_prefix_len(a, b);
    proof {
        lemma_first_difference(a@, b@);
        lemma_bytes_less_skip(a@, b@, d as int);
        lemma_bytes_less_skip(b@, a@, d as int);
        lemma_bytes_irreflexive(a@);
        if a@ == b@ {
        } else {
            lemma_bytes_total(a@, b@);
        }
        if bytes_less(a@, b@) {
            lemma_bytes_asymmetric(a@, b@);
        }
    }
    if d < a.len() && d < b.len() {
        proof {
            assert(a@.skip(d as int)[0] == a@[d as int]);
            assert(b@.skip(d as int)[0] == b@[d as int]);
        }
        if a[d] < b[d] {
            -1
        } else {
            1
        }
    } else if d < b.len() {
        -1
    } else if d < a.len() {
        1
    } else {
        proof {
            assert(a@ =~= a@.take(d as int));
            assert(b@ =~= b@.take(d as int));
        }
        0
    }
}

/// Orders keys byte by byte.
#[derive(Debug, Clone, Copy)]
pub struct BytewiseComparatorImpl {}

/// What the bytewise order makes of `start` as a separator below `limit`:
/// where the two differ at a place at which the byte of `start` can be
/// raised by one and stay below that of `limit`, `start` up to that place
/// with the byte raised; `start` otherwise.
pub open spec fn bytewise_separator(start: Seq<u8>, limit: Seq<u8>) -> Seq<u8> {
    let d = first_difference(start, limit) as int;
    if d < start.len() && d < limit.len() && start[d] < 0xff && start[d] + 1 < limit[d] {
        start.take(d).push((start[d] + 1) as u8)
    } else {
        start
    }
}

/// The place of the first byte of `key` that is not 255, or the length of
/// `key` where all are.
pub open spec fn first_below_max(key: Seq<u8>) -> nat
    decreases key.len(),
{
    if key.len() == 0 || key[0] != 0xff {
        0
    } else {
        1 + first_below_max(key.skip(1))
    }
}

/// What the bytewise order makes of `key` as a short key not before it:
/// `key` up to its first byte that is not 255, with that byte raised by
/// one; `key` itself where all its bytes are 255.
pub open spec fn bytewise_successor(key: Seq<u8>) -> Seq<u8> {
    let d = first_below_max(key) as int;
    if d < key.len() {
        key.take(d).push((key[d] + 1) as u8)
    } else {
        key
    }
}

/// Raising the byte at a place, and dropping what follows, gives a byte
/// string that comes behind.
pub proof fn lemma_raised_is_greater(key: Seq<u8>, d: int)
    requires
        0 <= d < key.len(),
        key[d] < 0xff,
    ensures
        bytes_less(key, key.take(d).push((key[d] + 1) as u8)),
{
    let r = key.take(d).push((key[d] + 1) as u8);
    assert(key.take(d) =~= r.take(d));
    lemma_bytes_less_skip(key, r, d);
    assert(key.skip(d)[0] == key[d]);
    assert(r.skip(d)[0] == key[d] + 1);
}

/// The separator is not before `start`, and is before `limit` where it
/// differs from `start`.
pub proof fn lemma_bytewise_separator(start: Seq<u8>, limit: Seq<u8>)
    ensures
        !bytes_less(bytewise_separator(start, limit), start),
        bytewise_separator(start, limit) != start ==> bytes_less(
            bytewise_separator(start, limit),
            limit,
        ) && bytes_less(start, bytewise_separator(start, limit)),
        bytewise_separator(start, limit).len() <= start.len(),
{
    let sep = bytewise_separator(start, limit);
    let d = first_difference(start, limit) as int;
    lemma_first_difference(start, limit);
    lemma_bytes_irreflexive(start);
    if d < start.len() && d < limit.len() && start[d] < 0xff && start[d] + 1 < limit[d] {
        lemma_raised_is_greater(start, d);
        lemma_bytes_asymmetric(start, sep);
        assert(sep.take(d) =~= limit.take(d));
        lemma_bytes_less_skip(sep, limit, d);
        assert(sep.skip(d)[0] == start[d] + 1);
        assert(limit.skip(d)[0] == limit[d]);
    }
}

/// The successor is not before `key`.
pub proof fn lemma_bytewise_successor(key: Seq<u8>)
    ensures
        !bytes_less(bytewise_successor(key), key),
        bytewise_successor(key) != key ==> bytes_less(key, bytewise_successor(key)),
        bytewise_successor(key).len() <= key.len(),
        first_below_max(key) <= key.len(),
{
    lemma_first_below_max(key);
    let d = first_below_max(key) as int;
    lemma_bytes_irreflexive(key);
    if d < key.len() {
        lemma_raised_is_greater(key, d);
        lemma_bytes_asymmetric(key, bytewise_successor(key));
    }
}

/// Before its first byte that is not 255 a key holds only bytes 255.
pub proof fn lemma_first_below_max(key: Seq<u8>)
    ensures
        first_below_max(key) <= key.len(),
        forall|i: int| 0 <= i < first_below_max(key) ==> key[i] == 0xff,
        first_below_max(key) < key.len() ==> key[first_below_max(key) as int] != 0xff,
    decreases key.len(),
{
    if key.len() > 0 && key[0] == 0xff {
        lemma_first_below_max(key.skip(1));
        assert forall|i: int| 0 <= i < first_below_max(key) implies key[i] == 0xff by {
            if i > 0 {
                assert(key.skip(1)[i - 1] == key[i]);
            }
        }
    }
}

impl BytewiseComparatorImpl {
    /// Shortens `start` to the separator that the bytewise order makes of
    /// it below `limit`.
    pub fn shorten_separator(start: &mut Vec<u8>, limit: &[u8])
        ensures
            final(start)@ == bytewise_separator(old(start)@, limit@),
    {
        let d = shared_prefix_len(start.as_slice(), limit);
        if d < start.len() && d < limit.len() {
            let diff_byte = start[d];
            if diff_byte < 0xff && diff_byte + 1 < limit[d] {
                start.truncate(d);
                start.push(diff_byte + 1);
            }
        }
    }

    /// Shortens `key` to the successor that the bytewise order makes of it.
    pub fn shorten_successor(key: &mut Vec<u8>)
        ensures
            final(key)@ == bytewise_successor(old(key)@),
    {
        let mut i: usize = 0;
        proof {
            assert(key@.skip(0) =~= key@);
        }
        while i < key.len() && key[i] == 0xff
            invariant
                i <= key@.len(),
                key@ == old(key)@,
                first_below_max(key@) == i + first_below_max(key@.skip(i as int)),
            decreases key@.len() - i,
        {
            proof {
                assert(key@.skip(i as int).skip(1) =~= key@.skip(i + 1));
            }
            i = i + 1;
        }
        if i < key.len() {
            let byte = key[i];
            key.truncate(i);
            key.push(byte + 1);
        }
    }
}

impl Comparator for BytewiseComparatorImpl {
    open spec fn accepts(&self, key: Seq<u8>) -> bool {
        true
    }

    open spec fn less(&self, a: Seq<u8>, b: Seq<u8>) -> bool {
        bytes_less(a, b)
    }

    proof fn lemma_irreflexive(&self, a: Seq<u8>) {
        lemma_bytes_irreflexive(a);
    }

    proof fn lemma_transitive(&self, a: Seq<u8>, b: Seq<u8>, c: Seq<u8>) {
        lemma_bytes_transitive(a, b, c);
    }

    proof fn lemma_between(&self, a: Seq<u8>, b: Seq<u8>, c: Seq<u8>) {
        lemma_bytes_total(a, b);
        lemma_bytes_total(b, c);
        if !bytes_less(a, b) && !bytes_less(b, c) {
            if a == b {
            } else if b == c {
            } else {
                lemma_bytes_transitive(c, b, a);
                lemma_bytes_asymmetric(a, c);
            }
        }
    }

    open spec fn separator(&self, start: Seq<u8>, limit: Seq<u8>) -> Seq<u8> {
        bytewise_separator(start, limit)
    }

    open spec fn successor(&self, key: Seq<u8>) -> Seq<u8> {
        bytewise_successor(key)
    }

    proof fn lemma_separator(&self, start: Seq<u8>, limit: Seq<u8>) {
        lemma_bytewise_separator(start, limit);
    }

    proof fn lemma_successor(&self, key: Seq<u8>) {
        lemma_bytewise_successor(key);
    }

    fn is_valid_key(&self, key: &[u8]) -> (valid: bool) {
        true
    }

    fn compare(&self, a: &[u8], b: &[u8]) -> (r: Ordering)
        ensures
            (r == Ordering::Equal) == (a@ == b@),
    {
        let c = bytes_three_way(a, b);
        if c < 0 {
            Ordering::Less
        } else if c > 0 {
            Ordering::Greater
        } else {
            Ordering::Equal
        }
    }

    fn name(&self) -> (n: &'static str)
        ensures
            n@ == "leveldb.BytewiseComparator"@,
    {
        "leveldb.BytewiseComparator"
    }

    fn find_shortest_separator(&self, start: &mut Vec<u8>, limit: &[u8]) {
        Self::shorten_separator(start, limit)
    }

    fn find_short_successor(&self, key: &mut Vec<u8>) {
        Self::shorten_successor(key)
    }
}

/// The bytewise order.
pub fn byte_wise_comparator() -> (order: BytewiseComparatorImpl)
    ensures
        order == (BytewiseComparatorImpl {  }),
{
    BytewiseComparatorImpl {  }
}

} // verus!
