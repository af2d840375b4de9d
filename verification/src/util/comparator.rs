//! Total orders on keys.

use std::cmp::Ordering;
use vstd::prelude::*;

verus! {

/// A total order on byte-string keys, with two ways of shortening keys
/// that an index may put in place of real keys.
pub trait Comparator {
    /// The keys that this order is defined on.
    spec fn accepts(&self, key: Seq<u8>) -> bool;

    /// Whether `a` comes strictly before `b`.
    spec fn less(&self, a: Seq<u8>, b: Seq<u8>) -> bool;

    /// No key comes before itself.
    proof fn lemma_irreflexive(&self, a: Seq<u8>)
        requires
            self.accepts(a),
        ensures
            !self.less(a, a),
    ;

    /// What comes before a key comes before all that the key comes before.
    proof fn lemma_transitive(&self, a: Seq<u8>, b: Seq<u8>, c: Seq<u8>)
        requires
            self.accepts(a),
            self.accepts(b),
            self.accepts(c),
            self.less(a, b),
            self.less(b, c),
        ensures
            self.less(a, c),
    ;

    /// Of three keys, the first comes before the third where it comes
    /// before the second or the second before the third.
    proof fn lemma_between(&self, a: Seq<u8>, b: Seq<u8>, c: Seq<u8>)
        requires
            self.accepts(a),
            self.accepts(b),
            self.accepts(c),
            self.less(a, c),
        ensures
            self.less(a, b) || self.less(b, c),
    ;

    /// The key that `find_shortest_separator` puts in place of `start`.
    spec fn separator(&self, start: Seq<u8>, limit: Seq<u8>) -> Seq<u8>;

    /// The key that `find_short_successor` puts in place of `key`.
    spec fn successor(&self, key: Seq<u8>) -> Seq<u8>;

    /// A separator is `start` itself, or a key not before `start` and
    /// before `limit`.
    proof fn lemma_separator(&self, start: Seq<u8>, limit: Seq<u8>)
        requires
            self.accepts(start),
            self.accepts(limit),
        ensures
            self.accepts(self.separator(start, limit)),
            self.separator(start, limit) == start || (!self.less(
                self.separator(start, limit),
                start,
            ) && self.less(self.separator(start, limit), limit)),
    ;

    /// A successor is not before the key it was made of.
    proof fn lemma_successor(&self, key: Seq<u8>)
        requires
            self.accepts(key),
        ensures
            self.accepts(self.successor(key)),
            !self.less(self.successor(key), key),
    ;

    /// Whether this order is defined on `key`.
    fn is_valid_key(&self, key: &[u8]) -> (valid: bool)
        ensures
            valid == self.accepts(key@),
    ;

    /// Three-way comparison.
    fn compare(&self, a: &[u8], b: &[u8]) -> (r: Ordering)
        requires
            self.accepts(a@),
            self.accepts(b@),
        ensures
            (r == Ordering::Less) == self.less(a@, b@),
            (r == Ordering::Greater) == self.less(b@, a@),
    ;

    /// The name of the order, stored in tables to tell orders apart.
    fn name(&self) -> &'static str;

    /// Puts in `start` a key that is not before `start` and before
    /// `limit`, shorter than `start` where one is found; leaves `start` as
    /// it is otherwise.
    fn find_shortest_separator(&self, start: &mut Vec<u8>, limit: &[u8])
        requires
            self.accepts(old(start)@),
            self.accepts(limit@),
        ensures
            final(start)@ == self.separator(old(start)@, limit@),
    ;

    /// Puts in `key` a key that is not before `key`, shorter where one is
    /// found.
    fn find_short_successor(&self, key: &mut Vec<u8>)
        requires
            self.accepts(old(key)@),
        ensures
            final(key)@ == self.successor(old(key)@),
    ;
}

/// Whether `a` comes strictly before `b` in the order of `order`.
pub fn key_less<C: Comparator>(order: &C, a: &[u8], b: &[u8]) -> (r: bool)
    requires
        order.accepts(a@),
        order.accepts(b@),
    ensures
        r == order.less(a@, b@),
{
    match order.compare(a, b) {
        Ordering::Less => true,
        _ => false,
    }
}

/// Whether neither of `a` and `b` comes before the other.
pub fn key_equal<C: Comparator>(order: &C, a: &[u8], b: &[u8]) -> (r: bool)
    requires
        order.accepts(a@),
        order.accepts(b@),
    ensures
        r == (!order.less(a@, b@) && !order.less(b@, a@)),
{
    match order.compare(a, b) {
        Ordering::Equal => true,
        _ => false,
    }
}

} // verus!
