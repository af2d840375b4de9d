//! Filters that tell, of a set of keys, which keys are surely not in it.

use crate::obj::slice::Slice;
use vstd::prelude::*;

verus! {

/// The byte strings that a list of slices holds.
pub open spec fn key_views(keys: Seq<Slice>) -> Seq<Seq<u8>> {
    Seq::new(keys.len(), |i: int| keys[i]@)
}

/// A way of summing up a set of keys in a filter.
pub trait FilterPolicy {
    /// The filter of a list of keys.
    spec fn filter_of(&self, keys: Seq<Seq<u8>>) -> Seq<u8>;

    /// Whether `filter` lets `key` pass.
    spec fn matches(&self, key: Seq<u8>, filter: Seq<u8>) -> bool;

    /// A filter lets every key pass that it was made of.
    proof fn lemma_no_false_negative(&self, keys: Seq<Seq<u8>>, i: int)
        requires
            0 <= i < keys.len(),
        ensures
            self.matches(keys[i], self.filter_of(keys)),
    ;

    /// The name of the policy.
    spec fn spec_name(&self) -> Seq<char>;

    /// The name of the policy, under which tables store its filters.
    fn name(&self) -> (n: &'static str)
        ensures
            n@ == self.spec_name(),
    ;

    /// Appends the filter of `keys` to `dst`.
    fn create_filter(&self, keys: &[Slice], dst: &mut Vec<u8>)
        ensures
            final(dst)@ == old(dst)@ + self.filter_of(key_views(keys@)),
    ;

    /// Whether `key` may be among the keys that `filter` was made of.
    fn key_may_match(&self, key: &[u8], filter: &[u8]) -> (may: bool)
        ensures
            may == self.matches(key@, filter@),
    ;
}

} // verus!
