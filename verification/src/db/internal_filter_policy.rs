//! A filter policy over internal keys that filters by their user keys.

use crate::db::internal_key_comparator::{extract_user_key, user_key_of};
use crate::obj::slice::Slice;
use crate::unit::filter_policy::{key_views, FilterPolicy};
use vstd::prelude::*;

verus! {

/// The user keys of a list of internal keys; a key shorter than eight
/// bytes stands for itself.
pub open spec fn user_keys(keys: Seq<Seq<u8>>) -> Seq<Seq<u8>> {
    Seq::new(keys.len(), |i: int| user_key_or_self(keys[i]))
}

/// The user key of an internal key, or the key where it is shorter than
/// eight bytes.
pub open spec fn user_key_or_self(key: Seq<u8>) -> Seq<u8> {
    if key.len() >= 8 {
        user_key_of(key)
    } else {
        key
    }
}

/// Applies a policy for user keys to internal keys.
#[derive(Debug, Clone, Copy)]
pub struct InternalFilterPolicy<P: FilterPolicy> {
    pub user_policy_: P,
}

fn user_part(key: &[u8]) -> (user_key: &[u8])
    ensures
        user_key@ == user_key_or_self(key@),
{
    if key.len() >= 8 {
        extract_user_key(key)
    } else {
        key
    }
}

impl<P: FilterPolicy> FilterPolicy for InternalFilterPolicy<P> {
    open spec fn filter_of(&self, keys: Seq<Seq<u8>>) -> Seq<u8> {
        self.user_policy_.filter_of(user_keys(keys))
    }

    open spec fn matches(&self, key: Seq<u8>, filter: Seq<u8>) -> bool {
        self.user_policy_.matches(user_key_or_self(key), filter)
    }

    proof fn lemma_no_false_negative(&self, keys: Seq<Seq<u8>>, i: int) {
        self.user_policy_.lemma_no_false_negative(user_keys(keys), i);
    }

    open spec fn spec_name(&self) -> Seq<char> {
        self.user_policy_.spec_name()
    }

    fn name(&self) -> (n: &'static str) {
        self.user_policy_.name()
    }

    fn create_filter(&self, keys: &[Slice], dst: &mut Vec<u8>) {
        let mut m_keys: Vec<Slice> = Vec::new();
        let mut i: usize = 0;
        while i < keys.len()
            invariant
                i <= keys@.len(),
                m_keys@.len() == i,
                forall|j: int| 0 <= j < i ==> m_keys@[j]@ == user_key_or_self(keys@[j]@),
            decreases keys@.len() - i,
        {
            m_keys.push(Slice::new_from_array(user_part(keys[i].data())));
            i = i + 1;
        }
        proof {
            assert(key_views(m_keys@) =~= user_keys(key_views(keys@)));
        }
        self.user_policy_.create_filter(m_keys.as_slice(), dst)
    }

    fn key_may_match(&self, key: &[u8], filter: &[u8]) -> (may: bool) {
        self.user_policy_.key_may_match(user_part(key), filter)
    }
}

} // verus!
