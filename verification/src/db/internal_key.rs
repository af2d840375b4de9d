//! An internal key held in its encoded form.

use crate::db::internal_key_comparator::{
    append_internal_key, extract_user_key, internal_key_bytes, user_key_of,
    InternalKeyComparator, ParsedInternalKey, ValueType, K_MAX_SEQUENCE_NUMBER,
};
use crate::obj::slice::Slice;
use crate::util::bytewise_comparator_impl::BytewiseComparatorImpl;
use crate::util::comparator::{key_equal, key_less, Comparator};
use vstd::prelude::*;

verus! {

/// An encoded internal key.  A key that was not set yet is empty.
#[derive(Debug)]
pub struct InternalKey {
    pub rep_: Vec<u8>,
}

/// The order in which internal keys over bytewise user keys stand.
pub open spec fn internal_key_order() -> InternalKeyComparator<BytewiseComparatorImpl> {
    InternalKeyComparator { user_comparator_: BytewiseComparatorImpl {  } }
}

impl InternalKey {
    /// The internal key of a user key, a sequence number and a value type.
    pub fn new(user_key: Slice, sequence_number: u64, t: ValueType) -> (key: InternalKey)
        requires
            sequence_number <= K_MAX_SEQUENCE_NUMBER,
        ensures
            key.rep_@ == internal_key_bytes(user_key@, sequence_number, t),
    {
        let mut rep: Vec<u8> = Vec::new();
        append_internal_key(
            &mut rep,
            &ParsedInternalKey { user_key, sequence: sequence_number, value_type: t },
        );
        assert(rep@ =~= internal_key_bytes(user_key@, sequence_number, t));
        InternalKey { rep_: rep }
    }

    /// Takes over the encoded key `s`; says whether it is not empty.
    pub fn decode_from(&mut self, s: &Slice) -> (set: bool)
        ensures
            final(self).rep_@ == s@,
            set == (s@.len() > 0),
    {
        self.rep_ = vstd::slice::slice_to_vec(s.data());
        self.rep_.len() > 0
    }

    /// The encoded key.
    pub fn encode(&self) -> (s: Slice)
        ensures
            s@ == self.rep_@,
    {
        Slice::new_from_array(self.rep_.as_slice())
    }

    /// The user key.
    pub fn user_key(&self) -> (s: Slice)
        requires
            self.rep_@.len() >= 8,
        ensures
            s@ == user_key_of(self.rep_@),
    {
        Slice::new_from_array(extract_user_key(self.rep_.as_slice()))
    }

    /// Becomes the internal key of `p`.
    pub fn set_from(&mut self, p: &ParsedInternalKey)
        requires
            p.sequence <= K_MAX_SEQUENCE_NUMBER,
        ensures
            final(self).rep_@ == internal_key_bytes(p.user_key@, p.sequence, p.value_type),
    {
        self.rep_.clear();
        append_internal_key(&mut self.rep_, p);
        assert(self.rep_@ =~= internal_key_bytes(p.user_key@, p.sequence, p.value_type));
    }

    pub fn clear(&mut self)
        ensures
            final(self).rep_@ == Seq::<u8>::empty(),
    {
        self.rep_.clear();
    }

    /// Whether this key and `other` stand at the same place in the order of
    /// internal keys.
    pub fn equals(&self, other: &InternalKey) -> (r: bool)
        requires
            self.rep_@.len() >= 8,
            other.rep_@.len() >= 8,
        ensures
            r == (!internal_key_order().less(self.rep_@, other.rep_@)
                && !internal_key_order().less(other.rep_@, self.rep_@)),
    {
        let order = InternalKeyComparator { user_comparator_: BytewiseComparatorImpl {  } };
        key_equal(&order, self.rep_.as_slice(), other.rep_.as_slice())
    }

    /// Whether this key comes before `other` in the order of internal keys.
    pub fn less_than(&self, other: &InternalKey) -> (r: bool)
        requires
            self.rep_@.len() >= 8,
            other.rep_@.len() >= 8,
        ensures
            r == internal_key_order().less(self.rep_@, other.rep_@),
    {
        let order = InternalKeyComparator { user_comparator_: BytewiseComparatorImpl {  } };
        key_less(&order, self.rep_.as_slice(), other.rep_.as_slice())
    }
}

} // verus!
