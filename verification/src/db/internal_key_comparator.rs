//! Internal keys: a user key followed by eight bytes that pack a sequence
//! number and a value type, ordered by user key and then newest first.

use crate::obj::slice::Slice;
use crate::util::coding::{
    decode_fixed64, fixed64_bytes, fixed64_value, lemma_fixed64_roundtrip, put_fixed64,
};
use crate::util::comparator::{key_less, Comparator};
use std::cmp::Ordering;
use vstd::prelude::*;
use vstd::slice::slice_subrange;

verus! {

/// What an entry holds: a value, or the mark that the key was deleted.
#[derive(Debug, PartialEq, Eq, Structural, Clone, Copy)]
pub enum ValueType {
    KTypeDeletion,
    KTypeValue,
}

/// Largest sequence number: 56 bits.
pub const K_MAX_SEQUENCE_NUMBER: u64 = 0x00ff_ffff_ffff_ffff;

/// The value type put in keys that are made to seek with: the largest, so
/// that such a key comes before every entry of its user key and sequence.
pub const K_VALUE_TYPE_FOR_SEEK: ValueType = ValueType::KTypeValue;

impl ValueType {
    pub open spec fn spec_to_u8(self) -> u8 {
        match self {
            ValueType::KTypeDeletion => 0,
            ValueType::KTypeValue => 1,
        }
    }

    pub open spec fn spec_from_u8(byte: u8) -> Option<ValueType> {
        if byte == 0 {
            Some(ValueType::KTypeDeletion)
        } else if byte == 1 {
            Some(ValueType::KTypeValue)
        } else {
            None
        }
    }

    pub fn to_u8(self) -> (byte: u8)
        ensures
            byte == self.spec_to_u8(),
            byte <= 1,
    {
        match self {
            ValueType::KTypeDeletion => 0,
            ValueType::KTypeValue => 1,
        }
    }

    /// The value type that a byte stands for.
    pub fn try_from(value: u8) -> (r: Result<ValueType, &'static str>)
        ensures
            match r {
                Ok(t) => Self::spec_from_u8(value) == Some(t),
                Err(_) => Self::spec_from_u8(value) is None,
            },
    {
        if value == 0 {
            Ok(ValueType::KTypeDeletion)
        } else if value == 1 {
            Ok(ValueType::KTypeValue)
        } else {
            Err("Invalid value for ValueType")
        }
    }
}

/// An internal key taken apart.
#[derive(Debug)]
pub struct ParsedInternalKey {
    pub user_key: Slice,
    pub sequence: u64,
    pub value_type: ValueType,
}

/// A sequence number and a value type in one number: the sequence number
/// in the upper 56 bits, the type in the lowest byte.
pub open spec fn pack_spec(seq: u64, t: ValueType) -> u64
    recommends
        seq <= K_MAX_SEQUENCE_NUMBER,
{
    (seq * 256 + t.spec_to_u8()) as u64
}

/// The internal key of a user key, a sequence number and a value type.
pub open spec fn internal_key_bytes(user_key: Seq<u8>, seq: u64, t: ValueType) -> Seq<u8>
    recommends
        seq <= K_MAX_SEQUENCE_NUMBER,
{
    user_key + fixed64_bytes(pack_spec(seq, t))
}

/// The user key of an internal key: all but its last eight bytes.
pub open spec fn user_key_of(key: Seq<u8>) -> Seq<u8>
    recommends
        key.len() >= 8,
{
    key.take(key.len() - 8)
}

/// The packed sequence number and type of an internal key: its last eight
/// bytes, read least significant byte first.
pub open spec fn tag_of(key: Seq<u8>) -> u64
    recommends
        key.len() >= 8,
{
    fixed64_value(key.skip(key.len() - 8))
}

/// What an internal key is made of; `None` where it is shorter than eight
/// bytes or its type byte stands for no value type.
pub open spec fn internal_key_parse(key: Seq<u8>) -> Option<(Seq<u8>, u64, ValueType)> {
    if key.len() < 8 {
        None
    } else {
        match ValueType::spec_from_u8((tag_of(key) % 256) as u8) {
            Some(t) => Some((user_key_of(key), tag_of(key) / 256, t)),
            None => None,
        }
    }
}

proof fn lemma_pack_bits(seq: u64, t: u8)
    by (bit_vector)
    requires
        seq <= 0x00ff_ffff_ffff_ffff,
        t <= 1,
    ensures
        (seq << 8) | (t as u64) == seq * 256 + t,
        seq * 256 + t <= 0xffff_ffff_ffff_ffff,
{
}

proof fn lemma_unpack_bits(num: u64)
    by (bit_vector)
    ensures
        num >> 8 == num / 256,
        num as u8 == num % 256,
        num / 256 <= 0x00ff_ffff_ffff_ffff,
{
}

/// The user key and the tag of an encoded internal key are those it was
/// made of.
pub proof fn lemma_internal_key_parts(user_key: Seq<u8>, tag: u64)
    ensures
        (user_key + fixed64_bytes(tag)).len() == user_key.len() + 8,
        user_key_of(user_key + fixed64_bytes(tag)) == user_key,
        tag_of(user_key + fixed64_bytes(tag)) == tag,
{
    let k = user_key + fixed64_bytes(tag);
    lemma_fixed64_roundtrip(tag, Seq::empty());
    assert(k.take(k.len() - 8) =~= user_key);
    assert(k.skip(k.len() - 8) =~= fixed64_bytes(tag) + Seq::<u8>::empty());
}

/// Internal-key round trip: an encoded key parses to the user key, the
/// sequence number and the value type it was made of, and nothing shorter
/// than eight bytes parses.
pub proof fn lemma_internal_key_roundtrip(user_key: Seq<u8>, seq: u64, t: ValueType)
    requires
        seq <= K_MAX_SEQUENCE_NUMBER,
    ensures
        internal_key_parse(internal_key_bytes(user_key, seq, t)) == Some((user_key, seq, t)),
        forall|short: Seq<u8>| short.len() < 8 ==> internal_key_parse(short) is None,
{
    lemma_internal_key_parts(user_key, pack_spec(seq, t));
}

/// The user key of an internal key.
pub fn extract_user_key(internal_key: &[u8]) -> (user_key: &[u8])
    requires
        internal_key@.len() >= 8,
    ensures
        user_key@ == user_key_of(internal_key@),
{
    slice_subrange(internal_key, 0, internal_key.len() - 8)
}

/// The packed sequence number and type of an internal key.
pub fn extract_tag(internal_key: &[u8]) -> (tag: u64)
    requires
        internal_key@.len() >= 8,
    ensures
        tag == tag_of(internal_key@),
{
    let n = internal_key.len();
    proof {
        assert(internal_key@.subrange(n - 8, n as int) =~= internal_key@.skip(n - 8));
    }
    decode_fixed64(slice_subrange(internal_key, n - 8, n))
}

/// Packs a sequence number and a value type into one number.
pub fn pack_sequence_and_type(seq: u64, t: ValueType) -> (packed: u64)
    requires
        seq <= K_MAX_SEQUENCE_NUMBER,
    ensures
        packed == pack_spec(seq, t),
{
    proof {
        lemma_pack_bits(seq, t.spec_to_u8());
    }
    (seq << 8) | (t.to_u8() as u64)
}

/// Appends the internal key of `key` to `result`.
pub fn append_internal_key(result: &mut Vec<u8>, key: &ParsedInternalKey)
    requires
        key.sequence <= K_MAX_SEQUENCE_NUMBER,
    ensures
        final(result)@ == old(result)@ + internal_key_bytes(
            key.user_key@,
            key.sequence,
            key.value_type,
        ),
{
    crate::util::coding::append_bytes(result, key.user_key.data());
    put_fixed64(result, pack_sequence_and_type(key.sequence, key.value_type));
    assert(result@ =~= old(result)@ + internal_key_bytes(
        key.user_key@,
        key.sequence,
        key.value_type,
    ));
}

/// Takes an internal key apart into `result`.  Returns `false`, and leaves
/// `result` as it was, where the key is shorter than eight bytes or its
/// type byte stands for no value type.
pub fn parse_internal_key(internal_key: &Slice, result: &mut ParsedInternalKey) -> (parsed: bool)
    ensures
        parsed == internal_key_parse(internal_key@).is_some(),
        match internal_key_parse(internal_key@) {
            Some((user_key, sequence, value_type)) => final(result).user_key@ == user_key
                && final(result).sequence == sequence && final(result).value_type == value_type
                && sequence <= K_MAX_SEQUENCE_NUMBER,
            None => final(result).user_key@ == old(result).user_key@ && final(result).sequence
                == old(result).sequence && final(result).value_type == old(result).value_type,
        },
{
    let n = internal_key.len();
    if n < 8 {
        return false;
    }
    let num = extract_tag(internal_key.data());
    proof {
        lemma_unpack_bits(num);
    }
    let c = num as u8;
    match ValueType::try_from(c) {
        Ok(t) => {
            result.sequence = num >> 8;
            result.value_type = t;
            result.user_key = internal_key.slice(n - 8);
            true
        },
        Err(_) => false,
    }
}

/// Orders internal keys: by user key in the order of the user comparator,
/// and keys of one user key by sequence number and type, largest first.
#[derive(Debug, Clone, Copy)]
pub struct InternalKeyComparator<C: Comparator> {
    pub user_comparator_: C,
}

impl<C: Comparator> InternalKeyComparator<C> {
    pub fn new(user_comparator: C) -> (c: Self)
        ensures
            c.user_comparator_ == user_comparator,
    {
        InternalKeyComparator { user_comparator_: user_comparator }
    }

    /// The user comparator.
    pub fn user_comparator(&self) -> (c: &C)
        ensures
            *c == self.user_comparator_,
    {
        &self.user_comparator_
    }

    /// The tag of keys made to seek with: the largest sequence number and
    /// the largest type.
    pub open spec fn seek_tag() -> u64 {
        pack_spec(K_MAX_SEQUENCE_NUMBER, K_VALUE_TYPE_FOR_SEEK)
    }

    /// A user key shortened by the user comparator becomes an internal key
    /// again with the seek tag behind it, where it is shorter than the user
    /// key it came from and behind it; otherwise the key stays as it was.
    pub open spec fn reseal(&self, key: Seq<u8>, shortened: Seq<u8>) -> Seq<u8> {
        if shortened.len() < user_key_of(key).len() && self.user_comparator_.less(
            user_key_of(key),
            shortened,
        ) {
            shortened + fixed64_bytes(Self::seek_tag())
        } else {
            key
        }
    }

    proof fn lemma_reseal(&self, key: Seq<u8>, shortened: Seq<u8>)
        requires
            self.accepts(key),
            self.user_comparator_.accepts(shortened),
        ensures
            self.accepts(self.reseal(key, shortened)),
            !self.less(self.reseal(key, shortened), key),
            self.reseal(key, shortened) != key ==> user_key_of(self.reseal(key, shortened))
                == shortened && self.less(key, self.reseal(key, shortened)),
    {
        let u = self.user_comparator_;
        let r = self.reseal(key, shortened);
        u.lemma_irreflexive(user_key_of(key));
        if shortened.len() < user_key_of(key).len() && u.less(user_key_of(key), shortened) {
            lemma_internal_key_parts(shortened, Self::seek_tag());
            if u.less(shortened, user_key_of(key)) {
                u.lemma_transitive(user_key_of(key), shortened, user_key_of(key));
            }
        }
    }

    fn reseal_key(&self, key: &mut Vec<u8>, shortened: Vec<u8>)
        requires
            self.accepts(old(key)@),
            self.user_comparator_.accepts(shortened@),
        ensures
            final(key)@ == self.reseal(old(key)@, shortened@),
    {
        let mut tmp = shortened;
        let changed = {
            let user_key = extract_user_key(key.as_slice());
            tmp.len() < user_key.len() && key_less(
                &self.user_comparator_,
                user_key,
                tmp.as_slice(),
            )
        };
        if changed {
            put_fixed64(&mut tmp, pack_sequence_and_type(K_MAX_SEQUENCE_NUMBER, K_VALUE_TYPE_FOR_SEEK));
            *key = tmp;
        }
    }
}

impl<C: Comparator> Comparator for InternalKeyComparator<C> {
    open spec fn accepts(&self, key: Seq<u8>) -> bool {
        key.len() >= 8 && self.user_comparator_.accepts(user_key_of(key))
    }

    open spec fn less(&self, a: Seq<u8>, b: Seq<u8>) -> bool {
        self.user_comparator_.less(user_key_of(a), user_key_of(b)) || (
        !self.user_comparator_.less(user_key_of(b), user_key_of(a)) && tag_of(a) > tag_of(b))
    }

    open spec fn separator(&self, start: Seq<u8>, limit: Seq<u8>) -> Seq<u8> {
        self.reseal(start, self.user_comparator_.separator(user_key_of(start), user_key_of(limit)))
    }

    open spec fn successor(&self, key: Seq<u8>) -> Seq<u8> {
        self.reseal(key, self.user_comparator_.successor(user_key_of(key)))
    }

    proof fn lemma_irreflexive(&self, a: Seq<u8>) {
        self.user_comparator_.lemma_irreflexive(user_key_of(a));
    }

    proof fn lemma_transitive(&self, a: Seq<u8>, b: Seq<u8>, c: Seq<u8>) {
        let u = self.user_comparator_;
        let (ua, ub, uc) = (user_key_of(a), user_key_of(b), user_key_of(c));
        if u.less(ua, ub) {
            if u.less(ub, uc) {
                u.lemma_transitive(ua, ub, uc);
            } else {
                u.lemma_between(ua, uc, ub);
            }
        } else {
            if u.less(ub, uc) {
                u.lemma_between(ub, ua, uc);
            } else if u.less(uc, ua) {
                u.lemma_between(uc, ub, ua);
            }
        }
    }

    proof fn lemma_between(&self, a: Seq<u8>, b: Seq<u8>, c: Seq<u8>) {
        let u = self.user_comparator_;
        let (ua, ub, uc) = (user_key_of(a), user_key_of(b), user_key_of(c));
        if u.less(ua, uc) {
            u.lemma_between(ua, ub, uc);
            if u.less(ub, ua) {
                u.lemma_transitive(ub, ua, uc);
            }
            if u.less(uc, ub) {
                u.lemma_transitive(ua, uc, ub);
            }
        } else {
            if u.less(ub, ua) && u.less(uc, ub) {
                u.lemma_transitive(uc, ub, ua);
            }
            if u.less(ub, ua) && !u.less(uc, ub) && !u.less(ub, uc) {
                u.lemma_between(ub, uc, ua);
            }
            if u.less(uc, ub) && !u.less(ub, ua) && !u.less(ua, ub) {
                u.lemma_between(uc, ua, ub);
            }
        }
    }

    proof fn lemma_separator(&self, start: Seq<u8>, limit: Seq<u8>) {
        let u = self.user_comparator_;
        let shortened = u.separator(user_key_of(start), user_key_of(limit));
        u.lemma_separator(user_key_of(start), user_key_of(limit));
        self.lemma_reseal(start, shortened);
        u.lemma_irreflexive(user_key_of(start));
    }

    proof fn lemma_successor(&self, key: Seq<u8>) {
        let u = self.user_comparator_;
        u.lemma_successor(user_key_of(key));
        self.lemma_reseal(key, u.successor(user_key_of(key)));
    }

    fn is_valid_key(&self, key: &[u8]) -> (valid: bool) {
        key.len() >= 8 && self.user_comparator_.is_valid_key(extract_user_key(key))
    }

    fn compare(&self, akey: &[u8], bkey: &[u8]) -> (r: Ordering) {
        let r = self.user_comparator_.compare(extract_user_key(akey), extract_user_key(bkey));
        match r {
            Ordering::Equal => {
                let a_num = extract_tag(akey);
                let b_num = extract_tag(bkey);
                if a_num > b_num {
                    Ordering::Less
                } else if a_num < b_num {
                    Ordering::Greater
                } else {
                    Ordering::Equal
                }
            },
            _ => r,
        }
    }

    fn name(&self) -> (n: &'static str)
        ensures
            n@ == "leveldb.InternalKeyComparator"@,
    {
        "leveldb.InternalKeyComparator"
    }

    fn find_shortest_separator(&self, start: &mut Vec<u8>, limit: &[u8]) {
        let mut tmp = vstd::slice::slice_to_vec(extract_user_key(start.as_slice()));
        self.user_comparator_.find_shortest_separator(&mut tmp, extract_user_key(limit));
        proof {
            self.user_comparator_.lemma_separator(user_key_of(start@), user_key_of(limit@));
        }
        self.reseal_key(start, tmp);
    }

    fn find_short_successor(&self, key: &mut Vec<u8>) {
        let mut tmp = vstd::slice::slice_to_vec(extract_user_key(key.as_slice()));
        self.user_comparator_.find_short_successor(&mut tmp);
        proof {
            self.user_comparator_.lemma_successor(user_key_of(key@));
        }
        self.reseal_key(key, tmp);
    }
}

/// Internal-key ordering: of two internal keys of one user key, the one of
/// the larger sequence number comes first.
pub proof fn lemma_newer_sorts_first<C: Comparator>(
    order: InternalKeyComparator<C>,
    user_key: Seq<u8>,
    s1: u64,
    t1: ValueType,
    s2: u64,
    t2: ValueType,
)
    requires
        order.user_comparator_.accepts(user_key),
        s2 < s1 <= K_MAX_SEQUENCE_NUMBER,
    ensures
        order.less(internal_key_bytes(user_key, s1, t1), internal_key_bytes(user_key, s2, t2)),
        !order.less(internal_key_bytes(user_key, s2, t2), internal_key_bytes(user_key, s1, t1)),
{
    lemma_internal_key_parts(user_key, pack_spec(s1, t1));
    lemma_internal_key_parts(user_key, pack_spec(s2, t2));
    order.user_comparator_.lemma_irreflexive(user_key);
}

/// Shortest separator: for internal keys `a` before `b`, the separator of
/// `a` below `b` is not before `a` and is before `b`.
pub proof fn lemma_separator_between<C: Comparator>(
    order: InternalKeyComparator<C>,
    a: Seq<u8>,
    b: Seq<u8>,
)
    requires
        order.accepts(a),
        order.accepts(b),
        order.less(a, b),
    ensures
        !order.less(order.separator(a, b), a),
        order.less(order.separator(a, b), b),
        order.accepts(order.separator(a, b)),
{
    order.lemma_separator(a, b);
    order.lemma_irreflexive(a);
}

} // verus!
