//! The in-memory table: entries under internal keys, newest first for
//! each user key.

use crate::db::internal_key_comparator::{
    extract_tag, extract_user_key, pack_sequence_and_type, pack_spec, tag_of, user_key_of,
    ValueType, K_MAX_SEQUENCE_NUMBER,
};
use crate::obj::slice::Slice;
use crate::obj::status_rs::{Status, StatusCode};
use crate::util::bytewise_comparator_impl::{
    bytes_less, lemma_bytes_asymmetric, lemma_bytes_irreflexive,
};
use crossbeam_skiplist::SkipMap;
use std::ops::Bound;
use vstd::prelude::*;

verus! {

/// The ordered map of the `crossbeam-skiplist` crate.
#[verifier::external_type_specification]
#[verifier::external_body]
#[verifier::reject_recursive_types(K)]
#[verifier::reject_recursive_types(V)]
pub struct ExSkipMap<K, V>(SkipMap<K, V>);

/// What a skip map from pairs of a byte string and a number to byte
/// strings holds.
pub uninterp spec fn skip_contents(map: SkipMap<(Vec<u8>, u64), Vec<u8>>) -> Map<
    (Seq<u8>, u64),
    Seq<u8>,
>;

/// The order of pairs of a byte string and a number: by the byte strings,
/// byte by byte, and of equal byte strings by the numbers.
pub open spec fn pair_le(a: (Seq<u8>, u64), b: (Seq<u8>, u64)) -> bool {
    bytes_less(a.0, b.0) || (a.0 == b.0 && a.1 <= b.1)
}

/// The map that binds no key.
pub open spec fn skip_empty() -> Map<(Seq<u8>, u64), Seq<u8>> {
    Map::empty()
}

/// Calls `SkipMap::new`, which makes an empty map.
#[verifier::external_body]
fn skip_new() -> (created: SkipMap<(Vec<u8>, u64), Vec<u8>>)
    ensures
        skip_contents(created) == skip_empty(),
{
    SkipMap::new()
}

/// Calls `SkipMap::insert`, which binds a key to a value in place of what
/// the key was bound to.
#[verifier::external_body]
fn skip_insert(map: &mut SkipMap<(Vec<u8>, u64), Vec<u8>>, key: (Vec<u8>, u64), value: Vec<u8>)
    ensures
        skip_contents(*final(map)) == skip_contents(*old(map)).insert((key.0@, key.1), value@),
{
    map.insert(key, value);
}

/// Calls `SkipMap::lower_bound` with an included bound, which finds the
/// entry of the least key at or above the bound, and copies the entry out.
#[verifier::external_body]
fn skip_lower_bound(map: &SkipMap<(Vec<u8>, u64), Vec<u8>>, bound: &(Vec<u8>, u64)) -> (found:
    Option<((Vec<u8>, u64), Vec<u8>)>)
    ensures
        match found {
            Some((key, value)) => {
                &&& skip_contents(*map).dom().contains((key.0@, key.1))
                &&& skip_contents(*map)[(key.0@, key.1)] == value@
                &&& pair_le((bound.0@, bound.1), (key.0@, key.1))
                &&& forall|other: (Seq<u8>, u64)|
                    skip_contents(*map).dom().contains(other) && pair_le(
                        (bound.0@, bound.1),
                        other,
                    ) ==> pair_le((key.0@, key.1), other)
            },
            None => forall|other: (Seq<u8>, u64)|
                skip_contents(*map).dom().contains(other) ==> !pair_le((bound.0@, bound.1), other),
        },
{
    match map.lower_bound(Bound::Included(bound)) {
        Some(entry) => Some((entry.key().clone(), entry.value().clone())),
        None => None,
    }
}

/// The entries of a memtable: values under pairs of a user key and a tag,
/// which packs sequence number and value type.
pub open spec fn entries_of(stored: Map<(Seq<u8>, u64), Seq<u8>>) -> Map<(Seq<u8>, u64), Seq<u8>> {
    Map::new(
        |k: (Seq<u8>, u64)| stored.dom().contains((k.0, (u64::MAX - k.1) as u64)),
        |k: (Seq<u8>, u64)| stored[(k.0, (u64::MAX - k.1) as u64)],
    )
}

/// The mutable tier of the store.
pub struct MemTable {
    /// The entries under their user key and the complement of their tag,
    /// so that of one user key the newest entry comes first.
    table: SkipMap<(Vec<u8>, u64), Vec<u8>>,
}

impl MemTable {
    /// The entries: values under pairs of a user key and a tag.
    pub closed spec fn entries(&self) -> Map<(Seq<u8>, u64), Seq<u8>> {
        entries_of(skip_contents(self.table))
    }

    /// An empty memtable.
    pub fn new() -> (m: MemTable)
        ensures
            m.entries() == Map::<(Seq<u8>, u64), Seq<u8>>::empty(),
    {
        let m = MemTable { table: skip_new() };
        assert(m.entries() =~= Map::<(Seq<u8>, u64), Seq<u8>>::empty());
        m
    }

    /// Adds an entry: a value, or the mark that `key` was deleted.  A
    /// deletion stores no value bytes; a value entry without a value is
    /// not added.
    pub fn add(&mut self, seq: u64, value_type: ValueType, key: &Slice, value: Option<&Slice>)
        requires
            seq <= K_MAX_SEQUENCE_NUMBER,
        ensures
            final(self).entries() == match (value_type, value) {
                (ValueType::KTypeDeletion, _) => old(self).entries().insert(
                    (key@, pack_spec(seq, value_type)),
                    Seq::empty(),
                ),
                (ValueType::KTypeValue, Some(v)) => old(self).entries().insert(
                    (key@, pack_spec(seq, value_type)),
                    v@,
                ),
                (ValueType::KTypeValue, None) => old(self).entries(),
            },
    {
        let tag = pack_sequence_and_type(seq, value_type);
        let stored: Vec<u8> = match value_type {
            ValueType::KTypeDeletion => Vec::new(),
            ValueType::KTypeValue => match value {
                Some(v) => vstd::slice::slice_to_vec(v.data()),
                None => { return ; },
            },
        };
        let ghost before = skip_contents(self.table);
        skip_insert(&mut self.table, (vstd::slice::slice_to_vec(key.data()), u64::MAX - tag), stored);
        proof {
            let after = skip_contents(self.table);
            assert(entries_of(after) =~= entries_of(before).insert((key@, tag), stored@)) by {
                assert forall|k: (Seq<u8>, u64)|
                    entries_of(after).dom().contains(k) == entries_of(before).insert(
                        (key@, tag),
                        stored@,
                    ).dom().contains(k) by {
                    if k.0 == key@ && (u64::MAX - k.1) as u64 == (u64::MAX - tag) as u64 {
                        assert(k.1 == tag);
                    }
                }
            }
        }
    }

    /// Whether the entry of `user_key` with tag `t` is the newest that is
    /// not above `lookup_tag`.
    pub open spec fn is_visible(&self, user_key: Seq<u8>, lookup_tag: u64, t: u64) -> bool {
        &&& self.entries().dom().contains((user_key, t))
        &&& t <= lookup_tag
        &&& forall|other: u64|
            self.entries().dom().contains((user_key, other)) && other <= lookup_tag ==> other <= t
    }

    /// Looks up the internal key `key`, which holds a user key and, as its
    /// tag, the sequence number as of which to read with the value type
    /// for seeking.  `None` where the memtable holds no entry of the user
    /// key at or before that sequence number; else the value of the newest
    /// such entry, or `NotFound` where that entry is a deletion.
    pub fn get(&self, key: &Slice) -> (r: Option<Result<Slice, Status>>)
        requires
            key@.len() >= 8,
        ensures
            match r {
                None => forall|t: u64|
                    self.entries().dom().contains((user_key_of(key@), t)) ==> t > tag_of(key@),
                Some(outcome) => exists|t: u64|
                    {
                        &&& #[trigger] self.is_visible(user_key_of(key@), tag_of(key@), t)
                        &&& match outcome {
                            Ok(value) => t % 256 == 1 && value@ == self.entries()[(
                                user_key_of(key@),
                                t,
                            )],
                            Err(status) => t % 256 != 1 && status.spec_code()
                                == StatusCode::KnotFound,
                        }
                    },
            },
    {
        let user_key = extract_user_key(key.data());
        let tag = extract_tag(key.data());
        let bound = (vstd::slice::slice_to_vec(user_key), u64::MAX - tag);
        let found = skip_lower_bound(&self.table, &bound);
        let ghost stored = skip_contents(self.table);
        match found {
            Some((found_key, value)) => {
                if crate::util::bytewise_comparator_impl::bytes_three_way(
                    found_key.0.as_slice(),
                    user_key,
                ) != 0 {
                    proof {
                        lemma_bytes_irreflexive(user_key@);
                        assert forall|t: u64|
                            self.entries().dom().contains((user_key@, t)) implies t > tag by {
                            let other = (user_key@, (u64::MAX - t) as u64);
                            assert(stored.dom().contains(other));
                            if t <= tag {
                                assert(pair_le((bound.0@, bound.1), other));
                                assert(pair_le((found_key.0@, found_key.1), other));
                                lemma_bytes_asymmetric(user_key@, found_key.0@);
                            }
                        }
                    }
                    return None;
                }
                let t = u64::MAX - found_key.1;
                proof {
                    lemma_bytes_irreflexive(user_key@);
                    assert(self.entries().dom().contains((user_key@, t)));
                    assert forall|other: u64|
                        self.entries().dom().contains((user_key@, other)) && other
                            <= tag implies other <= t by {
                        let o = (user_key@, (u64::MAX - other) as u64);
                        assert(stored.dom().contains(o));
                        assert(pair_le((bound.0@, bound.1), o));
                        assert(pair_le((found_key.0@, found_key.1), o));
                    }
                    assert(self.is_visible(user_key@, tag, t));
                }
                if t % 256 == 1 {
                    Some(Ok(Slice::new_from_vec(value)))
                } else {
                    Some(Err(Status::not_found("not found", None)))
                }
            },
            None => {
                proof {
                    lemma_bytes_irreflexive(user_key@);
                    assert forall|t: u64|
                        self.entries().dom().contains((user_key@, t)) implies t > tag by {
                        let other = (user_key@, (u64::MAX - t) as u64);
                        assert(stored.dom().contains(other));
                        if t <= tag {
                            assert(pair_le((bound.0@, bound.1), other));
                        }
                    }
                }
                None
            },
        }
    }
}

} // verus!
