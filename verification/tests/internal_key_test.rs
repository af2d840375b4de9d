use lsm_core::db::internal_key::InternalKey;
use lsm_core::db::internal_key_comparator::{
    append_internal_key, extract_tag, extract_user_key, pack_sequence_and_type,
    parse_internal_key, InternalKeyComparator, ParsedInternalKey, ValueType,
    K_MAX_SEQUENCE_NUMBER, K_VALUE_TYPE_FOR_SEEK,
};
use lsm_core::db::internal_filter_policy::InternalFilterPolicy;
use lsm_core::obj::slice::Slice;
use lsm_core::unit::bloom_filter_policy::BloomFilterPolicy;
use lsm_core::unit::filter_policy::FilterPolicy;
use lsm_core::util::bytewise_comparator_impl::{byte_wise_comparator, BytewiseComparatorImpl};
use lsm_core::util::comparator::{key_equal, key_less, Comparator};
use std::cmp::Ordering;

fn i_key(user_key: &[u8], seq: u64, vt: ValueType) -> Vec<u8> {
    let mut encode: Vec<u8> = Vec::new();
    append_internal_key(
        &mut encode,
        &ParsedInternalKey {
            user_key: Slice::new_from_array(user_key),
            sequence: seq,
            value_type: vt,
        },
    );
    encode
}

fn shorten(s: &[u8], l: &[u8]) -> Vec<u8> {
    let mut result = s.to_vec();
    let internal_key_comparator = InternalKeyComparator {
        user_comparator_: BytewiseComparatorImpl {},
    };
    internal_key_comparator.find_shortest_separator(&mut result, l);
    result
}

fn shortsuccessor(s: &[u8]) -> Vec<u8> {
    let mut result = s.to_vec();
    let internal_key_comparator = InternalKeyComparator {
        user_comparator_: BytewiseComparatorImpl {},
    };
    internal_key_comparator.find_short_successor(&mut result);
    result
}

fn check_key(key: &[u8], seq: u64, vt: ValueType) {
    let encode = i_key(key, seq, vt);
    let in_slice = Slice::new_from_array(&encode);
    let mut decode = ParsedInternalKey {
        user_key: Slice::new_from_str(""),
        sequence: 0,
        value_type: ValueType::KTypeValue,
    };
    assert!(parse_internal_key(&in_slice, &mut decode));
    assert_eq!(key, decode.user_key.data());
    assert_eq!(seq, decode.sequence);
    assert_eq!(vt, decode.value_type);
    assert!(!parse_internal_key(&Slice::new_from_str("bar"), &mut decode))
}

#[test]
fn test_internal_key_encode_decode() {
    let keys: [&'static str; 4] = ["", "k", "hello", "longggggggggggggggggggggg"];
    let seq: [u64; 12] = [
        1,
        2,
        3,
        (1u64 << 8) - 1,
        1u64 << 8,
        (1u64 << 8) + 1,
        (1u64 << 16) - 1,
        1u64 << 16,
        (1u64 << 16) + 1,
        (1u64 << 32) - 1,
        1u64 << 32,
        (1u64 << 32) + 1,
    ];
    for key in keys.iter() {
        for s in seq.iter() {
            check_key(key.as_bytes(), *s, ValueType::KTypeValue);
            check_key(b"hello", 1, ValueType::KTypeDeletion);
        }
    }
}

#[test]
fn test_internal_key_short_separator() {
    let v = ValueType::KTypeValue;
    assert_eq!(i_key(b"foo", 100, v), shorten(&i_key(b"foo", 100, v), &i_key(b"foo", 99, v)));
    assert_eq!(i_key(b"foo", 100, v), shorten(&i_key(b"foo", 100, v), &i_key(b"foo", 101, v)));
    assert_eq!(i_key(b"foo", 100, v), shorten(&i_key(b"foo", 100, v), &i_key(b"foo", 100, v)));
    assert_eq!(i_key(b"foo", 100, v), shorten(&i_key(b"foo", 100, v), &i_key(b"bar", 99, v)));
    assert_eq!(
        i_key(b"g", K_MAX_SEQUENCE_NUMBER, K_VALUE_TYPE_FOR_SEEK),
        shorten(&i_key(b"foo", 100, v), &i_key(b"hello", 200, v))
    );
    assert_eq!(i_key(b"foo", 100, v), shorten(&i_key(b"foo", 100, v), &i_key(b"foobar", 200, v)));
    assert_eq!(
        i_key(b"foobar", 100, v),
        shorten(&i_key(b"foobar", 100, v), &i_key(b"foo", 200, v))
    )
}

#[test]
fn test_internal_key_shortest_successor() {
    assert_eq!(
        i_key(b"g", K_MAX_SEQUENCE_NUMBER, K_VALUE_TYPE_FOR_SEEK),
        shortsuccessor(&i_key(b"foo", 100, ValueType::KTypeValue))
    );
    let data = b"\xff\xff";
    assert_eq!(
        i_key(&data[..], 100, ValueType::KTypeValue),
        shortsuccessor(&i_key(&data[..], 100, ValueType::KTypeValue))
    );
}

#[test]
fn test_internal_key_decode_from_empty() {
    let mut internal_key = InternalKey { rep_: Vec::new() };
    assert!(!internal_key.decode_from(&Slice::new_from_str("")))
}

#[test]
fn test_internal_key_exact_bytes() {
    assert_eq!(pack_sequence_and_type(0x0102, ValueType::KTypeValue), 0x010201);
    assert_eq!(pack_sequence_and_type(K_MAX_SEQUENCE_NUMBER, ValueType::KTypeDeletion), u64::MAX - 255);
    let k = i_key(b"ab", 0x0102, ValueType::KTypeValue);
    assert_eq!(k, vec![b'a', b'b', 1, 2, 1, 0, 0, 0, 0, 0]);
    assert_eq!(extract_user_key(&k), b"ab");
    assert_eq!(extract_tag(&k), 0x010201);
    assert_eq!(ValueType::try_from(0), Ok(ValueType::KTypeDeletion));
    assert_eq!(ValueType::try_from(1), Ok(ValueType::KTypeValue));
    assert!(ValueType::try_from(2).is_err());
    assert_eq!(ValueType::KTypeValue.to_u8(), 1);
}

#[test]
fn test_internal_key_parse_rejects_bad_type() {
    let mut k = i_key(b"abc", 5, ValueType::KTypeValue);
    k[3] = 2;
    let mut decode = ParsedInternalKey {
        user_key: Slice::new_from_str("old"),
        sequence: 9,
        value_type: ValueType::KTypeDeletion,
    };
    assert!(!parse_internal_key(&Slice::new_from_array(&k), &mut decode));
    assert_eq!(decode.user_key.data(), b"old");
    assert_eq!(decode.sequence, 9);
    assert!(!parse_internal_key(&Slice::new_from_array(&k[..7]), &mut decode));
    // The largest sequence number survives.
    check_key(b"z", K_MAX_SEQUENCE_NUMBER, ValueType::KTypeDeletion);
}

#[test]
fn test_internal_key_ordering() {
    let order = InternalKeyComparator::new(byte_wise_comparator());
    let v = ValueType::KTypeValue;
    let d = ValueType::KTypeDeletion;
    // Newer entries of one user key come first.
    assert_eq!(order.compare(&i_key(b"u", 9, d), &i_key(b"u", 8, v)), Ordering::Less);
    assert_eq!(order.compare(&i_key(b"u", 8, v), &i_key(b"u", 9, d)), Ordering::Greater);
    assert_eq!(order.compare(&i_key(b"u", 8, v), &i_key(b"u", 8, v)), Ordering::Equal);
    assert_eq!(order.compare(&i_key(b"u", 8, v), &i_key(b"u", 8, d)), Ordering::Less);
    // User keys decide first.
    assert_eq!(order.compare(&i_key(b"a", 1, v), &i_key(b"b", 100, v)), Ordering::Less);
    assert_eq!(order.compare(&i_key(b"b", 100, v), &i_key(b"a", 1, v)), Ordering::Greater);
    assert_eq!(order.compare(&i_key(b"a", 1, v), &i_key(b"ab", 100, v)), Ordering::Less);
    assert!(key_less(&order, &i_key(b"a", 1, v), &i_key(b"b", 1, v)));
    assert!(key_equal(&order, &i_key(b"a", 1, v), &i_key(b"a", 1, v)));
    assert!(order.is_valid_key(&i_key(b"", 1, v)));
    assert!(!order.is_valid_key(b"short"));
    assert_eq!(order.name(), "leveldb.InternalKeyComparator");
    assert_eq!(order.user_comparator().name(), "leveldb.BytewiseComparator");
}

#[test]
fn test_separator_lies_between() {
    let order = InternalKeyComparator::new(byte_wise_comparator());
    let v = ValueType::KTypeValue;
    let pairs: [(&[u8], &[u8]); 5] = [
        (b"foo", b"hello"),
        (b"a", b"b"),
        (b"abc", b"abd"),
        (b"", b"\xff"),
        (b"ab\xff\xff", b"ad"),
    ];
    for (a, b) in pairs.iter() {
        let start = i_key(a, 7, v);
        let limit = i_key(b, 3, v);
        let sep = shorten(&start, &limit);
        assert_ne!(order.compare(&start, &sep), Ordering::Greater);
        assert_eq!(order.compare(&sep, &limit), Ordering::Less);
        let succ = shortsuccessor(&start);
        assert_ne!(order.compare(&succ, &start), Ordering::Less);
    }
}

#[test]
fn test_bytewise_comparator() {
    let c = BytewiseComparatorImpl {};
    assert_eq!(c.compare(b"abc", b"abd"), Ordering::Less);
    assert_eq!(c.compare(b"abc", b"ab"), Ordering::Greater);
    assert_eq!(c.compare(b"", b""), Ordering::Equal);
    assert_eq!(c.compare(b"\xff", b"a"), Ordering::Greater);
    let mut s = b"abcdefg".to_vec();
    c.find_shortest_separator(&mut s, b"abzzzz");
    assert_eq!(s, b"abd");
    let mut s = b"abc".to_vec();
    c.find_shortest_separator(&mut s, b"abd");
    assert_eq!(s, b"abc");
    let mut s = b"abc".to_vec();
    c.find_shortest_separator(&mut s, b"abcdef");
    assert_eq!(s, b"abc");
    let mut s = b"ab\xffz".to_vec();
    c.find_shortest_separator(&mut s, b"ac");
    assert_eq!(s, b"ab\xffz");
    let mut k = b"\xff\xffabc".to_vec();
    c.find_short_successor(&mut k);
    assert_eq!(k, b"\xff\xffb");
    let mut k = b"\xff".to_vec();
    c.find_short_successor(&mut k);
    assert_eq!(k, b"\xff");
    let mut k: Vec<u8> = Vec::new();
    c.find_short_successor(&mut k);
    assert!(k.is_empty());
}

#[test]
fn test_internal_key_type() {
    let a = InternalKey::new(Slice::new_from_str("k"), 5, ValueType::KTypeValue);
    let b = InternalKey::new(Slice::new_from_str("k"), 6, ValueType::KTypeValue);
    assert!(b.less_than(&a));
    assert!(!a.less_than(&b));
    assert!(a.equals(&a));
    assert!(!a.equals(&b));
    assert_eq!(a.user_key().data(), b"k");
    assert_eq!(a.encode().data(), &i_key(b"k", 5, ValueType::KTypeValue)[..]);
    let mut c = InternalKey { rep_: Vec::new() };
    assert!(c.decode_from(&a.encode()));
    assert!(c.equals(&a));
    c.set_from(&ParsedInternalKey {
        user_key: Slice::new_from_str("z"),
        sequence: 1,
        value_type: ValueType::KTypeDeletion,
    });
    assert_eq!(c.rep_, i_key(b"z", 1, ValueType::KTypeDeletion));
    c.clear();
    assert!(c.rep_.is_empty());
}

#[test]
fn test_internal_filter_policy() {
    let policy = InternalFilterPolicy {
        user_policy_: BloomFilterPolicy::new(10),
    };
    assert_eq!(policy.name(), "leveldb.BuiltinBloomFilter2");
    let keys = vec![
        Slice::new_from_vec(i_key(b"apple", 1, ValueType::KTypeValue)),
        Slice::new_from_vec(i_key(b"pear", 2, ValueType::KTypeValue)),
    ];
    let mut filter: Vec<u8> = Vec::new();
    policy.create_filter(&keys, &mut filter);
    let mut user_filter: Vec<u8> = Vec::new();
    BloomFilterPolicy::new(10).create_filter(
        &[Slice::new_from_str("apple"), Slice::new_from_str("pear")],
        &mut user_filter,
    );
    assert_eq!(filter, user_filter);
    // Any sequence number of a key that went in matches.
    assert!(policy.key_may_match(&i_key(b"apple", 99, ValueType::KTypeDeletion), &filter));
    assert!(policy.key_may_match(&i_key(b"pear", 0, ValueType::KTypeValue), &filter));
    assert!(!policy.key_may_match(&i_key(b"plum", 1, ValueType::KTypeValue), &filter));
}
