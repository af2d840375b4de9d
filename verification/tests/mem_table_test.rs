use lsm_core::db::internal_key_comparator::{
    append_internal_key, ParsedInternalKey, ValueType, K_MAX_SEQUENCE_NUMBER,
    K_VALUE_TYPE_FOR_SEEK,
};
use lsm_core::db::mem_table::MemTable;
use lsm_core::obj::slice::Slice;

fn lookup(user_key: &[u8], seq: u64) -> Slice {
    let mut k: Vec<u8> = Vec::new();
    append_internal_key(
        &mut k,
        &ParsedInternalKey {
            user_key: Slice::new_from_array(user_key),
            sequence: seq,
            value_type: K_VALUE_TYPE_FOR_SEEK,
        },
    );
    Slice::new_from_vec(k)
}

#[test]
fn test_memtable_mvcc() {
    let mut mem = MemTable::new();
    let x = Slice::new_from_str("x");
    mem.add(10, ValueType::KTypeValue, &x, Some(&Slice::new_from_str("A")));
    mem.add(20, ValueType::KTypeDeletion, &x, None);
    mem.add(30, ValueType::KTypeValue, &x, Some(&Slice::new_from_str("B")));
    assert_eq!(mem.get(&lookup(b"x", 15)).unwrap().unwrap().data(), b"A");
    assert!(mem.get(&lookup(b"x", 25)).unwrap().unwrap_err().is_not_found());
    assert_eq!(mem.get(&lookup(b"x", 35)).unwrap().unwrap().data(), b"B");
    // At their own sequence numbers the entries are seen.
    assert_eq!(mem.get(&lookup(b"x", 10)).unwrap().unwrap().data(), b"A");
    assert!(mem.get(&lookup(b"x", 20)).unwrap().is_err());
    assert_eq!(mem.get(&lookup(b"x", 30)).unwrap().unwrap().data(), b"B");
    assert_eq!(mem.get(&lookup(b"x", K_MAX_SEQUENCE_NUMBER)).unwrap().unwrap().data(), b"B");
    // Before the first entry, and for other keys, the memtable has nothing to say.
    assert!(mem.get(&lookup(b"x", 9)).is_none());
    assert!(mem.get(&lookup(b"w", 100)).is_none());
    assert!(mem.get(&lookup(b"y", 100)).is_none());
    assert!(mem.get(&lookup(b"", 100)).is_none());
    assert!(mem.get(&lookup(b"xx", 100)).is_none());
}

#[test]
fn test_memtable_keys_do_not_mix() {
    let mut mem = MemTable::new();
    assert!(mem.get(&lookup(b"a", 1)).is_none());
    mem.add(1, ValueType::KTypeValue, &Slice::new_from_str("a"), Some(&Slice::new_from_str("1")));
    mem.add(2, ValueType::KTypeValue, &Slice::new_from_str("ab"), Some(&Slice::new_from_str("2")));
    mem.add(3, ValueType::KTypeValue, &Slice::new_from_str("b"), Some(&Slice::new_from_str("")));
    mem.add(4, ValueType::KTypeValue, &Slice::new_from_str(""), Some(&Slice::new_from_str("4")));
    // A value entry without a value is not added.
    mem.add(9, ValueType::KTypeValue, &Slice::new_from_str("a"), None);
    assert_eq!(mem.get(&lookup(b"a", 100)).unwrap().unwrap().data(), b"1");
    assert_eq!(mem.get(&lookup(b"ab", 100)).unwrap().unwrap().data(), b"2");
    assert_eq!(mem.get(&lookup(b"b", 100)).unwrap().unwrap().data(), b"");
    assert_eq!(mem.get(&lookup(b"", 100)).unwrap().unwrap().data(), b"4");
    assert!(mem.get(&lookup(b"ab", 1)).is_none());
    // The same key and sequence number again: the later value stands.
    mem.add(1, ValueType::KTypeValue, &Slice::new_from_str("a"), Some(&Slice::new_from_str("one")));
    assert_eq!(mem.get(&lookup(b"a", 1)).unwrap().unwrap().data(), b"one");
    // A deletion and a value of one sequence number: the value is the newer.
    mem.add(7, ValueType::KTypeDeletion, &Slice::new_from_str("c"), None);
    mem.add(7, ValueType::KTypeValue, &Slice::new_from_str("c"), Some(&Slice::new_from_str("v")));
    assert_eq!(mem.get(&lookup(b"c", 7)).unwrap().unwrap().data(), b"v");
}
