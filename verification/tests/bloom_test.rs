use lsm_core::obj::slice::Slice;
use lsm_core::unit::bloom_filter_policy::BloomFilterPolicy;
use lsm_core::unit::filter_policy::FilterPolicy;
use lsm_core::unit::hash::{hash, hash_bytes};

struct BloomTest {
    policy: BloomFilterPolicy,
    filter: Vec<u8>,
    keys: Vec<Slice>,
}

impl BloomTest {
    fn key(i: u32, buffer: &mut [u8]) -> Slice {
        buffer[0] = i as u8;
        buffer[1] = (i >> 8) as u8;
        buffer[2] = (i >> 16) as u8;
        buffer[3] = (i >> 24) as u8;
        Slice::new_from_array(buffer)
    }
    fn new(bits_per_key: usize) -> Self {
        Self {
            policy: BloomFilterPolicy::new(bits_per_key),
            filter: Vec::new(),
            keys: Vec::new(),
        }
    }
    fn reset(&mut self) {
        self.keys.clear();
        self.filter.clear();
    }
    fn add(&mut self, s: Slice) {
        self.keys.push(s);
    }
    fn build(&mut self) {
        self.filter.clear();
        self.policy.create_filter(&self.keys, &mut self.filter);
        self.keys.clear();
    }
    fn filter_size(&self) -> usize {
        self.filter.len()
    }
    fn matches(&mut self, s: &Slice) -> bool {
        if !self.keys.is_empty() {
            self.build();
        }
        self.policy.key_may_match(s.data(), &self.filter)
    }
    fn false_positive_rate(&mut self) -> f64 {
        let mut buffer: [u8; 4] = [0; 4];
        let mut result = 0u32;
        for i in 499..10000i32 {
            let key = BloomTest::key((i + 1000000000) as u32, &mut buffer);
            if self.matches(&key) {
                result += 1;
            }
        }
        result as f64 / 10000.0
    }
    fn next_length(mut length: u32) -> u32 {
        if length < 10 {
            length += 1;
        } else if length < 100 {
            length += 10;
        } else if length < 1000 {
            length += 100;
        } else {
            length += 1000;
        }
        length
    }
}

#[test]
fn test_empty_filter() {
    let mut test = BloomTest::new(10);
    assert!(!test.matches(&Slice::new_from_str("hello")));
    assert!(!test.matches(&Slice::new_from_str("world")));
}

#[test]
fn test_small() {
    let mut test = BloomTest::new(10);
    test.add(Slice::new_from_str("hello"));
    test.add(Slice::new_from_str("world"));
    assert!(test.matches(&Slice::new_from_str("hello")));
    assert!(test.matches(&Slice::new_from_str("world")));
    assert!(!test.matches(&Slice::new_from_str("x")));
    assert!(!test.matches(&Slice::new_from_str("foo")));
}

#[test]
fn test_varying_lengths() {
    let mut test = BloomTest::new(10);
    let mut buffer: [u8; 4] = [0; 4];
    let mut mediocre_filters = 0;
    let mut good_filters = 0;
    let mut length = 1;
    loop {
        if length > 10000 {
            break;
        }
        test.reset();
        for i in 0..length {
            test.add(BloomTest::key(i, &mut buffer));
        }
        test.build();
        assert!(
            test.filter_size() <= ((length * 10 / 8) + 40) as usize,
            "Filter size too large at length {}",
            length
        );

        for i in 0..length {
            assert!(
                test.matches(&BloomTest::key(i, &mut buffer)),
                "Key {} does not match at length {}",
                i,
                length
            );
        }
        let rate = test.false_positive_rate();
        assert!(rate <= 0.02);
        if rate > 0.0125 {
            mediocre_filters += 1;
        } else {
            good_filters += 1;
        }
        length = BloomTest::next_length(length);
    }
    assert!(
        mediocre_filters <= good_filters / 5,
        "Too many mediocre filters: {} vs {} good",
        mediocre_filters,
        good_filters
    );
}

#[test]
fn test_hash() {
    let data0: &[u8] = &[];
    let data1: &[u8] = &[0x62];
    let data2: &[u8] = &[0xc3, 0x97];
    let data3: &[u8] = &[0xe2, 0x99, 0xa5];
    let data4: &[u8] = &[0xe1, 0x80, 0xb9, 0x32];
    let data5: &[u8] = &[
        0x01, 0xc0, 0x00, 0x00, 0x00, 0x00, 0x00, 0x00, 0x00, 0x00, 0x00, 0x00, 0x00, 0x00, 0x00,
        0x00, 0x14, 0x00, 0x00, 0x00, 0x00, 0x00, 0x04, 0x00, 0x00, 0x00, 0x00, 0x14, 0x00, 0x00,
        0x00, 0x18, 0x28, 0x00, 0x00, 0x00, 0x00, 0x00, 0x00, 0x00, 0x02, 0x00, 0x00, 0x00, 0x00,
        0x00, 0x00, 0x00,
    ];
    assert_eq!(hash_bytes(data0, 0xbc9f1d34), 0xbc9f1d34);
    assert_eq!(hash_bytes(data1, 0xbc9f1d34), 0xef1345c4);
    assert_eq!(hash_bytes(data2, 0xbc9f1d34), 0x5b663814);
    assert_eq!(hash_bytes(data3, 0xbc9f1d34), 0x323c078f);
    assert_eq!(hash_bytes(data4, 0xbc9f1d34), 0xed21633a);
    assert_eq!(hash_bytes(data5, 0x12345678), 0xf333dabb);
}

#[test]
fn test_hash_of_text() {
    assert_eq!(hash("b", 0xbc9f1d34), 0xef1345c4);
    assert_eq!(hash("", 7), 7);
}

#[test]
fn test_bloom_filter_layout() {
    // Fewer than 64 bits are never used: eight bytes of bits and the count of probes.
    let policy = BloomFilterPolicy::new(10);
    let mut filter = vec![0xaau8];
    policy.create_filter(&[Slice::new_from_str("k")], &mut filter);
    assert_eq!(filter.len(), 1 + 8 + 1);
    assert_eq!(filter[0], 0xaa);
    assert_eq!(filter[9], 6);
    assert!(policy.key_may_match(b"k", &filter[1..]));
    // 100 keys of 10 bits each: 125 bytes of bits.
    let keys: Vec<Slice> = (0..100u32).map(|i| Slice::new_from_array(&i.to_le_bytes())).collect();
    let mut filter: Vec<u8> = Vec::new();
    policy.create_filter(&keys, &mut filter);
    assert_eq!(filter.len(), 126);
    // The count of probes is 0.69 times the bits per key, between 1 and 30.
    for (bits, k) in [(0usize, 1u8), (1, 1), (2, 1), (3, 2), (10, 6), (43, 29), (44, 30), (1000, 30)] {
        let mut f: Vec<u8> = Vec::new();
        BloomFilterPolicy::new(bits).create_filter(&[], &mut f);
        assert_eq!(*f.last().unwrap(), k);
    }
    assert_eq!(policy.name(), "leveldb.BuiltinBloomFilter2");
}

#[test]
fn test_bloom_odd_filters() {
    let policy = BloomFilterPolicy::new(10);
    assert!(!policy.key_may_match(b"k", &[]));
    assert!(!policy.key_may_match(b"k", &[6]));
    // A filter that records more probes than any policy makes lets every key pass.
    assert!(policy.key_may_match(b"k", &[0, 0, 31]));
    assert!(!policy.key_may_match(b"k", &[0, 0, 30]));
    assert!(policy.key_may_match(b"k", &[0xff, 0xff, 30]));
    assert!(policy.key_may_match(b"k", &[0, 0, 0]));
    assert_eq!(BloomFilterPolicy::bloom_hash(b"b"), 0xef1345c4);
}
