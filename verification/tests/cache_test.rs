use lsm_core::util::cache::{LRUCache, ShardedLRUCache};

const K_CACHE_SIZE: usize = 1000;

struct CacheTest {
    cache: ShardedLRUCache<i32>,
}

impl CacheTest {
    fn new() -> Self {
        CacheTest {
            cache: ShardedLRUCache::new(K_CACHE_SIZE),
        }
    }
    fn encode_key(i: i32) -> Vec<u8> {
        let mut buffer: [u8; 4] = [0; 4];
        buffer[0] = i as u8;
        buffer[1] = (i >> 8) as u8;
        buffer[2] = (i >> 16) as u8;
        buffer[3] = (i >> 24) as u8;
        buffer.to_vec()
    }
    fn lookup(&mut self, key: i32) -> i32 {
        let en_key = Self::encode_key(key);
        match self.cache.get(&en_key) {
            Some(handle) => {
                let value = *self.cache.value(&handle);
                self.cache.release(handle);
                value
            }
            None => -1,
        }
    }
    fn insert(&mut self, key: i32, value: i32) {
        let handle = self.cache.insert(&CacheTest::encode_key(key), value).unwrap();
        self.cache.release(handle);
    }
    fn erase(&mut self, key: i32) {
        self.cache.erase(&CacheTest::encode_key(key))
    }
}

fn put(cache: &mut LRUCache<String>, key: &str, value: &str) {
    let handle = cache.put(key.as_bytes(), value.to_string()).unwrap();
    cache.release(handle);
}

fn get(cache: &mut LRUCache<String>, key: &str) -> Option<String> {
    match cache.get(key.as_bytes()) {
        Some(handle) => {
            let value = cache.value(&handle).clone();
            cache.release(handle);
            Some(value)
        }
        None => None,
    }
}

fn lru_scenario() {
    let mut cache: LRUCache<String> = LRUCache::new(2);
    put(&mut cache, "key1", "value1");
    put(&mut cache, "key2", "value2");
    assert_eq!(get(&mut cache, "key1").unwrap(), "value1");
    assert_eq!(get(&mut cache, "key2").unwrap(), "value2");
    assert_eq!(get(&mut cache, "key1").unwrap(), "value1");
    assert_eq!(get(&mut cache, "key2").unwrap(), "value2");
    put(&mut cache, "key3", "value3");
    assert_eq!(get(&mut cache, "key1"), None);
    assert_eq!(get(&mut cache, "key2").unwrap(), "value2");
    assert_eq!(get(&mut cache, "key3").unwrap(), "value3");
    put(&mut cache, "key2", "value2_updated");
    assert_eq!(get(&mut cache, "key2").unwrap(), "value2_updated");
    assert_eq!(get(&mut cache, "key3").unwrap(), "value3");
    put(&mut cache, "key4", "value4");
    assert_eq!(get(&mut cache, "key2"), None);
    assert_eq!(get(&mut cache, "key3").unwrap(), "value3");
    assert_eq!(get(&mut cache, "key4").unwrap(), "value4");
}

#[test]
fn cache_test_lru_cache() {
    lru_scenario();
}

#[test]
fn test_cache_test_lru_cache() {
    lru_scenario();
}

#[test]
fn test_hit_and_miss() {
    let mut test = CacheTest::new();
    assert_eq!(-1, test.lookup(100));
    test.insert(100, 101);
    assert_eq!(101, test.lookup(100));
    assert_eq!(-1, test.lookup(200));
    assert_eq!(-1, test.lookup(300));
    test.insert(200, 201);
    assert_eq!(101, test.lookup(100));
    assert_eq!(201, test.lookup(200));
    assert_eq!(-1, test.lookup(300));
    test.insert(100, 102);
    assert_eq!(102, test.lookup(100));
    assert_eq!(201, test.lookup(200));
    assert_eq!(-1, test.lookup(300));
}

#[test]
fn test_erase() {
    let mut test = CacheTest::new();
    test.erase(200);
    test.insert(100, 101);
    test.insert(200, 201);
    test.erase(100);
    assert_eq!(-1, test.lookup(100));
    assert_eq!(201, test.lookup(200));
    test.erase(100);
    assert_eq!(-1, test.lookup(100));
    assert_eq!(201, test.lookup(200));
}

#[test]
fn test_eviction_policy() {
    let mut test = CacheTest::new();
    test.insert(100, 101);
    test.insert(200, 201);
    test.insert(300, 301);
    for i in 0..K_CACHE_SIZE + 100 {
        test.insert((1000 + i) as i32, (i + 2000) as i32);
        assert_eq!((i + 2000) as i32, test.lookup((1000 + i) as i32));
        assert_eq!(101, test.lookup(100));
    }
    assert_eq!(101, test.lookup(100));
    assert_eq!(-1, test.lookup(200));
    assert_eq!(-1, test.lookup(300));
}

#[test]
fn test_lru_pinning() {
    // A shard of capacity 2: a, b; a handle holds a; c comes in and pushes b out.
    let mut cache: LRUCache<i32> = LRUCache::new(2);
    let a = cache.put(b"a", 1).unwrap();
    cache.release(a);
    let b = cache.put(b"b", 2).unwrap();
    cache.release(b);
    let held = cache.get(b"a").unwrap();
    let c = cache.put(b"c", 3).unwrap();
    cache.release(c);
    let again = cache.get(b"a").unwrap();
    assert_eq!(*cache.value(&again), 1);
    cache.release(again);
    assert!(cache.get(b"b").is_none());
    let c = cache.get(b"c").unwrap();
    assert_eq!(*cache.value(&c), 3);
    cache.release(c);
    cache.release(held);
}

#[test]
fn test_eviction_count() {
    // After n inserts of keys that differ into a shard of capacity c, with no handle
    // left, exactly the last c keys are there.
    let c = 5usize;
    let n = 23usize;
    let mut cache: LRUCache<usize> = LRUCache::new(c);
    for i in 0..n {
        let h = cache.put(format!("key{}", i).as_bytes(), i).unwrap();
        cache.release(h);
    }
    let mut absent = 0;
    for i in 0..n {
        match cache.get(format!("key{}", i).as_bytes()) {
            Some(h) => {
                assert!(i >= n - c);
                assert_eq!(*cache.value(&h), i);
                cache.release(h);
            }
            None => {
                assert!(i < n - c);
                absent += 1;
            }
        }
    }
    assert_eq!(absent, n - c);
}

#[test]
fn test_held_entries_outlast_capacity() {
    let mut cache: LRUCache<usize> = LRUCache::new(2);
    let mut handles = Vec::new();
    for i in 0..10usize {
        handles.push(cache.put(&[i as u8], i).unwrap());
    }
    // All ten are held, so none was evicted.
    for i in 0..10usize {
        let h = cache.get(&[i as u8]).unwrap();
        assert_eq!(*cache.value(&h), i);
        cache.release(h);
    }
    while let Some(h) = handles.pop() {
        cache.release(h);
    }
    // Nothing is evicted before the next insert of a new key.
    let h = cache.put(&[99], 99).unwrap();
    cache.release(h);
    let present: usize = (0..10usize).filter(|i| {
        match cache.get(&[*i as u8]) {
            Some(h) => {
                cache.release(h);
                true
            }
            None => false,
        }
    }).count();
    assert_eq!(present, 1);
}

#[test]
fn test_erase_while_held() {
    let mut cache: LRUCache<String> = LRUCache::new(4);
    let held = cache.put(b"k", "v".to_string()).unwrap();
    cache.erase(b"k");
    assert!(cache.get(b"k").is_none());
    // The handle still reads the value.
    assert_eq!(cache.value(&held), "v");
    // The key can be bound again while the old entry lives.
    let fresh = cache.put(b"k", "w".to_string()).unwrap();
    assert_eq!(cache.value(&held), "v");
    assert_eq!(cache.value(&fresh), "w");
    cache.release(held);
    assert_eq!(cache.value(&fresh), "w");
    cache.release(fresh);
    assert_eq!(get(&mut cache, "k").unwrap(), "w");
}

#[test]
fn test_overwrite_while_held() {
    let mut cache: LRUCache<i32> = LRUCache::new(4);
    let first = cache.put(b"k", 1).unwrap();
    let second = cache.put(b"k", 2).unwrap();
    // Both handles hold the one entry, which has the new value.
    assert_eq!(*cache.value(&first), 2);
    assert_eq!(*cache.value(&second), 2);
    cache.release(first);
    cache.release(second);
}

#[test]
fn test_new_id() {
    let mut cache: ShardedLRUCache<i32> = ShardedLRUCache::new(16);
    let a = cache.new_id();
    let b = cache.new_id();
    assert_eq!(a, 1);
    assert_eq!(b, 2);
    assert_eq!(ShardedLRUCache::<i32>::shard(0xf000_0000), 15);
    assert_eq!(ShardedLRUCache::<i32>::shard(0x0fff_ffff), 0);
}

#[test]
fn test_handle_is_held() {
    let mut cache: ShardedLRUCache<i32> = ShardedLRUCache::new(16);
    let held = cache.insert(b"a", 1).unwrap();
    assert!(cache.holds(&held));
    assert_eq!(*cache.value(&held), 1);
    cache.release(held);
    let mut shard: LRUCache<i32> = LRUCache::new(2);
    let held = shard.put(b"a", 1).unwrap();
    assert!(shard.holds(&held));
    shard.release(held);
}

#[test]
fn test_capacity_one_with_two_held() {
    let mut cache: LRUCache<i32> = LRUCache::new(1);
    let ha = cache.put(b"a", 1).unwrap();
    let hb = cache.put(b"b", 2).unwrap();
    // Both are held, so neither is evicted, though the shard is over its capacity.
    assert_eq!(*cache.value(&ha), 1);
    assert_eq!(*cache.value(&hb), 2);
    cache.release(ha);
    cache.release(hb);
    let hc = cache.put(b"c", 3).unwrap();
    assert!(cache.get(b"a").is_none());
    assert!(cache.get(b"b").is_none());
    let again = cache.get(b"c").unwrap();
    assert_eq!(*cache.value(&again), 3);
    cache.release(again);
    cache.release(hc);
}
