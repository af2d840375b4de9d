use lsm_core::db::snap_shot::{Snapshot, SnapshotImpl, SnapshotList};
use lsm_core::db::table_cache::table_cache_size;
use lsm_core::obj::options::{CompressionType, Options, ReadOptions};
use lsm_core::util::random::Random;
use lsm_core::util::test_util::{random_key, random_string};
use lsm_core::util::random_access_file::{Limiter, RandomAccessFile, StringSource};
use lsm_core::util::sequential_file::{SequentialFile, StringReader};
use lsm_core::obj::slice::Slice;
use lsm_core::util::writable_file::{StringSink, WritableFile};

#[test]
fn test_random_sequence() {
    let mut r = Random::new(1);
    assert_eq!(r.next(), 16807);
    assert_eq!(r.next(), 282475249);
    assert_eq!(r.next(), 1622650073);
    let mut r = Random::new(0);
    assert_eq!(r.next(), 16807);
    let mut r = Random::new(2147483647);
    assert_eq!(r.next(), 16807);
    let mut r = Random::new(0x8000_0002);
    assert_eq!(r.next(), 2 * 16807);
    let mut r = Random::new(301);
    for _ in 0..1000 {
        assert!(r.uniform(10) < 10);
        assert!(r.skewed(5) < 32);
        let _ = r.one_in(3);
    }
    let mut a = Random::new(5);
    let mut b = Random::new(5);
    assert_eq!(a.uniform(7), b.next() % 7);
    assert_eq!(a.one_in(7), b.next() % 7 == 0);
}

#[test]
fn test_limiter() {
    let mut limiter = Limiter::new(2);
    assert!(!limiter.can_release());
    assert!(limiter.acquire());
    assert!(limiter.can_release());
    assert!(limiter.acquire());
    assert!(!limiter.acquire());
    limiter.release();
    assert!(limiter.acquire());
    assert!(!limiter.acquire());
    let mut none = Limiter::new(0);
    assert!(!none.acquire());
}

#[test]
fn test_snapshot_list() {
    let mut list = SnapshotList::new();
    assert!(list.empty());
    assert!(!list.delete(&SnapshotImpl::new(5)));
    let a = list.new_node(5);
    let b = list.new_node(5);
    let c = list.new_node(9);
    assert!(!list.empty());
    assert_eq!(list.oldest().sequence_number(), 5);
    assert_eq!(list.newest().sequence_number(), 9);
    assert_eq!(list.oldest(), a);
    assert!(list.delete(&a));
    assert!(!list.delete(&a));
    assert_eq!(list.oldest(), b);
    assert!(list.delete(&c));
    assert_eq!(list.newest(), b);
    assert!(list.delete(&b));
    assert!(list.empty());
    assert_eq!(SnapshotImpl::new(3).sequence_number(), 3);
}

#[test]
fn test_options() {
    let o = ReadOptions::new();
    assert!(!o.verify_checksums);
    assert!(o.fill_cache);
    assert_eq!(o.snapshot, None);
    let o = Options::new();
    assert_eq!(o.block_restart_interval, 16);
    assert!(!o.paranoid_checks);
    assert_eq!(o.max_open_files, 1000);
    assert_eq!(table_cache_size(o.max_open_files), 990);
    assert_eq!(table_cache_size(5), 1);
    assert_eq!(CompressionType::from_u8(0), Some(CompressionType::KnoCompression));
    assert_eq!(CompressionType::from_u8(1), Some(CompressionType::KSnappyCompression));
    assert_eq!(CompressionType::from_u8(2), Some(CompressionType::KZstdCompression));
    assert_eq!(CompressionType::from_u8(3), None);
    assert_eq!(CompressionType::KZstdCompression.to_u8(), 2);
}

#[test]
fn test_memory_files() {
    let file = StringSource::new_contents(b"0123456789".to_vec());
    assert_eq!(file.read(2, 3).unwrap().data(), b"234");
    assert_eq!(file.read(8, 5).unwrap().data(), b"89");
    assert_eq!(file.read(0, 0).unwrap().data(), b"");
    assert!(file.read(10, 1).unwrap_err().is_invalid_argument());
    let mut seq = StringReader::new_contents(b"abcdef".to_vec());
    assert_eq!(seq.read(2).unwrap().data(), b"ab");
    assert!(seq.skip(1).is_ok());
    assert_eq!(seq.read(10).unwrap().data(), b"def");
    assert_eq!(seq.read(10).unwrap().data(), b"");
    assert!(seq.skip(10).is_ok());
    let mut sink = StringSink::new();
    assert!(sink.append(&Slice::new_from_str("ab")).is_ok());
    assert!(sink.flush().is_ok());
    assert!(sink.append(&Slice::new_from_str("c")).is_ok());
    assert!(sink.sync().is_ok());
    assert_eq!(sink.contents(), b"abc");
}

#[test]
fn test_random_strings() {
    let mut rnd = Random::new(301);
    let mut dst: Vec<u8> = b"x".to_vec();
    let s = random_string(&mut rnd, 8, &mut dst);
    let mut again = Random::new(301);
    let mut expected: Vec<u8> = b"x".to_vec();
    for _ in 0..8 {
        expected.push(again.uniform(95) as u8 + b' ');
    }
    assert_eq!(dst, expected);
    assert_eq!(s.data(), &expected[..]);
    assert!(dst[1..].iter().all(|b| (b' '..=b'~').contains(b)));
    assert_eq!(rnd.next(), again.next());

    let chars: [u8; 10] = [0, 1, b'a', b'b', b'c', b'd', b'e', 0xfd, 0xfe, 0xff];
    let mut rnd = Random::new(7);
    let key = random_key(&mut rnd, 16);
    let mut again = Random::new(7);
    let expected: Vec<u8> = (0..16).map(|_| chars[again.uniform(10) as usize]).collect();
    assert_eq!(key, expected);
    assert!(random_key(&mut rnd, 0).is_empty());
}
