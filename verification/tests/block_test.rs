use lsm_core::obj::slice::Slice;
use lsm_core::table::block::{decode_entry, Block, BlockIterator};
use lsm_core::table::block_builder::BlockBuilder;
use lsm_core::table::format::BlockContents;
use lsm_core::table::iterator::{new_empty_iterator, new_error_iterator, Iter};
use lsm_core::table::iterator_wrapper::IteratorWrapper;
use lsm_core::obj::status_rs::Status;
use lsm_core::util::bytewise_comparator_impl::BytewiseComparatorImpl;

fn entries(n: usize) -> Vec<(Vec<u8>, Vec<u8>)> {
    let mut out: Vec<(Vec<u8>, Vec<u8>)> = (0..n)
        .map(|i| {
            (
                format!("key{:05}", i * 3).into_bytes(),
                format!("value-{}", i).repeat(i % 4).into_bytes(),
            )
        })
        .collect();
    out.sort();
    out
}

fn build(entries: &[(Vec<u8>, Vec<u8>)], interval: u32) -> Vec<u8> {
    let mut builder = BlockBuilder::new(interval, BytewiseComparatorImpl {});
    assert!(builder.empty());
    for (k, v) in entries {
        builder.add(&Slice::new_from_array(k), &Slice::new_from_array(v));
    }
    let estimate = builder.current_size_estimate();
    let block = builder.finish().data().to_vec();
    assert_eq!(block.len(), estimate);
    block
}

fn open(block: Vec<u8>) -> BlockIterator<BytewiseComparatorImpl> {
    let block = Block::new(BlockContents {
        data: Slice::new_from_vec(block),
        cachable: true,
    });
    block.new_iterator(BytewiseComparatorImpl {})
}

fn scan(it: &mut BlockIterator<BytewiseComparatorImpl>) -> Vec<(Vec<u8>, Vec<u8>)> {
    let mut out = Vec::new();
    it.seek_to_first();
    while it.valid() {
        out.push((it.key().data().to_vec(), it.value().data().to_vec()));
        it.next();
    }
    out
}

#[test]
fn test_block_round_trip() {
    for interval in [1u32, 2, 3, 16, 1000] {
        for n in [0usize, 1, 2, 15, 16, 17, 100] {
            let es = entries(n);
            let mut it = open(build(&es, interval));
            assert_eq!(scan(&mut it), es);
            assert!(it.status().is_ok());
            // Backwards from the last entry.
            let mut back = Vec::new();
            it.seek_to_last();
            while it.valid() {
                back.push((it.key().data().to_vec(), it.value().data().to_vec()));
                it.prev();
            }
            back.reverse();
            assert_eq!(back, es);
        }
    }
}

#[test]
fn test_block_exact_bytes() {
    let es = vec![
        (b"apple".to_vec(), b"1".to_vec()),
        (b"apply".to_vec(), b"22".to_vec()),
        (b"bat".to_vec(), b"".to_vec()),
    ];
    let block = build(&es, 2);
    let mut expected: Vec<u8> = Vec::new();
    expected.extend_from_slice(&[0, 5, 1]);
    expected.extend_from_slice(b"apple1");
    expected.extend_from_slice(&[4, 1, 2]);
    expected.extend_from_slice(b"y22");
    expected.extend_from_slice(&[0, 3, 0]);
    expected.extend_from_slice(b"bat");
    expected.extend_from_slice(&[0, 0, 0, 0, 15, 0, 0, 0, 2, 0, 0, 0]);
    assert_eq!(block, expected);
    let b = Block::new(BlockContents {
        data: Slice::new_from_vec(block.clone()),
        cachable: true,
    });
    assert_eq!(b.size(), block.len());
    assert_eq!(b.num_restarts(), 2);
    assert_eq!(b.clone().size(), block.len());
}

#[test]
fn test_block_seek() {
    let es = entries(100);
    for interval in [1u32, 4, 16] {
        let block = build(&es, interval);
        let mut it = open(block);
        let mut targets: Vec<Vec<u8>> = es.iter().map(|(k, _)| k.clone()).collect();
        for i in 0..100 {
            targets.push(format!("key{:05}", i * 3 + 1).into_bytes());
        }
        targets.push(b"".to_vec());
        targets.push(b"a".to_vec());
        targets.push(b"key".to_vec());
        targets.push(b"zzz".to_vec());
        for (round, t) in targets.iter().enumerate() {
            // A seek from wherever the last one left the iterator, and one from a fresh
            // iterator, find the same entry: the first whose key is not before the target.
            if round % 7 == 0 {
                it.seek_to_last();
            }
            it.seek(t);
            let expected = es.iter().find(|(k, _)| k >= t);
            match expected {
                Some((k, v)) => {
                    assert!(it.valid());
                    assert_eq!(it.key().data(), &k[..]);
                    assert_eq!(it.key_bytes(), &k[..]);
                    assert_eq!(it.value().data(), &v[..]);
                }
                None => assert!(!it.valid()),
            }
            assert!(it.status().is_ok());
        }
    }
}

#[test]
fn test_block_without_restart_array() {
    for bytes in [vec![], vec![1u8, 2, 3], vec![9u8, 0, 0, 0], vec![0u8, 0, 0, 0, 2, 0, 0, 0]] {
        let block = Block::new(BlockContents {
            data: Slice::new_from_vec(bytes),
            cachable: true,
        });
        assert_eq!(block.size(), 0);
        let mut it = block.new_iterator(BytewiseComparatorImpl {});
        assert!(it.status().is_corruption());
        it.seek_to_first();
        assert!(!it.valid());
        it.seek(b"k");
        assert!(!it.valid());
        it.seek_to_last();
        assert!(!it.valid());
    }
    // A block that counts no restart points has no entries.
    let mut it = open(vec![0, 0, 0, 0]);
    assert!(it.status().is_ok());
    it.seek_to_first();
    assert!(!it.valid());
}

#[test]
fn test_block_corrupted_entry() {
    // The second entry shares more bytes than the first key has.
    let mut block: Vec<u8> = Vec::new();
    block.extend_from_slice(&[0, 2, 1]);
    block.extend_from_slice(b"abX");
    block.extend_from_slice(&[3, 1, 1]);
    block.extend_from_slice(b"cY");
    block.extend_from_slice(&[0, 0, 0, 0, 1, 0, 0, 0]);
    let mut it = open(block);
    it.seek_to_first();
    assert!(it.valid());
    assert_eq!(it.key().data(), b"ab");
    it.next();
    assert!(!it.valid());
    assert!(it.status().is_corruption());
    assert_eq!(it.status().to_string(), "Corruption: block has corrupted restart points");
    // The failure sticks.
    it.seek_to_first();
    assert!(!it.valid());
    it.seek(b"a");
    assert!(!it.valid());
    // An entry that runs past the end of the entries.
    let mut block: Vec<u8> = Vec::new();
    block.extend_from_slice(&[0, 2, 9]);
    block.extend_from_slice(b"abX");
    block.extend_from_slice(&[0, 0, 0, 0, 1, 0, 0, 0]);
    let mut it = open(block);
    it.seek_to_first();
    assert!(!it.valid());
    assert!(it.status().is_corruption());
}

#[test]
fn test_decode_entry() {
    let (mut s, mut n, mut v) = (9u32, 9u32, 9u32);
    let rest = decode_entry(&[1, 2, 3, b'a', b'b', b'c', b'd', b'e', b'f'], &mut s, &mut n, &mut v).unwrap();
    assert_eq!((s, n, v), (1, 2, 3));
    assert_eq!(rest, b"abcdef");
    // Numbers of more than one byte.
    let rest = decode_entry(&[0x80, 0x01, 0, 0, 7], &mut s, &mut n, &mut v).unwrap();
    assert_eq!((s, n, v), (128, 0, 0));
    assert_eq!(rest, &[7]);
    assert_eq!(decode_entry(&[0, 0], &mut s, &mut n, &mut v), None);
    assert_eq!(decode_entry(&[0, 2, 0, b'a'], &mut s, &mut n, &mut v), None);
    assert_eq!(decode_entry(&[0, 0, 0x80], &mut s, &mut n, &mut v), None);
    assert!(decode_entry(&[0, 0, 0], &mut s, &mut n, &mut v).unwrap().is_empty());
}

#[test]
fn test_builder_reset() {
    let mut builder = BlockBuilder::new(16, BytewiseComparatorImpl {});
    builder.add(&Slice::new_from_str("a"), &Slice::new_from_str("1"));
    assert!(!builder.empty());
    builder.reset();
    assert!(builder.empty());
    builder.add(&Slice::new_from_str("b"), &Slice::new_from_str("2"));
    let block = builder.finish().data().to_vec();
    let mut it = open(block);
    assert_eq!(scan(&mut it), vec![(b"b".to_vec(), b"2".to_vec())]);
}

#[test]
fn test_empty_and_error_iterators() {
    let mut it = new_empty_iterator();
    assert!(!it.valid());
    it.seek_to_first();
    it.seek_to_last();
    it.seek(b"k");
    assert!(!it.valid());
    it.next();
    it.prev();
    assert!(!it.valid());
    assert!(it.key().is_empty());
    assert!(it.value().is_empty());
    assert!(it.status().is_ok());
    let it = new_error_iterator(Status::corruption("x", None));
    assert!(!it.valid());
    assert!(it.status().is_corruption());
}

#[test]
fn test_iterator_wrapper() {
    let es = entries(5);
    let mut w = IteratorWrapper::new(Some(open(build(&es, 2))));
    assert!(w.has_iter());
    assert!(!w.valid());
    w.seek_to_first();
    assert!(w.valid());
    assert_eq!(w.key().data(), &es[0].0[..]);
    assert_eq!(w.value().data(), &es[0].1[..]);
    w.next();
    assert_eq!(w.key().data(), &es[1].0[..]);
    w.seek_to_last();
    assert_eq!(w.key().data(), &es[4].0[..]);
    w.prev();
    assert_eq!(w.key().data(), &es[3].0[..]);
    w.seek(&es[2].0);
    assert_eq!(w.key().data(), &es[2].0[..]);
    assert!(w.status().is_ok());
    w.set(None);
    assert!(!w.valid());
    assert!(!w.has_iter());
    let none: IteratorWrapper<BlockIterator<BytewiseComparatorImpl>> = IteratorWrapper::new(None);
    assert!(!none.valid());
}
