use lsm_core::db::internal_key_comparator::{InternalKeyComparator, ValueType};
use lsm_core::db::table_cache::TableCache;
use lsm_core::obj::options::{CompressionType, Options, ReadOptions};
use lsm_core::obj::slice::Slice;
use lsm_core::obj::status_rs::Status;
use lsm_core::table::block::Block;
use lsm_core::table::block_builder::BlockBuilder;
use lsm_core::table::filter_block::{FilterBlockBuilder, FilterBlockReader};
use lsm_core::table::format::{
    decode_block, read_block, uncompress_body, BlockContents, BlockError, BlockHandle, Footer,
};
use lsm_core::table::iterator::Iter;
use lsm_core::table::table::{filter_handle_in, filter_of_read, Table};
use lsm_core::unit::bloom_filter_policy::BloomFilterPolicy;
use lsm_core::unit::filter_policy::FilterPolicy;
use lsm_core::util::bytewise_comparator_impl::BytewiseComparatorImpl;
use lsm_core::util::cache::ShardedLRUCache;
use lsm_core::util::coding::{put_fixed32, put_fixed64};
use lsm_core::util::comparator::Comparator;
use lsm_core::util::crc32c;
use lsm_core::util::env::Env;
use lsm_core::util::random_access_file::{FileModel, RandomAccessFile, StringSource};

type Entries = Vec<(Vec<u8>, Vec<u8>)>;

fn append_block(file: &mut Vec<u8>, body: &[u8], compression: CompressionType) -> BlockHandle {
    let stored: Vec<u8> = match compression {
        CompressionType::KnoCompression => body.to_vec(),
        CompressionType::KSnappyCompression => snap::raw::Encoder::new().compress_vec(body).unwrap(),
        CompressionType::KZstdCompression => {
            let mut out = vec![0u8; zstd_safe::compress_bound(body.len())];
            let n = zstd_safe::compress(&mut out[..], body, 1).unwrap();
            out.truncate(n);
            out
        }
    };
    let mut handle = BlockHandle::new();
    handle.set_offset(file.len() as u64);
    handle.set_size(stored.len() as u64);
    file.extend_from_slice(&stored);
    let type_byte = compression.to_u8();
    file.push(type_byte);
    let crc = crc32c::extend(crc32c::value(&stored), &[type_byte]);
    put_fixed32(file, crc32c::mask(crc));
    handle
}

fn build_table(
    entries: &Entries,
    block_entries: usize,
    compression: CompressionType,
    policy: Option<BloomFilterPolicy>,
) -> Vec<u8> {
    let order = BytewiseComparatorImpl {};
    let mut file: Vec<u8> = Vec::new();
    let mut index = BlockBuilder::new(1, order);
    let mut filter = policy.map(FilterBlockBuilder::new);
    let chunks: Vec<&[(Vec<u8>, Vec<u8>)]> = entries.chunks(block_entries).collect();
    for (i, chunk) in chunks.iter().enumerate() {
        if let Some(f) = filter.as_mut() {
            f.start_block(file.len() as u64);
        }
        let mut data = BlockBuilder::new(16, order);
        for (k, v) in chunk.iter() {
            data.add(&Slice::new_from_array(k), &Slice::new_from_array(v));
            if let Some(f) = filter.as_mut() {
                f.add_key(&Slice::new_from_array(k));
            }
        }
        let body = data.finish().data().to_vec();
        let handle = append_block(&mut file, &body, compression);
        let mut separator = chunk.last().unwrap().0.clone();
        match chunks.get(i + 1) {
            Some(next) => order.find_shortest_separator(&mut separator, &next[0].0),
            None => order.find_short_successor(&mut separator),
        }
        let mut encoded: Vec<u8> = Vec::new();
        handle.encode_to(&mut encoded);
        index.add(&Slice::new_from_vec(separator), &Slice::new_from_vec(encoded));
    }
    let mut meta = BlockBuilder::new(16, order);
    if let Some(f) = filter.as_mut() {
        let body = f.finish().data().to_vec();
        let handle = append_block(&mut file, &body, CompressionType::KnoCompression);
        let mut encoded: Vec<u8> = Vec::new();
        handle.encode_to(&mut encoded);
        let name = format!("filter.{}", policy.unwrap().name());
        meta.add(&Slice::new_from_str(&name), &Slice::new_from_vec(encoded));
    }
    let meta_body = meta.finish().data().to_vec();
    let meta_handle = append_block(&mut file, &meta_body, compression);
    let index_body = index.finish().data().to_vec();
    let index_handle = append_block(&mut file, &index_body, compression);
    let mut footer = Footer::new();
    footer.set_meta_index_handle(&meta_handle);
    footer.set_index_handle(&index_handle);
    footer.encode_to(&mut file);
    file
}

fn numbered(n: usize) -> Entries {
    let mut out: Entries = (1..=n)
        .map(|i| (format!("k{}", i).into_bytes(), format!("v{}", i).into_bytes()))
        .collect();
    out.sort();
    out
}

type TestTable = Table<StringSource, BytewiseComparatorImpl, BloomFilterPolicy>;

fn open_table(
    file: Vec<u8>,
    options: Options,
    policy: Option<BloomFilterPolicy>,
    cache: &mut Option<ShardedLRUCache<Block>>,
) -> Result<TestTable, Status> {
    let size = file.len() as u64;
    Table::open(
        options,
        BytewiseComparatorImpl {},
        policy,
        StringSource::new_contents(file),
        size,
        cache,
    )
}

#[test]
fn test_table_round_trip() {
    for compression in [
        CompressionType::KnoCompression,
        CompressionType::KSnappyCompression,
        CompressionType::KZstdCompression,
    ] {
        for paranoid in [false, true] {
            for n in [1usize, 7, 1000] {
                let entries = numbered(n);
                let file = build_table(&entries, 37, compression, Some(BloomFilterPolicy::new(10)));
                let mut options = Options::new();
                options.paranoid_checks = paranoid;
                let mut cache = None;
                let table = open_table(file, options, Some(BloomFilterPolicy::new(10)), &mut cache).unwrap();
                let mut read = ReadOptions::new();
                read.verify_checksums = paranoid;
                let mut it = table.new_iterator(Some(ShardedLRUCache::new(64)), read);
                assert!(!it.valid());
                let mut forward: Entries = Vec::new();
                it.seek_to_first();
                while it.valid() {
                    forward.push((it.key().data().to_vec(), it.value().data().to_vec()));
                    it.next();
                }
                assert!(it.status().is_ok());
                assert_eq!(forward, entries);
                let mut backward: Entries = Vec::new();
                it.seek_to_last();
                while it.valid() {
                    backward.push((it.key().data().to_vec(), it.value().data().to_vec()));
                    it.prev();
                }
                backward.reverse();
                assert_eq!(backward, entries);
                it.seek(b"k5");
                match entries.iter().find(|(k, _)| &k[..] >= &b"k5"[..]) {
                    Some(expected) => {
                        assert!(it.valid());
                        assert_eq!(it.key().data(), &expected.0[..]);
                    }
                    None => assert!(!it.valid()),
                }
                it.seek(b"zzz");
                assert!(!it.valid());
                let (_table, cache) = it.into_parts();
                assert!(cache.is_some());
            }
        }
    }
}

#[test]
fn test_table_point_lookup() {
    let entries = numbered(1000);
    let policy = BloomFilterPolicy::new(10);
    let file = build_table(&entries, 50, CompressionType::KnoCompression, Some(policy));
    let mut cache = Some(ShardedLRUCache::new(8));
    let table = open_table(file, Options::new(), Some(policy), &mut cache).unwrap();
    let read = ReadOptions::new();
    let (status, found) = table.internal_get(&read, b"k500", &mut cache);
    assert!(status.is_ok());
    let (k, v) = found.unwrap();
    assert_eq!(k.data(), b"k500");
    assert_eq!(v.data(), b"v500");
    // Behind the last key there is nothing to find.
    let (status, found) = table.internal_get(&read, b"zzz", &mut cache);
    assert!(status.is_ok());
    assert!(found.is_none());
    // A key between two keys: the filter says no, or the next key is found.
    let (status, found) = table.internal_get(&read, b"k5000", &mut cache);
    assert!(status.is_ok());
    if let Some((k, _)) = found {
        assert_eq!(k.data(), b"k501");
    }
    for (k, v) in entries.iter() {
        let (status, found) = table.internal_get(&read, k, &mut cache);
        assert!(status.is_ok());
        let (fk, fv) = found.unwrap();
        assert_eq!((fk.data(), fv.data()), (&k[..], &v[..]));
    }
    // Without a filter the entry behind a missing key is found.
    let mut no_cache = None;
    let file = build_table(&entries, 50, CompressionType::KnoCompression, None);
    let table = open_table(file, Options::new(), None, &mut no_cache).unwrap();
    let (status, found) = table.internal_get(&read, b"k5000", &mut no_cache);
    assert!(status.is_ok());
    assert_eq!(found.unwrap().0.data(), b"k501");
    assert_eq!(table.approximate_offset_of(b"a"), 0);
    assert!(table.approximate_offset_of(b"k500") > 0);
    assert!(table.approximate_offset_of(b"zzz") > table.approximate_offset_of(b"k500"));
}

#[test]
fn test_table_filter_keeps_blocks_unread() {
    // Every data block is damaged behind the filter's back: a lookup of a key that
    // the filter rules out never reads one.
    let entries = numbered(100);
    let policy = BloomFilterPolicy::new(10);
    let mut file = build_table(&entries, 10, CompressionType::KnoCompression, Some(policy));
    let first_trailer = {
        let mut cache = None;
        let table = open_table(file.clone(), Options::new(), Some(policy), &mut cache).unwrap();
        let mut it = table.index_iterator();
        it.seek_to_first();
        let mut handle = BlockHandle::new();
        assert!(handle.decode_from(&mut it.value()).is_ok());
        assert_eq!(handle.offset(), 0);
        handle.size() as usize
    };
    file[first_trailer + 1] ^= 0xff;
    let mut cache = None;
    let table = open_table(file, Options::new(), Some(policy), &mut cache).unwrap();
    let mut read = ReadOptions::new();
    read.verify_checksums = true;
    let (status, found) = table.internal_get(&read, b"k1", &mut cache);
    assert!(status.is_corruption());
    assert_eq!(status.to_string(), "Corruption: block checksum mismatch");
    assert!(found.is_none());
    let (status, found) = table.internal_get(&read, b"a-key-that-is-not-there", &mut cache);
    assert!(status.is_ok());
    assert!(found.is_none());
}

#[test]
fn test_table_open_failures() {
    let mut cache = None;
    let short = open_table(vec![0u8; 47], Options::new(), None, &mut cache);
    assert_eq!(
        short.err().unwrap().to_string(),
        "Corruption: file is too short to be an sstable"
    );
    let bad = open_table(vec![0u8; 48], Options::new(), None, &mut cache);
    assert_eq!(
        bad.err().unwrap().to_string(),
        "Corruption: not an sstable (bad magic number)"
    );
    let entries = numbered(10);
    let mut file = build_table(&entries, 4, CompressionType::KnoCompression, None);
    let len = file.len();
    // Damage in the index block is found where checksums are verified.
    file[len - 48 - 3] ^= 0x10;
    let mut paranoid = Options::new();
    paranoid.paranoid_checks = true;
    let r = open_table(file.clone(), paranoid, None, &mut cache);
    assert_eq!(r.err().unwrap().to_string(), "Corruption: block checksum mismatch");
    assert!(open_table(file, Options::new(), None, &mut cache).is_ok());
}

#[test]
fn test_table_uses_block_cache() {
    let entries = numbered(200);
    let file = build_table(&entries, 20, CompressionType::KSnappyCompression, None);
    let mut cache = Some(ShardedLRUCache::new(64));
    let table = open_table(file, Options::new(), None, &mut cache).unwrap();
    let read = ReadOptions::new();
    let (_, found) = table.internal_get(&read, b"k42", &mut cache);
    assert_eq!(found.unwrap().1.data(), b"v42");
    // The block is in the cache under the identifier of the table and its offset.
    let mut it = table.index_iterator();
    it.seek(b"k42");
    let mut handle = BlockHandle::new();
    assert!(handle.decode_from(&mut it.value()).is_ok());
    let mut key: Vec<u8> = Vec::new();
    put_fixed64(&mut key, 1);
    put_fixed64(&mut key, handle.offset());
    let c = cache.as_mut().unwrap();
    let held = c.get(&key).unwrap();
    assert!(c.value(&held).size() > 0);
    c.release(held);
    // A read that does not fill the cache leaves no block behind.
    let mut read = ReadOptions::new();
    read.fill_cache = false;
    let (_, found) = table.internal_get(&read, b"k1", &mut cache);
    assert_eq!(found.unwrap().1.data(), b"v1");
    let mut key: Vec<u8> = Vec::new();
    put_fixed64(&mut key, 1);
    put_fixed64(&mut key, 0);
    assert!(cache.as_mut().unwrap().get(&key).is_none());
    // A second table gets the next identifier.
    let file = build_table(&entries, 20, CompressionType::KnoCompression, None);
    let _second = open_table(file, Options::new(), None, &mut cache).unwrap();
    assert_eq!(cache.as_mut().unwrap().new_id(), 3);
}

#[test]
fn test_internal_key_table() {
    // A table of internal keys: the newest entry of a user key comes first.
    let order = InternalKeyComparator::new(BytewiseComparatorImpl {});
    let key = |user: &[u8], seq: u64, t: ValueType| -> Vec<u8> {
        let mut k = user.to_vec();
        put_fixed64(&mut k, (seq << 8) | t.to_u8() as u64);
        k
    };
    let mut data = BlockBuilder::new(2, order);
    let es = vec![
        (key(b"a", 9, ValueType::KTypeValue), b"a9".to_vec()),
        (key(b"a", 5, ValueType::KTypeDeletion), b"".to_vec()),
        (key(b"a", 1, ValueType::KTypeValue), b"a1".to_vec()),
        (key(b"b", 7, ValueType::KTypeValue), b"b7".to_vec()),
    ];
    for (k, v) in es.iter() {
        data.add(&Slice::new_from_array(k), &Slice::new_from_array(v));
    }
    let mut file: Vec<u8> = Vec::new();
    let body = data.finish().data().to_vec();
    let handle = append_block(&mut file, &body, CompressionType::KnoCompression);
    let mut index = BlockBuilder::new(1, order);
    let mut sep = es[3].0.clone();
    order.find_short_successor(&mut sep);
    let mut encoded: Vec<u8> = Vec::new();
    handle.encode_to(&mut encoded);
    index.add(&Slice::new_from_vec(sep), &Slice::new_from_vec(encoded));
    let mut meta = BlockBuilder::new(1, BytewiseComparatorImpl {});
    let meta_body = meta.finish().data().to_vec();
    let meta_handle = append_block(&mut file, &meta_body, CompressionType::KnoCompression);
    let index_body = index.finish().data().to_vec();
    let index_handle = append_block(&mut file, &index_body, CompressionType::KnoCompression);
    let mut footer = Footer::new();
    footer.set_meta_index_handle(&meta_handle);
    footer.set_index_handle(&index_handle);
    footer.encode_to(&mut file);
    let size = file.len() as u64;
    let mut cache = None;
    let table: Table<StringSource, InternalKeyComparator<BytewiseComparatorImpl>, BloomFilterPolicy> =
        Table::open(Options::new(), order, None, StringSource::new_contents(file), size, &mut cache)
            .unwrap();
    let read = ReadOptions::new();
    let lookup = |seq: u64| key(b"a", seq, ValueType::KTypeValue);
    let (_, found) = table.internal_get(&read, &lookup(100), &mut cache);
    assert_eq!(found.unwrap().1.data(), b"a9");
    let (_, found) = table.internal_get(&read, &lookup(6), &mut cache);
    assert_eq!(found.unwrap().0.data(), &es[1].0[..]);
    let (_, found) = table.internal_get(&read, &lookup(4), &mut cache);
    assert_eq!(found.unwrap().1.data(), b"a1");
    let (_, found) = table.internal_get(&read, &lookup(0), &mut cache);
    assert_eq!(found.unwrap().1.data(), b"b7");
}

#[test]
fn test_block_handle_and_footer() {
    let mut h = BlockHandle::new();
    assert_eq!((h.offset(), h.size()), (0, 0));
    h.set_offset(300);
    h.set_size(5);
    let mut out: Vec<u8> = Vec::new();
    h.encode_to(&mut out);
    assert_eq!(out, vec![0xac, 0x02, 5]);
    out.push(9);
    let mut input = Slice::new_from_vec(out);
    let mut back = BlockHandle::new();
    assert!(back.decode_from(&mut input).is_ok());
    assert_eq!(back, h);
    assert_eq!(input.data(), &[9]);
    let mut bad = Slice::new_from_array(&[0xac]);
    let s = back.decode_from(&mut bad);
    assert_eq!(s.to_string(), "Corruption: bad block handle");
    assert_eq!(back, h);
    // The second number is missing: the first stays taken.
    let mut bad = Slice::new_from_array(&[7, 0x80]);
    assert!(back.decode_from(&mut bad).is_corruption());
    assert_eq!(back.offset(), 7);
    assert_eq!(back.size(), 5);
    assert_eq!(bad.data(), &[0x80]);

    let mut footer = Footer::new();
    let mut big = BlockHandle::new();
    big.set_offset(u64::MAX);
    big.set_size(u64::MAX);
    footer.set_meta_index_handle(&h);
    footer.set_index_handle(&big);
    let mut bytes = vec![0x77u8];
    footer.encode_to(&mut bytes);
    assert_eq!(bytes.len(), 49);
    assert_eq!(&bytes[1..4], &[0xac, 0x02, 5]);
    assert_eq!(&bytes[24..41], &[0u8; 17]);
    assert_eq!(&bytes[41..], &[0x57, 0xfb, 0x80, 0x8b, 0x24, 0x75, 0x47, 0xdb]);
    bytes.push(0x55);
    let mut input = Slice::new_from_array(&bytes[1..]);
    let mut back = Footer::new();
    assert!(back.decode_from(&mut input).is_ok());
    assert_eq!(*back.meta_index_handle(), h);
    assert_eq!(*back.index_handle(), big);
    assert_eq!(back, footer);
    assert_eq!(input.data(), &[0x55]);
    let mut short = Slice::new_from_array(&bytes[1..48]);
    assert_eq!(
        back.decode_from(&mut short).to_string(),
        "Corruption: input is too short to be an sstable"
    );
    let mut wrong = bytes[1..49].to_vec();
    wrong[47] ^= 1;
    assert_eq!(
        back.decode_from(&mut Slice::new_from_vec(wrong)).to_string(),
        "Corruption: not an sstable (bad magic number)"
    );
    let mut no_handles = vec![0x80u8; 40];
    no_handles.extend_from_slice(&bytes[41..49]);
    assert_eq!(
        back.decode_from(&mut Slice::new_from_vec(no_handles)).to_string(),
        "Corruption: bad block handle"
    );
}

#[test]
fn test_read_block() {
    let body = b"some block body, some block body, some block body".to_vec();
    for compression in [
        CompressionType::KnoCompression,
        CompressionType::KSnappyCompression,
        CompressionType::KZstdCompression,
    ] {
        let mut file = vec![1u8, 2, 3];
        let handle = append_block(&mut file, &body, compression);
        assert_eq!(handle.offset(), 3);
        let source = StringSource::new_contents(file.clone());
        let mut options = ReadOptions::new();
        options.verify_checksums = true;
        let contents = read_block(&source, &options, &handle).unwrap();
        assert_eq!(contents.data.data(), &body[..]);
        assert!(contents.cachable);
        // What is stored differs from the body where it is compressed.
        let stored = &file[3..3 + handle.size() as usize];
        assert_eq!(stored == &body[..], compression == CompressionType::KnoCompression);
        assert_eq!(uncompress_body(compression, stored), Ok(body.clone()));
        // A flipped bit in the body.
        let mut damaged = file.clone();
        damaged[5] ^= 0x40;
        let source = StringSource::new_contents(damaged);
        let r = read_block(&source, &options, &handle);
        assert_eq!(r.err().unwrap().to_string(), "Corruption: block checksum mismatch");
        // A file that ends within the block.
        let source = StringSource::new_contents(file[..file.len() - 1].to_vec());
        let r = read_block(&source, &options, &handle);
        assert_eq!(r.err().unwrap().to_string(), "Corruption: truncated block read");
        // A read that fails.
        let source = StringSource::new_contents(vec![0u8; 3]);
        assert!(read_block(&source, &options, &handle).err().unwrap().is_invalid_argument());
    }
}

#[test]
fn test_decode_block_errors() {
    let raw = |body: &[u8], type_byte: u8| -> Vec<u8> {
        let mut out = body.to_vec();
        out.push(type_byte);
        let crc = crc32c::value(&out);
        put_fixed32(&mut out, crc32c::mask(crc));
        out
    };
    let message = |r: Result<lsm_core::table::format::BlockContents, Status>| r.err().unwrap().to_string();
    assert_eq!(message(decode_block(&raw(b"abc", 3), 3, true)), "Corruption: bad block type");
    assert_eq!(message(decode_block(&raw(b"abc", 0), 2, true)), "Corruption: truncated block read");
    assert_eq!(message(decode_block(&[], 0, false)), "Corruption: truncated block read");
    assert_eq!(
        message(decode_block(&raw(&[0xff, 0xff, 0xff, 0xff, 0xff, 0xff], 1), 6, true)),
        "Corruption: corrupted snappy compressed block length"
    );
    assert_eq!(
        message(decode_block(&raw(&[10, 0xff], 1), 2, true)),
        "Corruption: corrupted snappy compressed block"
    );
    assert_eq!(
        message(decode_block(&raw(b"not a frame", 2), 11, true)),
        "Corruption: corrupted zstd compressed block length"
    );
    let mut frame = vec![0u8; 64];
    let n = zstd_safe::compress(&mut frame[..], b"0123456789012345678901234567890123456789", 1).unwrap();
    frame.truncate(n);
    let cut = n - 3;
    assert_eq!(
        message(decode_block(&raw(&frame[..cut], 2), cut, true)),
        "Corruption: corrupted zstd compressed block"
    );
    assert_eq!(uncompress_body(CompressionType::KSnappyCompression, &[10, 0xff]), Err(BlockError::BadSnappyContents));
    // With no verification a wrong checksum goes unseen.
    let mut r = raw(b"abc", 0);
    r[5] ^= 1;
    assert_eq!(decode_block(&r, 3, false).unwrap().data.data(), b"abc");
    assert!(decode_block(&r, 3, true).is_err());
    // An empty body.
    assert_eq!(decode_block(&raw(b"", 0), 0, true).unwrap().data.data(), b"");
}

struct TestHashFilter {}

#[test]
fn test_filter_block() {
    let _ = TestHashFilter {};
    let policy = BloomFilterPolicy::new(10);
    // No block at all.
    let mut builder = FilterBlockBuilder::new(policy);
    let block = builder.finish().data().to_vec();
    assert_eq!(block, vec![0, 0, 0, 0, 11]);
    let reader = FilterBlockReader::new(policy, Slice::new_from_vec(block));
    assert!(reader.key_may_match(b"foo", 0));
    assert!(reader.key_may_match(b"foo", 100000));
    // Blocks at 100, 200 and 300 share the first filter.
    let mut builder = FilterBlockBuilder::new(policy);
    builder.start_block(100);
    builder.add_key(&Slice::new_from_str("foo"));
    builder.add_key(&Slice::new_from_str("bar"));
    builder.add_key(&Slice::new_from_str("box"));
    builder.start_block(200);
    builder.add_key(&Slice::new_from_str("box"));
    builder.start_block(300);
    builder.add_key(&Slice::new_from_str("hello"));
    let block = builder.finish();
    let reader = FilterBlockReader::new(policy, block.clone());
    assert_eq!(reader.data(), block.data());
    assert_eq!(reader.offset().len(), 4 + 4 + 1);
    for key in [&b"foo"[..], b"bar", b"box", b"hello"] {
        assert!(reader.key_may_match(key, 100));
    }
    assert!(!reader.key_may_match(b"missing", 100));
    assert!(!reader.key_may_match(b"other", 100));
    // Filters for the ranges of 2 KiB in which blocks start, empty ones between.
    let mut builder = FilterBlockBuilder::new(policy);
    builder.start_block(0);
    builder.add_key(&Slice::new_from_str("foo"));
    builder.start_block(2000);
    builder.add_key(&Slice::new_from_str("bar"));
    builder.start_block(3100);
    builder.add_key(&Slice::new_from_str("box"));
    builder.start_block(9000);
    builder.add_key(&Slice::new_from_str("box"));
    builder.add_key(&Slice::new_from_str("hello"));
    let reader = FilterBlockReader::new(policy, builder.finish());
    assert!(reader.key_may_match(b"foo", 0));
    assert!(reader.key_may_match(b"bar", 2000));
    assert!(!reader.key_may_match(b"box", 0));
    assert!(!reader.key_may_match(b"hello", 0));
    assert!(reader.key_may_match(b"box", 3100));
    assert!(!reader.key_may_match(b"foo", 3100));
    assert!(!reader.key_may_match(b"foo", 4100));
    assert!(!reader.key_may_match(b"box", 4100));
    assert!(reader.key_may_match(b"box", 9000));
    assert!(reader.key_may_match(b"hello", 9000));
    assert!(!reader.key_may_match(b"foo", 9000));
    // Behind the last filter, and in a block that is no filter block, every key passes.
    assert!(reader.key_may_match(b"foo", 1 << 40));
    let odd = FilterBlockReader::new(policy, Slice::new_from_array(&[1, 2, 3]));
    assert!(odd.key_may_match(b"foo", 0));
    let odd = FilterBlockReader::new(policy, Slice::new_from_array(&[9, 9, 9, 9, 11]));
    assert!(odd.key_may_match(b"foo", 0));
}

struct MemEnv {
    files: Vec<(String, Vec<u8>)>,
    opened: Vec<String>,
}

impl Env for MemEnv {
    type File = StringSource;

    fn new_random_access_file(&mut self, filename: &str) -> Result<StringSource, Status> {
        self.opened.push(filename.to_string());
        match self.files.iter().find(|(name, _)| name == filename) {
            Some((_, bytes)) => Ok(StringSource::new_contents(bytes.clone())),
            None => Err(Status::not_found(filename, None)),
        }
    }
}

#[test]
fn test_table_cache() {
    let entries = numbered(100);
    let file = build_table(&entries, 10, CompressionType::KnoCompression, None);
    let size = file.len() as u64;
    let env = MemEnv {
        files: vec![
            ("db/000007.ldb".to_string(), file.clone()),
            ("db/000008.sst".to_string(), file.clone()),
        ],
        opened: Vec::new(),
    };
    let mut cache: TableCache<MemEnv, BytewiseComparatorImpl, BloomFilterPolicy> = TableCache::new(
        "db".to_string(),
        Options::new(),
        BytewiseComparatorImpl {},
        None,
        env,
        100,
    );
    let mut blocks = None;
    let read = ReadOptions::new();
    let (status, found) = cache.get(&read, 7, size, b"k77", &mut blocks);
    assert!(status.is_ok());
    assert_eq!(found.unwrap().1.data(), b"v77");
    // A table under the name that table files had before.
    let (status, found) = cache.get(&read, 8, size, b"k8", &mut blocks);
    assert!(status.is_ok());
    assert_eq!(found.unwrap().1.data(), b"v8");
    // A table that is not there.
    let (status, found) = cache.get(&read, 9, size, b"k8", &mut blocks);
    assert!(status.is_not_found());
    assert!(found.is_none());
    // The table stays open until it is dropped from the cache.
    let (status, _) = cache.get(&read, 7, size, b"k1", &mut blocks);
    assert!(status.is_ok());
    cache.evict(7);
    let (status, found) = cache.get(&read, 7, size, b"k2", &mut blocks);
    assert!(status.is_ok());
    assert_eq!(found.unwrap().1.data(), b"v2");
}

#[test]
fn test_table_with_empty_blocks() {
    let order = BytewiseComparatorImpl {};
    let blocks: Vec<(Vec<&[u8]>, &[u8])> = vec![
        (vec![b"a", b"b"], b"b"),
        (vec![], b"b1"),
        (vec![], b"b2"),
        (vec![b"c"], b"c"),
        (vec![], b"d"),
    ];
    let mut file: Vec<u8> = Vec::new();
    let mut index = BlockBuilder::new(1, order);
    for (keys, index_key) in blocks.iter() {
        let mut data = BlockBuilder::new(16, order);
        for k in keys.iter() {
            data.add(&Slice::new_from_array(k), &Slice::new_from_array(k));
        }
        let body = data.finish().data().to_vec();
        let handle = append_block(&mut file, &body, CompressionType::KnoCompression);
        let mut encoded: Vec<u8> = Vec::new();
        handle.encode_to(&mut encoded);
        index.add(&Slice::new_from_array(index_key), &Slice::new_from_vec(encoded));
    }
    let mut meta = BlockBuilder::new(16, order);
    let meta_body = meta.finish().data().to_vec();
    let meta_handle = append_block(&mut file, &meta_body, CompressionType::KnoCompression);
    let index_body = index.finish().data().to_vec();
    let index_handle = append_block(&mut file, &index_body, CompressionType::KnoCompression);
    let mut footer = Footer::new();
    footer.set_meta_index_handle(&meta_handle);
    footer.set_index_handle(&index_handle);
    footer.encode_to(&mut file);

    let mut cache = None;
    let table = open_table(file, Options::new(), None, &mut cache).unwrap();
    let mut it = table.new_iterator(None, ReadOptions::new());
    let mut forward: Vec<Vec<u8>> = Vec::new();
    it.seek_to_first();
    while it.valid() {
        forward.push(it.key().data().to_vec());
        it.next();
    }
    assert!(it.status().is_ok());
    assert_eq!(forward, vec![b"a".to_vec(), b"b".to_vec(), b"c".to_vec()]);
    let mut backward: Vec<Vec<u8>> = Vec::new();
    it.seek_to_last();
    while it.valid() {
        backward.push(it.key().data().to_vec());
        it.prev();
    }
    assert!(it.status().is_ok());
    assert_eq!(backward, vec![b"c".to_vec(), b"b".to_vec(), b"a".to_vec()]);
    it.seek(b"a5");
    assert!(it.valid());
    assert_eq!(it.key().data(), b"b");
    it.seek(b"b15");
    assert!(it.valid());
    assert_eq!(it.key().data(), b"c");
    assert_eq!(it.value().data(), b"c");
    it.prev();
    assert!(it.valid());
    assert_eq!(it.key().data(), b"b");
    it.seek(b"c1");
    assert!(!it.valid());
    assert!(it.status().is_ok());
}

#[test]
fn test_filter_handle_in_meta_block() {
    let order = BytewiseComparatorImpl {};
    let mut meta = BlockBuilder::new(16, order);
    meta.add(&Slice::new_from_str("filter.a"), &Slice::new_from_str("one"));
    meta.add(&Slice::new_from_str("filter.c"), &Slice::new_from_str("two"));
    let body = meta.finish().data().to_vec();
    let block = Block::new(BlockContents { data: Slice::new_from_vec(body), cachable: true });
    assert_eq!(filter_handle_in(&block, "a").unwrap().data(), b"one");
    assert_eq!(filter_handle_in(&block, "c").unwrap().data(), b"two");
    // The seek ends at `filter.c`, which is not the key asked for.
    assert!(filter_handle_in(&block, "b").is_none());
    assert!(filter_handle_in(&block, "d").is_none());
    let damaged = Block::new(BlockContents { data: Slice::new_from_str("xy"), cachable: true });
    assert!(filter_handle_in(&damaged, "a").is_none());
}

#[test]
fn test_filter_of_read() {
    let policy = BloomFilterPolicy::new(10);
    let read = Ok(BlockContents { data: Slice::new_from_str("filter bytes"), cachable: true });
    let reader = filter_of_read(policy, read).unwrap();
    assert_eq!(reader.data(), b"filter bytes");
    assert!(filter_of_read(policy, Err(Status::io_error("f", None))).is_none());
}

/// A file in memory that hands out its own memory, as a mapped file does.
struct LendingSource {
    inner: StringSource,
}

impl RandomAccessFile for LendingSource {
    fn contents(&self) -> FileModel {
        unreachable!()
    }

    fn lends(&self) -> bool {
        true
    }

    fn steady(&self) -> bool {
        true
    }

    fn is_lending(&self) -> bool {
        true
    }

    fn read(&self, offset: u64, n: usize) -> Result<Slice, Status> {
        self.inner.read(offset, n)
    }
}

#[test]
fn test_read_block_of_lending_file() {
    let body = b"some block body, some block body, some block body".to_vec();
    for compression in [
        CompressionType::KnoCompression,
        CompressionType::KSnappyCompression,
        CompressionType::KZstdCompression,
    ] {
        let mut file = Vec::new();
        let handle = append_block(&mut file, &body, compression);
        let source = LendingSource { inner: StringSource::new_contents(file) };
        let contents = read_block(&source, &ReadOptions::new(), &handle).unwrap();
        assert_eq!(contents.data.data(), &body[..]);
        // What the file keeps at hand anyway is not worth a place in the cache.
        assert_eq!(contents.cachable, compression != CompressionType::KnoCompression);
    }
}
