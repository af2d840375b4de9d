use lsm_core::db::log_format::{RecordType, K_BLOCK_SIZE, K_HEADER_SIZE};
use lsm_core::db::log_reader::{Reader, ReportCollector};
use lsm_core::db::log_writer::{init_type_crc, LogWriter};
use lsm_core::obj::slice::Slice;
use lsm_core::util::crc32c;
use lsm_core::util::sequential_file::StringReader;
use lsm_core::util::writable_file::StringSink;

fn payload(len: usize, seed: u8) -> Vec<u8> {
    (0..len).map(|i| (i as u8).wrapping_mul(31).wrapping_add(seed)).collect()
}

fn write_log(records: &[Vec<u8>]) -> Vec<u8> {
    let mut writer = LogWriter::new(StringSink::new());
    for r in records {
        assert!(writer.add_record(&Slice::new_from_array(r)).is_ok());
    }
    writer.into_dest().contents().to_vec()
}

fn read_log(log: Vec<u8>, checksum: bool, initial_offset: u64) -> (Vec<Vec<u8>>, ReportCollector) {
    let mut reader: Reader<StringReader, ReportCollector> = Reader::new(
        StringReader::new_contents(log),
        Some(ReportCollector::new()),
        checksum,
        initial_offset,
    );
    let mut out = Vec::new();
    let mut record = Slice::new_empty();
    let mut scratch: Vec<u8> = Vec::new();
    while reader.read_record(&mut record, &mut scratch) {
        assert!(reader.last_record_offset() >= initial_offset);
        out.push(record.data().to_vec());
    }
    (out, reader.into_reporter().unwrap())
}

#[test]
fn test_wal_round_trip_with_padding() {
    let records = vec![payload(100, 1), payload(40000, 2), payload(10, 3)];
    let log = write_log(&records);
    // A full fragment of 100 bytes, then the second record in two fragments: what is
    // left of block 0, and the rest in block 1; the third record follows in block 1.
    assert_eq!(log[6], 1);
    assert_eq!(log[4] as usize | (log[5] as usize) << 8, 100);
    let second = K_HEADER_SIZE + 100;
    assert_eq!(log[second + 6], 2);
    let first_len = K_BLOCK_SIZE - second - K_HEADER_SIZE;
    assert_eq!(log[second + 4] as usize | (log[second + 5] as usize) << 8, first_len);
    assert_eq!(log[K_BLOCK_SIZE + 6], 4);
    assert_eq!(
        log[K_BLOCK_SIZE + 4] as usize | (log[K_BLOCK_SIZE + 5] as usize) << 8,
        40000 - first_len
    );
    assert_eq!(log.len(), 4 * K_HEADER_SIZE + 100 + 40000 + 10);
    for checksum in [true, false] {
        let (back, report) = read_log(log.clone(), checksum, 0);
        assert_eq!(back, records);
        assert_eq!(report.dropped_bytes_, 0);
        assert_eq!(report.reports_, 0);
    }
}

#[test]
fn test_wal_fragment_header() {
    let log = write_log(&[b"abc".to_vec()]);
    assert_eq!(log.len(), 10);
    let crc = crc32c::mask(crc32c::value(&[1, b'a', b'b', b'c']));
    assert_eq!(&log[..4], &crc.to_le_bytes());
    assert_eq!(&log[4..], &[3, 0, 1, b'a', b'b', b'c']);
    let mut type_crc = [0u32; 5];
    init_type_crc(&mut type_crc);
    for t in 0..5u8 {
        assert_eq!(type_crc[t as usize], crc32c::value(&[t]));
    }
    assert_eq!(RecordType::KLastType.to_u8(), 4);
    assert_eq!(RecordType::from_u8(3), Some(RecordType::KMiddleType));
    assert_eq!(RecordType::from_u8(5), None);
}

#[test]
fn test_wal_many_sizes() {
    let mut records = Vec::new();
    for (i, len) in [0usize, 1, 6, 7, 8, 32760, 32761, 32762, 65536, 100000, 0, 3].iter().enumerate() {
        records.push(payload(*len, i as u8));
    }
    let log = write_log(&records);
    let (back, report) = read_log(log, true, 0);
    assert_eq!(back, records);
    assert_eq!(report.reports_, 0);
}

#[test]
fn test_wal_trailer_and_exact_header_room() {
    // The first record leaves exactly seven bytes in the block: the next record starts
    // with a fragment of no bytes there.
    let first = payload(K_BLOCK_SIZE - 2 * K_HEADER_SIZE, 1);
    let log = write_log(&[first.clone(), b"xy".to_vec()]);
    let at = K_BLOCK_SIZE - K_HEADER_SIZE;
    assert_eq!(&log[at + 4..at + 7], &[0, 0, 2]);
    assert_eq!(&log[K_BLOCK_SIZE + 4..K_BLOCK_SIZE + 7], &[2, 0, 4]);
    let (back, _) = read_log(log, true, 0);
    assert_eq!(back, vec![first, b"xy".to_vec()]);
    // The first record leaves six bytes: they are filled with zeros.
    let first = payload(K_BLOCK_SIZE - 2 * K_HEADER_SIZE + 1, 1);
    let log = write_log(&[first.clone(), b"xy".to_vec()]);
    assert_eq!(&log[K_BLOCK_SIZE - 6..K_BLOCK_SIZE], &[0u8; 6]);
    assert_eq!(&log[K_BLOCK_SIZE + 4..K_BLOCK_SIZE + 7], &[2, 0, 1]);
    let (back, _) = read_log(log, true, 0);
    assert_eq!(back, vec![first, b"xy".to_vec()]);
}

#[test]
fn test_wal_reopen_for_append() {
    let records = vec![payload(20000, 1), payload(20000, 2)];
    let mut writer = LogWriter::new(StringSink::new());
    assert!(writer.add_record(&Slice::new_from_array(&records[0])).is_ok());
    let sink = writer.into_dest();
    let length = sink.contents().len() as u64;
    let mut writer = LogWriter::new_dest_length(sink, length);
    assert!(writer.add_record(&Slice::new_from_array(&records[1])).is_ok());
    let log = writer.into_dest().contents().to_vec();
    assert_eq!(log, write_log(&records));
}

#[test]
fn test_wal_checksum_mismatch() {
    let records = vec![payload(50, 1), payload(60, 2)];
    let mut log = write_log(&records);
    log[10] ^= 0x01;
    // The damaged fragment takes the rest of its block with it.
    let (back, report) = read_log(log.clone(), true, 0);
    assert!(back.is_empty());
    assert_eq!(report.reports_, 1);
    assert_eq!(report.dropped_bytes_, log.len());
    // Without verification the damage goes unseen.
    let (back, report) = read_log(log, false, 0);
    assert_eq!(back.len(), 2);
    assert_ne!(back[0], records[0]);
    assert_eq!(back[1], records[1]);
    assert_eq!(report.reports_, 0);
}

#[test]
fn test_wal_truncated_tail_is_not_an_error() {
    let records = vec![payload(50, 1), payload(60, 2)];
    let log = write_log(&records);
    let (back, report) = read_log(log[..log.len() - 1].to_vec(), true, 0);
    assert_eq!(back, vec![records[0].clone()]);
    assert_eq!(report.reports_, 0);
    let (back, report) = read_log(log[..K_HEADER_SIZE + 50 + 3].to_vec(), true, 0);
    assert_eq!(back, vec![records[0].clone()]);
    assert_eq!(report.reports_, 0);
    let (back, _) = read_log(Vec::new(), true, 0);
    assert!(back.is_empty());
}

#[test]
fn test_wal_fragments_out_of_turn() {
    // A middle fragment with no first fragment before it is reported and passed over.
    let good = write_log(&[b"ok".to_vec()]);
    let mut log: Vec<u8> = Vec::new();
    let body = b"lost";
    let crc = crc32c::mask(crc32c::value(&[3, b'l', b'o', b's', b't']));
    log.extend_from_slice(&crc.to_le_bytes());
    log.extend_from_slice(&[4, 0, 3]);
    log.extend_from_slice(body);
    log.extend_from_slice(&good);
    let (back, report) = read_log(log, true, 0);
    assert_eq!(back, vec![b"ok".to_vec()]);
    assert_eq!(report.reports_, 1);
    assert_eq!(report.dropped_bytes_, 4);
    // A first fragment that no last fragment follows is dropped when a full one comes.
    let mut log: Vec<u8> = Vec::new();
    let crc = crc32c::mask(crc32c::value(&[2, b'l', b'o', b's', b't']));
    log.extend_from_slice(&crc.to_le_bytes());
    log.extend_from_slice(&[4, 0, 2]);
    log.extend_from_slice(body);
    log.extend_from_slice(&good);
    let (back, report) = read_log(log, true, 0);
    assert_eq!(back, vec![b"ok".to_vec()]);
    assert_eq!(report.reports_, 1);
    assert_eq!(report.dropped_bytes_, 4);
}

#[test]
fn test_wal_zero_type_is_passed_over() {
    // Zeros, as in a file whose room was set aside before it was written.
    let mut log = vec![0u8; 2 * K_BLOCK_SIZE];
    log.extend_from_slice(&write_log(&[b"behind".to_vec()]));
    let (back, report) = read_log(log, true, 0);
    assert_eq!(back, vec![b"behind".to_vec()]);
    assert_eq!(report.reports_, 0);
}

#[test]
fn test_wal_recovery_at_offset() {
    let records: Vec<Vec<u8>> = (0..40).map(|i| payload(3000 + i * 17, i as u8)).collect();
    let log = write_log(&records);
    // Where each record starts.
    let mut starts = Vec::new();
    let mut writer = LogWriter::new(StringSink::new());
    for r in &records {
        let before = writer_len(&writer_contents(&mut writer));
        // A record that would start in the last six bytes of a block starts in the next.
        let in_block = before % K_BLOCK_SIZE;
        starts.push(if K_BLOCK_SIZE - in_block < K_HEADER_SIZE {
            before + (K_BLOCK_SIZE - in_block)
        } else {
            before
        });
        assert!(writer.add_record(&Slice::new_from_array(r)).is_ok());
    }
    for k in 0..=4u64 {
        let offset = k * K_BLOCK_SIZE as u64;
        let (back, _) = read_log(log.clone(), true, offset);
        let expected: Vec<Vec<u8>> = records
            .iter()
            .zip(starts.iter())
            .filter(|(_, s)| **s as u64 >= offset)
            .map(|(r, _)| r.clone())
            .collect();
        assert_eq!(back, expected, "offset {}", offset);
    }
    // Behind the end of the log nothing is read.
    let (back, _) = read_log(log.clone(), true, 100 * K_BLOCK_SIZE as u64);
    assert!(back.is_empty());
}

fn writer_contents(writer: &mut LogWriter<StringSink>) -> Vec<u8> {
    let taken = std::mem::replace(writer, LogWriter::new(StringSink::new()));
    let sink = taken.into_dest();
    let bytes = sink.contents().to_vec();
    let length = bytes.len() as u64;
    *writer = LogWriter::new_dest_length(sink, length);
    bytes
}

fn writer_len(bytes: &[u8]) -> usize {
    bytes.len()
}

#[test]
fn test_wal_fragment_across_initial_offset() {
    let records = vec![payload(100, 1), payload(50, 2)];
    let log = write_log(&records);
    assert_eq!(log.len(), 107 + 57);
    let read = |offset: u64| -> Vec<Vec<u8>> {
        let mut reader: Reader<StringReader, ReportCollector> =
            Reader::new(StringReader::new_contents(log.clone()), None, true, offset);
        let mut out = Vec::new();
        let mut record = Slice::new_empty();
        let mut scratch: Vec<u8> = Vec::new();
        while reader.read_record(&mut record, &mut scratch) {
            out.push(record.data().to_vec());
        }
        out
    };
    // A fragment that ends behind the offset is kept, though it starts before it.
    assert_eq!(read(50), records);
    assert_eq!(read(106), records);
    // One that ends at the offset lies before it and is dropped.
    assert_eq!(read(107), vec![records[1].clone()]);
    assert_eq!(read(108), vec![records[1].clone()]);
    assert_eq!(read(163), vec![records[1].clone()]);
    assert!(read(164).is_empty());
}
