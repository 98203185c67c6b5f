use toydb::framing::{decode_frame, encode_frame, frame_len};
use toydb::wal::{encode_entry, WalEntry, WalReader};

#[test]
fn solution_test_framing_round_trip() {
    let data = b"hello, world!";
    let buf = encode_frame(data);
    let (result, used) = decode_frame(&buf).unwrap();
    assert_eq!(result, data);
    assert_eq!(used, buf.len());
}

#[test]
fn main_test_framing_round_trip() {
    let data = b"hello, world!";
    let mut buf = Vec::new();
    buf.extend(encode_frame(data));
    let result = decode_frame(&buf).unwrap().0;
    assert_eq!(result, data);
}

#[test]
fn frame_header_is_big_endian_length() {
    let buf = encode_frame(&[7u8; 258]);
    assert_eq!(&buf[..4], &[0, 0, 1, 2]);
    assert_eq!(frame_len(&buf[..4]), 258);
    assert!(decode_frame(&buf[..100]).is_none());
    assert!(decode_frame(&buf[..3]).is_none());
}

fn entry(term: u64, index: u64, data: &[u8]) -> WalEntry {
    WalEntry { term, index, data: data.to_vec() }
}

#[test]
fn wal_reads_back_what_was_written() {
    let mut log = Vec::new();
    log.extend(encode_entry(&entry(1, 1, b"SET x 1")));
    log.extend(encode_entry(&entry(1, 2, b"SET y 2")));
    let entries = WalReader::read_all(&log);
    assert_eq!(entries.len(), 2);
    assert_eq!(entries[0].data, b"SET x 1");
    assert_eq!(entries[1].index, 2);
}

#[test]
fn wal_record_layout() {
    let rec = encode_entry(&entry(2, 3, b"ab"));
    assert_eq!(rec.len(), 8 + 8 + 4 + 2 + 4);
    assert_eq!(&rec[..8], &2u64.to_le_bytes());
    assert_eq!(&rec[8..16], &3u64.to_le_bytes());
    assert_eq!(&rec[16..20], &2u32.to_le_bytes());
    assert_eq!(&rec[20..22], b"ab");
    assert_eq!(&rec[22..26], &crc32fast::hash(&rec[..22]).to_le_bytes());
}

#[test]
fn wal_stops_at_corrupt_record() {
    let mut log = Vec::new();
    log.extend(encode_entry(&entry(1, 1, b"good")));
    let mut bad = encode_entry(&entry(1, 2, b"bad"));
    let last = bad.len() - 1;
    bad[last] ^= 0xff;
    log.extend(bad);
    log.extend(encode_entry(&entry(1, 3, b"after")));
    let entries = WalReader::read_all(&log);
    assert_eq!(entries, vec![entry(1, 1, b"good")]);
}

#[test]
fn wal_torn_tail_keeps_the_complete_records() {
    let mut log = encode_entry(&entry(1, 1, b"x"));
    log.extend_from_slice(&[1, 2, 3]);
    assert_eq!(WalReader::read_all(&log), vec![entry(1, 1, b"x")]);
    let mut torn = encode_entry(&entry(1, 1, b"x"));
    torn.extend_from_slice(&encode_entry(&entry(1, 2, b"yy"))[..12]);
    assert_eq!(WalReader::read_all(&torn), vec![entry(1, 1, b"x")]);
    let mut torn_data = encode_entry(&entry(1, 1, b"x"));
    torn_data.extend_from_slice(&encode_entry(&entry(1, 2, b"yy"))[..23]);
    assert_eq!(WalReader::read_all(&torn_data), vec![entry(1, 1, b"x")]);
    assert_eq!(WalReader::read_all(&[0u8; 8]), vec![]);
    assert_eq!(WalReader::read_all(&[]), vec![]);
}

/// A log kept in memory: each appended entry adds its record's bytes.
fn append(log: &mut Vec<u8>, e: &WalEntry) {
    log.extend_from_slice(&encode_entry(e));
}

#[test]
fn test_write_read() {
    let mut log = Vec::new();
    append(&mut log, &WalEntry { term: 1, index: 1, data: b"c1".to_vec() });
    append(&mut log, &WalEntry { term: 1, index: 2, data: b"c2".to_vec() });
    let e = WalReader::read_all(&log);
    assert_eq!(e.len(), 2);
    assert_eq!(e[0].data, b"c1");
}

#[test]
fn solution_test_recovery() {
    let mut log = Vec::new();
    append(&mut log, &WalEntry { term: 1, index: 1, data: b"c".to_vec() });
    assert_eq!(WalReader::read_all(&log).len(), 1);
    append(&mut log, &WalEntry { term: 2, index: 2, data: b"c2".to_vec() });
    assert_eq!(WalReader::read_all(&log).len(), 2);
}

#[test]
fn test_write_and_read() {
    let mut log = Vec::new();
    append(&mut log, &WalEntry { term: 1, index: 1, data: b"SET x 1".to_vec() });
    append(&mut log, &WalEntry { term: 1, index: 2, data: b"SET y 2".to_vec() });
    let entries = WalReader::read_all(&log);
    assert_eq!(entries.len(), 2);
    assert_eq!(entries[0].data, b"SET x 1");
    assert_eq!(entries[1].index, 2);
}

#[test]
fn main_test_recovery() {
    let mut log = Vec::new();
    append(&mut log, &WalEntry { term: 1, index: 1, data: b"cmd".to_vec() });
    let entries = WalReader::read_all(&log);
    assert_eq!(entries.len(), 1);
    append(&mut log, &WalEntry { term: 2, index: 2, data: b"cmd2".to_vec() });
    let entries = WalReader::read_all(&log);
    assert_eq!(entries.len(), 2);
}
