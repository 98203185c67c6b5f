use toydb::bitcask::{encode_record, encode_tombstone, BitCask, BitCaskError, TOMBSTONE};

/// A store with its log kept in memory: each record is appended as written.
struct Store {
    state: BitCask,
    log: Vec<u8>,
}

impl Store {
    fn open(log: Vec<u8>) -> Store {
        let state = BitCask::open(&log).unwrap();
        Store { state, log }
    }

    fn set(&mut self, key: &str, value: &[u8]) {
        let rec = self.state.set(key, value);
        self.log.extend_from_slice(&rec);
    }

    fn delete(&mut self, key: &str) {
        let rec = self.state.delete(key);
        self.log.extend_from_slice(&rec);
    }

    fn get(&self, key: &str) -> Result<Vec<u8>, BitCaskError> {
        self.state.get(key, &self.log)
    }
}

fn set_and_get() {
    let mut bc = Store::open(Vec::new());
    bc.set("hello", b"world");
    assert_eq!(bc.get("hello").unwrap(), b"world");
}

fn overwrite() {
    let mut bc = Store::open(Vec::new());
    bc.set("k", b"v1");
    bc.set("k", b"v2");
    assert_eq!(bc.get("k").unwrap(), b"v2");
}

fn persistence() {
    let log = {
        let mut bc = Store::open(Vec::new());
        bc.set("persist", b"yes");
        bc.log
    };
    let bc = Store::open(log);
    assert_eq!(bc.get("persist").unwrap(), b"yes");
}

#[test]
fn test_set_and_get() {
    set_and_get();
}

#[test]
fn main_test_overwrite() {
    overwrite();
}

#[test]
fn solution_test_overwrite() {
    overwrite();
}

#[test]
fn bitcask_test_delete() {
    let mut bc = Store::open(Vec::new());
    bc.set("k", b"v");
    bc.delete("k");
    assert!(bc.get("k").is_err());
}

#[test]
fn main_test_persistence() {
    persistence();
}

#[test]
fn solution_test_persistence() {
    persistence();
}

#[test]
fn record_layout_is_lengths_key_value_crc() {
    let rec = encode_record("ab", b"xyz");
    assert_eq!(rec.len(), 4 + 2 + 4 + 3 + 4);
    assert_eq!(&rec[0..4], &[2, 0, 0, 0]);
    assert_eq!(&rec[4..6], b"ab");
    assert_eq!(&rec[6..10], &[3, 0, 0, 0]);
    assert_eq!(&rec[10..13], b"xyz");
    let crc = crc32fast::hash(&rec[0..13]);
    assert_eq!(&rec[13..17], &crc.to_le_bytes());
}

#[test]
fn missing_key_corrupt_record_and_truncated_log() {
    let mut bc = Store::open(Vec::new());
    assert!(matches!(bc.get("nope"), Err(BitCaskError::KeyNotFound(k)) if k == "nope"));
    bc.set("a", b"1");
    bc.set("b", b"2");
    let mut corrupt = bc.log.clone();
    let n = corrupt.len();
    corrupt[n - 5] ^= 0xff;
    assert!(matches!(bc.state.get("b", &corrupt), Err(BitCaskError::CorruptEntry)));
    assert_eq!(bc.state.get("a", &corrupt).unwrap(), b"1");
    let truncated = &bc.log[..bc.log.len() - 2];
    assert!(matches!(bc.state.get("b", truncated), Err(BitCaskError::Io(_))));
}

#[test]
fn reopen_drops_deleted_keys_and_rejects_a_torn_record() {
    let mut bc = Store::open(Vec::new());
    bc.set("x", b"1");
    bc.set("y", b"2");
    bc.delete("x");
    bc.set("y", b"3");
    let reopened = Store::open(bc.log.clone());
    assert!(reopened.get("x").is_err());
    assert_eq!(reopened.get("y").unwrap(), b"3");
    let mut torn = bc.log.clone();
    torn.truncate(torn.len() - 1);
    assert!(matches!(BitCask::open(&torn), Err(BitCaskError::Io(_))));
    let mut short_tail = bc.log.clone();
    short_tail.extend_from_slice(&[1, 2, 3]);
    assert!(BitCask::open(&short_tail).is_ok());
}

#[test]
fn tombstone_layout_differs_from_an_empty_value() {
    let tomb = encode_tombstone("ab");
    assert_eq!(tomb.len(), 4 + 2 + 4 + 4);
    assert_eq!(&tomb[0..4], &[2, 0, 0, 0]);
    assert_eq!(&tomb[4..6], b"ab");
    assert_eq!(&tomb[6..10], &TOMBSTONE.to_le_bytes());
    assert_eq!(&tomb[10..14], &crc32fast::hash(&tomb[0..10]).to_le_bytes());
    let empty = encode_record("ab", b"");
    assert_eq!(&empty[6..10], &[0, 0, 0, 0]);
    assert_ne!(tomb, empty);
    let mut bc = Store::open(Vec::new());
    bc.set("k", b"v");
    let rec = bc.state.delete("k");
    assert_eq!(rec, encode_tombstone("k"));
}

#[test]
fn empty_value_survives_reopen() {
    let mut bc = Store::open(Vec::new());
    bc.set("e", b"");
    bc.set("gone", b"x");
    bc.delete("gone");
    assert_eq!(bc.get("e").unwrap(), b"");
    let reopened = Store::open(bc.log.clone());
    assert_eq!(reopened.get("e").unwrap(), b"");
    assert!(matches!(reopened.get("gone"), Err(BitCaskError::KeyNotFound(k)) if k == "gone"));
}

#[test]
fn reading_a_tombstone_reports_the_key_missing() {
    let mut bc = Store::open(Vec::new());
    bc.set("k", b"v");
    let state_before = BitCask::open(&bc.log).unwrap();
    bc.delete("k");
    assert!(matches!(state_before.get("k", &bc.log), Ok(v) if v == b"v"));
    let at = bc.log.len();
    let mut with_z = Store::open(bc.log.clone());
    with_z.set("z", b"1");
    let mut both = with_z.log.clone();
    both.truncate(at);
    both.extend_from_slice(&encode_tombstone("z"));
    assert!(matches!(with_z.state.get("z", &both), Err(BitCaskError::KeyNotFound(k)) if k == "z"));
}
