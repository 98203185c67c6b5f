//! BitCask: an append-only log of key-value records with an in-memory index
//! (the key directory) from each key to the offset of its latest record.
//!
//! A record is `[key_len: 4][key][value_len: 4][value][crc: 4]`, lengths
//! and CRC little-endian, the CRC-32 covering everything before it. A
//! tombstone records a delete: its value length is `TOMBSTONE` and no value
//! bytes follow, so it differs from a record of an empty value; rebuilding
//! the index from the log drops its key. This module computes records, reads values out of the
//! log's bytes and rebuilds the index; reading and appending the log file
//! is the caller's part.
use vstd::prelude::*;
use vstd::bytes::{spec_u32_from_le_bytes, spec_u32_to_le_bytes, u32_from_le_bytes, u32_to_le_bytes};
use crate::checksum::{crc32, crc32_of};
use crate::strmap::StrMap;
use crate::text::{text_of_bytes, utf8_lossy};

verus! {

/// An I/O error value.
#[verifier::external_type_specification]
#[verifier::external_body]
pub struct ExIoError(std::io::Error);

/// Makes the error that `Read::read_exact` reports when the input ends
/// before the buffer is full (`ErrorKind::UnexpectedEof`). Nothing is
/// stated of the value.
#[verifier::external_body]
fn unexpected_eof() -> std::io::Error {
    std::io::Error::new(std::io::ErrorKind::UnexpectedEof, "failed to fill whole buffer")
}

/// Why an operation failed.
#[derive(Debug)]
pub enum BitCaskError {
    /// Reading the log failed (it ends inside the record).
    Io(std::io::Error),
    /// The record's checksum does not match.
    CorruptEntry,
    /// The key is not in the key directory.
    KeyNotFound(String),
}

/// The value-length field of a tombstone; no value bytes follow it.
pub const TOMBSTONE: u32 = 0xFFFF_FFFF;

/// The value part of a record: its length and bytes for a present value,
/// the tombstone marker alone for a delete.
pub open spec fn value_part(v: Option<Seq<u8>>) -> Seq<u8> {
    match v {
        Some(v) => spec_u32_to_le_bytes(v.len() as u32) + v,
        None => spec_u32_to_le_bytes(TOMBSTONE),
    }
}

/// The number of value bytes a record holds.
pub open spec fn value_len(v: Option<Seq<u8>>) -> int {
    match v {
        Some(v) => v.len() as int,
        None => 0,
    }
}

/// The checksummed part of a record.
pub open spec fn data_part(k: Seq<u8>, v: Option<Seq<u8>>) -> Seq<u8> {
    spec_u32_to_le_bytes(k.len() as u32) + k + value_part(v)
}

/// The bytes of a record for key bytes `k` and value `v` (`None` for a
/// tombstone).
pub open spec fn record(k: Seq<u8>, v: Option<Seq<u8>>) -> Seq<u8> {
    data_part(k, v) + spec_u32_to_le_bytes(crc32_of(data_part(k, v)))
}

/// The UTF-8 bytes of a key.
pub open spec fn key_bytes(k: Seq<char>) -> Seq<u8> {
    vstd::utf8::encode_utf8(k)
}

/// What reading the record at an offset finds.
pub enum Read {
    /// The log ends before the record does.
    Truncated,
    /// The record's checksum does not match.
    Corrupt,
    /// The record is a tombstone.
    Deleted,
    /// The record's value.
    Found(Seq<u8>),
}

pub open spec fn le32(log: Seq<u8>, at: int) -> int {
    spec_u32_from_le_bytes(log.subrange(at, at + 4)) as int
}

/// Where the value of the record whose value-length field is at `q` ends.
pub open spec fn value_end(log: Seq<u8>, q: int) -> int {
    if le32(log, q) == TOMBSTONE {
        q + 4
    } else {
        q + 4 + le32(log, q)
    }
}

/// Reads the record at offset `o` of the log.
pub open spec fn read_at(log: Seq<u8>, o: int) -> Read {
    if o + 4 > log.len() {
        Read::Truncated
    } else {
        let q = o + 4 + le32(log, o);
        if q + 4 > log.len() {
            Read::Truncated
        } else {
            let r = value_end(log, q);
            if r + 4 > log.len() {
                Read::Truncated
            } else if crc32_of(log.subrange(o, r)) as int != le32(log, r) {
                Read::Corrupt
            } else if le32(log, q) == TOMBSTONE {
                Read::Deleted
            } else {
                Read::Found(log.subrange(q + 4, r))
            }
        }
    }
}

/// The key directory after reading the log from offset `o` with `m` so far:
/// each record of a value sets its key to its offset, a tombstone removes
/// the key; reading stops when fewer than 4 bytes are left, and fails
/// (`None`) when the log ends inside a record. Checksums are not checked
/// here.
pub open spec fn rebuild(log: Seq<u8>, o: nat, m: Map<Seq<char>, u64>) -> Option<Map<Seq<char>, u64>>
    decreases log.len() - o,
{
    if o + 4 > log.len() {
        Some(m)
    } else {
        let q = o + 4 + le32(log, o as int);
        if q + 4 > log.len() {
            None
        } else {
            let r = value_end(log, q);
            if r + 4 > log.len() {
                None
            } else {
                let k = text_of_bytes(log.subrange(o + 4 as int, q));
                let m2 = if le32(log, q) == TOMBSTONE {
                    m.remove(k)
                } else {
                    m.insert(k, o as u64)
                };
                rebuild(log, (r + 4) as nat, m2)
            }
        }
    }
}

/// A write: a key, and `Some(value)` to set it or `None` to delete it.
pub type Write = (Seq<char>, Option<Seq<u8>>);

/// The record a write appends (a tombstone for a delete).
pub open spec fn write_record(w: Write) -> Seq<u8> {
    record(key_bytes(w.0), w.1)
}

/// The log after a series of writes from an empty log.
pub open spec fn log_of(ws: Seq<Write>) -> Seq<u8>
    decreases ws.len(),
{
    if ws.len() == 0 {
        Seq::empty()
    } else {
        log_of(ws.drop_last()) + write_record(ws.last())
    }
}

/// The key directory that `set` and `delete` keep over a series of writes.
pub open spec fn offsets_after(ws: Seq<Write>) -> Map<Seq<char>, u64>
    decreases ws.len(),
{
    if ws.len() == 0 {
        Map::empty()
    } else {
        let m = offsets_after(ws.drop_last());
        let w = ws.last();
        match w.1 {
            Some(v) => m.insert(w.0, log_of(ws.drop_last()).len() as u64),
            None => m.remove(w.0),
        }
    }
}

/// The value of the last write to `k`: `None` when it was a delete or there
/// is none.
pub open spec fn latest(ws: Seq<Write>, k: Seq<char>) -> Option<Seq<u8>>
    decreases ws.len(),
{
    if ws.len() == 0 {
        None
    } else if ws.last().0 == k {
        ws.last().1
    } else {
        latest(ws.drop_last(), k)
    }
}

/// Every key and value fits the record format.
pub open spec fn writes_fit(ws: Seq<Write>) -> bool {
    forall|i: int|
        0 <= i < ws.len() ==> key_bytes((#[trigger] ws[i]).0).len() <= u32::MAX && match ws[i].1 {
            Some(v) => v.len() < u32::MAX,
            None => true,
        }
}

/// A value that fits the record format: its length is below the
/// tombstone marker.
pub open spec fn value_fits(v: Option<Seq<u8>>) -> bool {
    v matches Some(vv) ==> vv.len() < u32::MAX
}

proof fn lemma_writes_fit_prefix(ws: Seq<Write>)
    requires
        ws.len() > 0,
        writes_fit(ws),
    ensures
        writes_fit(ws.drop_last()),
        key_bytes(ws.last().0).len() <= u32::MAX,
        value_fits(ws.last().1),
{
    assert(ws[ws.len() - 1] == ws.last());
    assert forall|i: int| 0 <= i < ws.drop_last().len() implies key_bytes((#[trigger] ws.drop_last()[i]).0).len()
        <= u32::MAX && match ws.drop_last()[i].1 {
        Some(v) => v.len() < u32::MAX,
        None => true,
    } by {
        assert(ws.drop_last()[i] == ws[i]);
    }
}

proof fn lemma_log_len_grows(ws: Seq<Write>)
    ensures
        ws.len() > 0 ==> log_of(ws.drop_last()).len() <= log_of(ws).len(),
{
}

/// The fields of a record placed at offset `o` of `x`.
proof fn lemma_record_fields(x: Seq<u8>, o: int, k: Seq<u8>, v: Option<Seq<u8>>)
    requires
        0 <= o,
        k.len() <= u32::MAX,
        value_fits(v),
        o + record(k, v).len() <= x.len(),
        x.subrange(o, o + record(k, v).len()) == record(k, v),
    ensures
        record(k, v).len() == 12 + k.len() + value_len(v),
        le32(x, o) == k.len(),
        x.subrange(o + 4, o + 4 + k.len()) == k,
        le32(x, o + 4 + k.len()) == TOMBSTONE <==> v is None,
        value_end(x, o + 4 + k.len()) == o + 8 + k.len() + value_len(v),
        v matches Some(vv) ==> x.subrange(o + 8 + k.len(), o + 8 + k.len() + vv.len()) == vv,
        x.subrange(o, o + 8 + k.len() + value_len(v)) == data_part(k, v),
        le32(x, o + 8 + k.len() + value_len(v)) == crc32_of(data_part(k, v)),
{
    vstd::bytes::lemma_auto_spec_u32_to_from_le_bytes();
    let r = record(k, v);
    let kl = k.len() as int;
    let vl = value_len(v);
    let vp = value_part(v);
    assert(vp.len() == 4 + vl);
    assert(r.len() == 12 + kl + vl);
    assert(x.subrange(o, o + 4) =~= r.subrange(0, 4));
    assert(r.subrange(0, 4) =~= spec_u32_to_le_bytes(kl as u32));
    assert(x.subrange(o + 4, o + 4 + kl) =~= r.subrange(4, 4 + kl));
    assert(r.subrange(4, 4 + kl) =~= k);
    assert(x.subrange(o + 4 + kl, o + 8 + kl) =~= r.subrange(4 + kl, 8 + kl));
    assert(r.subrange(4 + kl, 8 + kl) =~= vp.subrange(0, 4));
    match v {
        Some(vv) => {
            assert(vp.subrange(0, 4) =~= spec_u32_to_le_bytes(vv.len() as u32));
            assert(x.subrange(o + 8 + kl, o + 8 + kl + vl) =~= r.subrange(8 + kl, 8 + kl + vl));
            assert(r.subrange(8 + kl, 8 + kl + vl) =~= vv);
        },
        None => {
            assert(vp.subrange(0, 4) =~= spec_u32_to_le_bytes(TOMBSTONE));
        },
    }
    assert(x.subrange(o, o + 8 + kl + vl) =~= r.subrange(0, 8 + kl + vl));
    assert(r.subrange(0, 8 + kl + vl) =~= data_part(k, v));
    assert(x.subrange(o + 8 + kl + vl, o + 12 + kl + vl) =~= r.subrange(8 + kl + vl, 12 + kl + vl));
    assert(r.subrange(8 + kl + vl, 12 + kl + vl) =~= spec_u32_to_le_bytes(crc32_of(data_part(k, v))));
}

/// Reading at the offset where a record was appended gives back its value,
/// or finds the tombstone, whatever follows it.
pub proof fn lemma_read_back(prefix: Seq<u8>, k: Seq<u8>, v: Option<Seq<u8>>, tail: Seq<u8>)
    requires
        k.len() <= u32::MAX,
        value_fits(v),
    ensures
        read_at(prefix + record(k, v) + tail, prefix.len() as int) == match v {
            Some(vv) => Read::Found(vv),
            None => Read::Deleted,
        },
{
    let x = prefix + record(k, v) + tail;
    let o = prefix.len() as int;
    vstd::bytes::lemma_auto_spec_u32_to_from_le_bytes();
    assert(value_part(v).len() == 4 + value_len(v));
    assert(record(k, v).len() == 12 + k.len() + value_len(v));
    assert(x.subrange(o, o + record(k, v).len()) =~= record(k, v));
    lemma_record_fields(x, o, k, v);
}

proof fn lemma_read_extend(l: Seq<u8>, t: Seq<u8>, o: int)
    requires
        0 <= o,
        read_at(l, o) is Found,
    ensures
        read_at(l + t, o) == read_at(l, o),
{
    let x = l + t;
    let q = o + 4 + le32(l, o);
    assert(x.subrange(o, o + 4) =~= l.subrange(o, o + 4));
    assert(x.subrange(q, q + 4) =~= l.subrange(q, q + 4));
    let r = value_end(l, q);
    assert(x.subrange(r, r + 4) =~= l.subrange(r, r + 4));
    assert(x.subrange(o, r) =~= l.subrange(o, r));
    assert(x.subrange(q + 4, r) =~= l.subrange(q + 4, r));
}

/// After a series of writes, a key is in the key directory exactly when its
/// last write set it, and reading at its offset gives the value last set.
pub proof fn lemma_latest_value(ws: Seq<Write>, k: Seq<char>)
    requires
        writes_fit(ws),
        log_of(ws).len() <= u64::MAX,
    ensures
        offsets_after(ws).contains_key(k) <==> latest(ws, k) is Some,
        latest(ws, k) matches Some(v) ==> read_at(log_of(ws), offsets_after(ws)[k] as int) == Read::Found(v),
    decreases ws.len(),
{
    if ws.len() > 0 {
        let init = ws.drop_last();
        let w = ws.last();
        lemma_writes_fit_prefix(ws);
        lemma_log_len_grows(ws);
        lemma_latest_value(init, k);
        let l0 = log_of(init);
        let rec = write_record(w);
        if w.0 == k {
            if let Some(v) = w.1 {
                lemma_read_back(l0, key_bytes(k), w.1, Seq::empty());
                assert(l0 + rec + Seq::<u8>::empty() =~= log_of(ws));
            }
        } else if let Some(v) = latest(init, k) {
            lemma_read_extend(l0, rec, offsets_after(init)[k] as int);
        }
    }
}

/// Rebuilding the key directory over whole records: each record applied in
/// turn, ending where the records end.
proof fn lemma_rebuild_writes(ws: Seq<Write>, tail: Seq<u8>)
    requires
        writes_fit(ws),
        log_of(ws).len() <= u64::MAX,
    ensures
        rebuild(log_of(ws) + tail, 0, Map::empty()) == rebuild(
            log_of(ws) + tail,
            log_of(ws).len(),
            offsets_after(ws),
        ),
    decreases ws.len(),
{
    if ws.len() > 0 {
        let init = ws.drop_last();
        let w = ws.last();
        lemma_writes_fit_prefix(ws);
        lemma_log_len_grows(ws);
        assert(ws[ws.len() - 1] == w);
        let l0 = log_of(init);
        let rec = write_record(w);
        let x = log_of(ws) + tail;
        assert(l0 + (rec + tail) =~= x);
        lemma_rebuild_writes(init, rec + tail);
        let kb = key_bytes(w.0);
        let o = l0.len() as int;
        assert(x.subrange(o, o + rec.len()) =~= rec);
        lemma_record_fields(x, o, kb, w.1);
        vstd::utf8::encode_utf8_valid_utf8(w.0);
        vstd::utf8::encode_utf8_decode_utf8(w.0);
        assert(text_of_bytes(kb) == w.0);
        assert(log_of(ws).len() == o + 12 + kb.len() + value_len(w.1));
    }
}

/// Reopening a log written by a series of sets and deletes rebuilds the
/// key directory that the writes kept in memory.
pub proof fn lemma_reopen_restores_offsets(ws: Seq<Write>)
    requires
        writes_fit(ws),
        log_of(ws).len() <= u64::MAX,
    ensures
        rebuild(log_of(ws), 0, Map::empty()) == Some(offsets_after(ws)),
{
    lemma_rebuild_writes(ws, Seq::empty());
    assert(log_of(ws) + Seq::<u8>::empty() =~= log_of(ws));
}

/// Appends the CRC-32 of `data` to it.
fn seal(data: Vec<u8>) -> (out: Vec<u8>)
    ensures
        out@ == data@ + spec_u32_to_le_bytes(crc32_of(data@)),
{
    let crc = crc32(data.as_slice());
    let mut c = u32_to_le_bytes(crc);
    let mut out = data;
    out.append(&mut c);
    out
}

/// The record for `key` and `value`.
pub fn encode_record(key: &str, value: &[u8]) -> (r: Vec<u8>)
    requires
        key_bytes(key@).len() <= u32::MAX,
        value@.len() < u32::MAX,
    ensures
        r@ == record(key_bytes(key@), Some(value@)),
{
    let kb = key.as_bytes();
    let mut data = u32_to_le_bytes(kb.len() as u32);
    let mut k = vstd::slice::slice_to_vec(kb);
    data.append(&mut k);
    let mut vl = u32_to_le_bytes(value.len() as u32);
    data.append(&mut vl);
    let mut v = vstd::slice::slice_to_vec(value);
    data.append(&mut v);
    proof {
        assert(data@ =~= data_part(key_bytes(key@), Some(value@)));
    }
    seal(data)
}

/// The tombstone record for `key`.
pub fn encode_tombstone(key: &str) -> (r: Vec<u8>)
    requires
        key_bytes(key@).len() <= u32::MAX,
    ensures
        r@ == record(key_bytes(key@), None),
{
    let kb = key.as_bytes();
    let mut data = u32_to_le_bytes(kb.len() as u32);
    let mut k = vstd::slice::slice_to_vec(kb);
    data.append(&mut k);
    let mut vl = u32_to_le_bytes(TOMBSTONE);
    data.append(&mut vl);
    proof {
        assert(data@ =~= data_part(key_bytes(key@), None));
    }
    seal(data)
}

fn read_u32(log: &[u8], at: usize) -> (n: usize)
    requires
        at + 4 <= log@.len(),
    ensures
        n == le32(log@, at as int),
{
    let _len = log.len();
    let n = u32_from_le_bytes(&log[at..at + 4]);
    n as usize
}

/// The key directory and the log's length.
pub struct BitCask {
    keydir: StrMap<u64>,
    end: u64,
}

impl BitCask {
    /// Each key's latest record offset.
    pub closed spec fn offsets(&self) -> Map<Seq<char>, u64> {
        self.keydir@
    }

    /// The length of the log, where the next record goes.
    pub closed spec fn log_len(&self) -> u64 {
        self.end
    }

    pub closed spec fn wf(&self) -> bool {
        self.keydir.wf()
    }

    /// Opens a store over an existing log (empty for a new one), rebuilding
    /// the key directory from it.
    pub fn open(log: &[u8]) -> (r: Result<BitCask, BitCaskError>)
        ensures
            match rebuild(log@, 0, Map::empty()) {
                Some(m) => r matches Ok(b) && b.wf() && b.offsets() == m && b.log_len() == log@.len(),
                None => r matches Err(BitCaskError::Io(_)),
            },
    {
        match Self::rebuild_keydir(log) {
            Ok(keydir) => Ok(BitCask { keydir, end: log.len() as u64 }),
            Err(e) => Err(e),
        }
    }

    /// The key directory of a log.
    pub fn rebuild_keydir(log: &[u8]) -> (r: Result<StrMap<u64>, BitCaskError>)
        ensures
            match rebuild(log@, 0, Map::empty()) {
                Some(m) => r matches Ok(kd) && kd.wf() && kd@ == m,
                None => r matches Err(BitCaskError::Io(_)),
            },
    {
        let ghost b = log@;
        let len = log.len();
        let mut keydir: StrMap<u64> = StrMap::new();
        let mut o: usize = 0;
        while len - o >= 4
            invariant
                b == log@,
                len == b.len(),
                o <= len,
                keydir.wf(),
                rebuild(b, 0, Map::empty()) == rebuild(b, o as nat, keydir@),
            decreases len - o,
        {
            let kl = read_u32(log, o);
            if len - o - 4 < kl || len - o - 4 - kl < 4 {
                return Err(BitCaskError::Io(unexpected_eof()));
            }
            let q = o + 4 + kl;
            let vl = read_u32(log, q);
            let tombstone = vl == TOMBSTONE as usize;
            let dl = if tombstone { 0 } else { vl };
            if len - q - 4 < dl || len - q - 4 - dl < 4 {
                return Err(BitCaskError::Io(unexpected_eof()));
            }
            let r = q + 4 + dl;
            let key = utf8_lossy(&log[o + 4..q]);
            if tombstone {
                keydir.remove(key.as_str());
            } else {
                keydir.insert(key, o as u64);
            }
            o = r + 4;
        }
        Ok(keydir)
    }

    /// Appends-to-be: the record for `key` and `value`, which the caller
    /// appends to the log; the key now maps to its offset (the old log
    /// length).
    pub fn set(&mut self, key: &str, value: &[u8]) -> (rec: Vec<u8>)
        requires
            old(self).wf(),
            key_bytes(key@).len() <= u32::MAX,
            value@.len() < u32::MAX,
            old(self).log_len() + 12 + key_bytes(key@).len() + value@.len() <= u64::MAX,
        ensures
            final(self).wf(),
            rec@ == record(key_bytes(key@), Some(value@)),
            final(self).offsets() == old(self).offsets().insert(key@, old(self).log_len()),
            final(self).log_len() == old(self).log_len() + rec@.len(),
    {
        let rec = encode_record(key, value);
        proof {
            vstd::bytes::lemma_auto_spec_u32_to_from_le_bytes();
            assert(value_part(Some(value@)).len() == 4 + value@.len());
            assert(rec@.len() == 12 + key_bytes(key@).len() + value@.len());
        }
        let offset = self.end;
        self.keydir.insert(String::from_str(key), offset);
        self.end = self.end + rec.len() as u64;
        rec
    }

    /// The tombstone record for `key`, which the caller appends to the log;
    /// the key leaves the key directory.
    pub fn delete(&mut self, key: &str) -> (rec: Vec<u8>)
        requires
            old(self).wf(),
            key_bytes(key@).len() <= u32::MAX,
            old(self).log_len() + 12 + key_bytes(key@).len() <= u64::MAX,
        ensures
            final(self).wf(),
            rec@ == record(key_bytes(key@), None),
            final(self).offsets() == old(self).offsets().remove(key@),
            final(self).log_len() == old(self).log_len() + rec@.len(),
    {
        let rec = encode_tombstone(key);
        proof {
            vstd::bytes::lemma_auto_spec_u32_to_from_le_bytes();
            assert(value_part(None).len() == 4);
            assert(rec@.len() == 12 + key_bytes(key@).len());
        }
        self.keydir.remove(key);
        self.end = self.end + rec.len() as u64;
        rec
    }

    /// The value of `key`, read from the log's bytes at the key's offset and
    /// checked against the record's checksum.
    pub fn get(&self, key: &str, log: &[u8]) -> (r: Result<Vec<u8>, BitCaskError>)
        requires
            self.wf(),
        ensures
            !self.offsets().contains_key(key@) ==> (r matches Err(BitCaskError::KeyNotFound(k)) && k@ == key@),
            self.offsets().contains_key(key@) ==> match read_at(log@, self.offsets()[key@] as int) {
                Read::Truncated => r matches Err(BitCaskError::Io(_)),
                Read::Corrupt => r matches Err(BitCaskError::CorruptEntry),
                Read::Deleted => r matches Err(BitCaskError::KeyNotFound(k)) && k@ == key@,
                Read::Found(v) => r matches Ok(val) && val@ == v,
            },
    {
        let ghost b = log@;
        let offset = match self.keydir.get(key) {
            Some(o) => *o,
            None => {
                return Err(BitCaskError::KeyNotFound(String::from_str(key)));
            },
        };
        let len = log.len();
        if offset > len as u64 || len - (offset as usize) < 4 {
            return Err(BitCaskError::Io(unexpected_eof()));
        }
        let p = offset as usize;
        let kl = read_u32(log, p);
        if len - p - 4 < kl || len - p - 4 - kl < 4 {
            return Err(BitCaskError::Io(unexpected_eof()));
        }
        let q = p + 4 + kl;
        let vl = read_u32(log, q);
        let tombstone = vl == TOMBSTONE as usize;
        let dl = if tombstone { 0 } else { vl };
        if len - q - 4 < dl || len - q - 4 - dl < 4 {
            return Err(BitCaskError::Io(unexpected_eof()));
        }
        let r = q + 4 + dl;
        let stored = read_u32(log, r);
        let crc = crc32(&log[p..r]);
        if crc as usize != stored {
            return Err(BitCaskError::CorruptEntry);
        }
        if tombstone {
            return Err(BitCaskError::KeyNotFound(String::from_str(key)));
        }
        let value = vstd::slice::slice_to_vec(&log[q + 4..r]);
        proof {
            assert(value@ =~= b.subrange(q + 4, r as int));
        }
        Ok(value)
    }
}

} // verus!
