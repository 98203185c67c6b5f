//! A write-ahead log for Raft entries. Each record is
//! `[term: 8][index: 8][data_len: 4][data][crc: 4]`, integers little-endian,
//! the CRC-32 covering everything before it. Reading stops at a record cut
//! short or at the first record whose checksum does not match (a torn or
//! corrupt tail), keeping the entries before it.
use vstd::prelude::*;
use vstd::bytes::{
    spec_u32_from_le_bytes, spec_u32_to_le_bytes, spec_u64_from_le_bytes, spec_u64_to_le_bytes,
    u32_from_le_bytes, u32_to_le_bytes, u64_from_le_bytes, u64_to_le_bytes,
};
use crate::checksum::{crc32, crc32_of};

verus! {

/// One log entry.
#[derive(Debug, Clone, PartialEq)]
pub struct WalEntry {
    pub term: u64,
    pub index: u64,
    pub data: Vec<u8>,
}

/// An entry as plain values: (term, index, data).
pub type EntryView = (u64, u64, Seq<u8>);

impl WalEntry {
    pub open spec fn view_entry(&self) -> EntryView {
        (self.term, self.index, self.data@)
    }
}

/// The checksummed part of a record.
pub open spec fn payload(e: EntryView) -> Seq<u8> {
    spec_u64_to_le_bytes(e.0) + spec_u64_to_le_bytes(e.1) + spec_u32_to_le_bytes(e.2.len() as u32)
        + e.2
}

/// The bytes of one record.
pub open spec fn record(e: EntryView) -> Seq<u8> {
    payload(e) + spec_u32_to_le_bytes(crc32_of(payload(e)))
}

/// The bytes of a sequence of records.
pub open spec fn records(es: Seq<EntryView>) -> Seq<u8>
    decreases es.len(),
{
    if es.len() == 0 {
        Seq::empty()
    } else {
        records(es.drop_last()) + record(es.last())
    }
}

/// The entries that reading the bytes `b` yields: the entries of the
/// complete records from the start, up to the end of the bytes, a record
/// cut short (a torn write), or the first record whose checksum does not
/// match, whichever comes first.
pub open spec fn decode(b: Seq<u8>) -> Seq<EntryView>
    decreases b.len(),
{
    if b.len() < 24 {
        Seq::empty()
    } else {
        let n = spec_u32_from_le_bytes(b.subrange(16, 20)) as int;
        if b.len() < 24 + n {
            Seq::empty()
        } else if crc32_of(b.take(20 + n)) != spec_u32_from_le_bytes(b.subrange(20 + n, 24 + n)) {
            Seq::empty()
        } else {
            let e = (
                spec_u64_from_le_bytes(b.subrange(0, 8)),
                spec_u64_from_le_bytes(b.subrange(8, 16)),
                b.subrange(20, 20 + n),
            );
            seq![e] + decode(b.skip(24 + n))
        }
    }
}

/// Encodes one entry as a record.
pub fn encode_entry(entry: &WalEntry) -> (r: Vec<u8>)
    requires
        entry.data@.len() <= u32::MAX,
    ensures
        r@ == record(entry.view_entry()),
{
    let mut payload_bytes = u64_to_le_bytes(entry.term);
    let mut b = u64_to_le_bytes(entry.index);
    payload_bytes.append(&mut b);
    let mut b = u32_to_le_bytes(entry.data.len() as u32);
    payload_bytes.append(&mut b);
    let mut d = vstd::slice::slice_to_vec(entry.data.as_slice());
    payload_bytes.append(&mut d);
    let crc = crc32(payload_bytes.as_slice());
    let mut out = payload_bytes;
    let mut c = u32_to_le_bytes(crc);
    out.append(&mut c);
    proof {
        assert(out@ =~= record(entry.view_entry()));
    }
    out
}

/// Reads WAL records.
pub struct WalReader;

impl WalReader {
    /// Every entry of a log's bytes, stopping at the end, at a record cut
    /// short, or at the first record whose checksum does not match.
    pub fn read_all(bytes: &[u8]) -> (r: Vec<WalEntry>)
        ensures
            r@.map_values(|e: WalEntry| e.view_entry()) == decode(bytes@),
    {
        let mut entries: Vec<WalEntry> = Vec::new();
        let mut pos: usize = 0;
        let ghost b = bytes@;
        proof {
            assert(b.skip(0) =~= b);
            assert(entries@.map_values(|e: WalEntry| e.view_entry()) =~= Seq::<EntryView>::empty());
            assert(decode(b) =~= Seq::<EntryView>::empty() + decode(b));
        }
        loop
            invariant
                b == bytes@,
                pos <= b.len(),
                decode(b) == entries@.map_values(|e: WalEntry| e.view_entry()) + decode(b.skip(pos as int)),
            ensures
                entries@.map_values(|e: WalEntry| e.view_entry()) == decode(b),
            decreases b.len() - pos,
        {
            let ghost done = entries@.map_values(|e: WalEntry| e.view_entry());
            let ghost rest = b.skip(pos as int);
            let len = bytes.len();
            if len - pos < 24 {
                proof {
                    assert(decode(rest) == Seq::<EntryView>::empty());
                    assert(done + Seq::<EntryView>::empty() =~= done);
                }
                break;
            }
            let n = u32_from_le_bytes(&bytes[pos + 16..pos + 20]) as usize;
            proof {
                assert(rest.subrange(16, 20) =~= b.subrange(pos + 16, pos + 20));
            }
            if len - pos - 24 < n {
                proof {
                    assert(done + Seq::<EntryView>::empty() =~= done);
                }
                break;
            }
            let stored = u32_from_le_bytes(&bytes[pos + 20 + n..pos + 24 + n]);
            let crc = crc32(&bytes[pos..pos + 20 + n]);
            proof {
                assert(rest.subrange(20 + n, 24 + n) =~= b.subrange(pos + 20 + n, pos + 24 + n));
                assert(rest.take(20 + n) =~= b.subrange(pos as int, pos + 20 + n));
            }
            if crc != stored {
                proof {
                    assert(done + Seq::<EntryView>::empty() =~= done);
                }
                break;
            }
            let term = u64_from_le_bytes(&bytes[pos..pos + 8]);
            let index = u64_from_le_bytes(&bytes[pos + 8..pos + 16]);
            let data = vstd::slice::slice_to_vec(&bytes[pos + 20..pos + 20 + n]);
            proof {
                assert(rest.subrange(0, 8) =~= b.subrange(pos as int, pos + 8));
                assert(rest.subrange(8, 16) =~= b.subrange(pos + 8, pos + 16));
                assert(rest.subrange(20, 20 + n) =~= b.subrange(pos + 20, pos + 20 + n));
                assert(rest.skip(24 + n) =~= b.skip(pos + 24 + n));
            }
            let ghost e = (term, index, data@);
            entries.push(WalEntry { term, index, data });
            proof {
                let done2 = entries@.map_values(|e: WalEntry| e.view_entry());
                assert(done2 =~= done.push(e));
                assert(done + (seq![e] + decode(b.skip(pos + 24 + n))) =~= done.push(e) + decode(b.skip(pos + 24 + n)));
            }
            pos = pos + 24 + n;
        }
        entries
    }
}

proof fn lemma_decode_record(e: EntryView, tail: Seq<u8>)
    requires
        e.2.len() <= u32::MAX,
    ensures
        decode(record(e) + tail) == seq![e] + decode(tail),
{
    vstd::bytes::lemma_auto_spec_u32_to_from_le_bytes();
    vstd::bytes::lemma_auto_spec_u64_to_from_le_bytes();
    let b = record(e) + tail;
    let n = e.2.len() as int;
    let l8a = spec_u64_to_le_bytes(e.0);
    let l8b = spec_u64_to_le_bytes(e.1);
    let l4 = spec_u32_to_le_bytes(e.2.len() as u32);
    assert(b.subrange(0, 8) =~= l8a);
    assert(b.subrange(8, 16) =~= l8b);
    assert(b.subrange(16, 20) =~= l4);
    assert(b.subrange(20, 20 + n) =~= e.2);
    assert(b.take(20 + n) =~= payload(e));
    assert(b.subrange(20 + n, 24 + n) =~= spec_u32_to_le_bytes(crc32_of(payload(e))));
    assert(b.skip(24 + n) =~= tail);
}

/// Reading back a log gives exactly the entries that were written to it.
pub proof fn lemma_read_back_written(es: Seq<EntryView>)
    requires
        forall|i: int| 0 <= i < es.len() ==> (#[trigger] es[i]).2.len() <= u32::MAX,
    ensures
        decode(records(es)) == es,
{
    lemma_read_back_written_then(es, Seq::empty());
    assert(records(es) + Seq::<u8>::empty() =~= records(es));
    assert(decode(Seq::<u8>::empty()) == Seq::<EntryView>::empty());
    assert(es + Seq::<EntryView>::empty() =~= es);
}

/// Recovery after a crash: when the log holds complete records followed by
/// a record cut short by a torn write, reading it yields exactly the
/// entries of the complete records.
pub proof fn lemma_torn_tail_is_dropped(es: Seq<EntryView>, torn: EntryView, cut: int)
    requires
        forall|i: int| 0 <= i < es.len() ==> (#[trigger] es[i]).2.len() <= u32::MAX,
        torn.2.len() <= u32::MAX,
        0 <= cut < record(torn).len(),
    ensures
        decode(records(es) + record(torn).take(cut)) == es,
{
    vstd::bytes::lemma_auto_spec_u32_to_from_le_bytes();
    vstd::bytes::lemma_auto_spec_u64_to_from_le_bytes();
    let t = record(torn).take(cut);
    lemma_read_back_written_then(es, t);
    if t.len() >= 24 {
        let n = torn.2.len() as int;
        let p = payload(torn);
        let l4 = spec_u32_to_le_bytes(torn.2.len() as u32);
        assert(spec_u64_to_le_bytes(torn.0).len() == 8);
        assert(spec_u64_to_le_bytes(torn.1).len() == 8);
        assert(l4.len() == 4);
        assert(p.len() == 20 + n);
        assert(spec_u32_to_le_bytes(crc32_of(p)).len() == 4);
        assert(record(torn).len() == 24 + n);
        assert(p.subrange(16, 20) =~= l4);
        assert(t.subrange(16, 20) =~= l4);
    }
    assert(decode(t) == Seq::<EntryView>::empty());
    assert(es + Seq::<EntryView>::empty() =~= es);
}

/// Reading records followed by more bytes yields the records' entries
/// followed by what the rest yields.
pub proof fn lemma_read_back_written_then(es: Seq<EntryView>, tail: Seq<u8>)
    requires
        forall|i: int| 0 <= i < es.len() ==> (#[trigger] es[i]).2.len() <= u32::MAX,
    ensures
        decode(records(es) + tail) == es + decode(tail),
    decreases es.len(),
{
    if es.len() == 0 {
        assert(records(es) + tail =~= tail);
        assert(es + decode(tail) =~= decode(tail));
    } else {
        let init = es.drop_last();
        let last = es.last();
        assert(es[es.len() - 1] == last);
        assert forall|i: int| 0 <= i < init.len() implies (#[trigger] init[i]).2.len() <= u32::MAX by {
            assert(init[i] == es[i]);
        }
        assert(records(es) + tail =~= records(init) + (record(last) + tail));
        lemma_read_back_written_then(init, record(last) + tail);
        lemma_decode_record(last, tail);
        assert(init + (seq![last] + decode(tail)) =~= es + decode(tail));
    }
}

} // verus!
