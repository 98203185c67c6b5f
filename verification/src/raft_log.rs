//! Raft log replication: a 1-based log of entries and the AppendEntries
//! consistency check.
use vstd::prelude::*;

verus! {

/// One replicated log entry.
#[derive(Debug, Clone, PartialEq)]
pub struct LogEntry {
    pub term: u64,
    pub index: u64,
    pub command: String,
}

/// A replicated log; positions are 1-based.
pub struct RaftLog {
    entries: Vec<LogEntry>,
}

/// The entry at 1-based position `index`, if there is one.
pub open spec fn entry_at(log: Seq<LogEntry>, index: u64) -> Option<LogEntry> {
    if 1 <= index <= log.len() {
        Some(log[index - 1])
    } else {
        None
    }
}

/// The term of the entry at `index`, or 0 where there is none.
pub open spec fn term_of(log: Seq<LogEntry>, index: u64) -> u64 {
    match entry_at(log, index) {
        Some(e) => e.term,
        None => 0,
    }
}

/// Whether a leader's (prev_index, prev_term) matches this log.
pub open spec fn matches_prev(log: Seq<LogEntry>, prev_index: u64, prev_term: u64) -> bool {
    prev_index == 0 || term_of(log, prev_index) == prev_term
}

/// The log after AppendEntries: `None` when the consistency check fails,
/// else the log cut after `prev_index` with the new entries appended.
pub open spec fn after_append_entries(
    log: Seq<LogEntry>,
    prev_index: u64,
    prev_term: u64,
    entries: Seq<LogEntry>,
) -> Option<Seq<LogEntry>> {
    if matches_prev(log, prev_index, prev_term) {
        Some(
            log.take(
                if prev_index < log.len() {
                    prev_index as int
                } else {
                    log.len() as int
                },
            ) + entries,
        )
    } else {
        None
    }
}

impl View for RaftLog {
    type V = Seq<LogEntry>;

    closed spec fn view(&self) -> Seq<LogEntry> {
        self.entries@
    }
}

impl RaftLog {
    /// An empty log.
    pub fn new() -> (l: RaftLog)
        ensures
            l@ == Seq::<LogEntry>::empty(),
    {
        RaftLog { entries: Vec::new() }
    }

    /// Appends an entry at the next position and returns that position.
    pub fn append(&mut self, term: u64, command: String) -> (index: u64)
        requires
            old(self)@.len() < u64::MAX,
        ensures
            index == old(self)@.len() + 1,
            final(self)@ == old(self)@.push(LogEntry { term, index, command }),
    {
        let index = self.entries.len() as u64 + 1;
        self.entries.push(LogEntry { term, index, command });
        index
    }

    /// The entry at 1-based position `index`.
    pub fn get(&self, index: u64) -> (r: Option<&LogEntry>)
        ensures
            r == match entry_at(self@, index) {
                Some(e) => Some(&e),
                None => None::<&LogEntry>,
            },
    {
        if index == 0 {
            return None;
        }
        if index - 1 < self.entries.len() as u64 {
            Some(&self.entries[(index - 1) as usize])
        } else {
            None
        }
    }

    /// The term at `index`, or 0 where the log has no entry.
    pub fn term_at(&self, index: u64) -> (t: u64)
        ensures
            t == term_of(self@, index),
    {
        match self.get(index) {
            Some(e) => e.term,
            None => 0,
        }
    }

    /// The position of the last entry (0 for an empty log).
    pub fn last_index(&self) -> (i: u64)
        ensures
            i == self@.len(),
    {
        self.entries.len() as u64
    }

    /// AppendEntries: refuses (returns false, log unchanged) when the entry
    /// at `prev_index` does not have `prev_term`; otherwise drops every entry
    /// after `prev_index`, appends `entries`, and returns true.
    pub fn append_entries(&mut self, prev_index: u64, prev_term: u64, entries: Vec<LogEntry>) -> (ok:
        bool)
        ensures
            ok == matches_prev(old(self)@, prev_index, prev_term),
            ok ==> after_append_entries(old(self)@, prev_index, prev_term, entries@) == Some(
                final(self)@,
            ),
            !ok ==> final(self)@ == old(self)@,
    {
        if prev_index > 0 && self.term_at(prev_index) != prev_term {
            return false;
        }
        let keep: usize = if prev_index < self.entries.len() as u64 {
            prev_index as usize
        } else {
            self.entries.len()
        };
        self.entries.truncate(keep);
        let mut entries = entries;
        self.entries.append(&mut entries);
        true
    }
}

/// A successful AppendEntries leaves the log matching the leader's: the
/// entry at `prev_index` still has `prev_term`, everything before it is
/// kept, and the new entries follow it.
pub proof fn lemma_append_entries_matches_leader(
    log: Seq<LogEntry>,
    prev_index: u64,
    prev_term: u64,
    entries: Seq<LogEntry>,
)
    requires
        after_append_entries(log, prev_index, prev_term, entries) is Some,
        prev_index <= log.len(),
    ensures
        ({
            let new_log = after_append_entries(log, prev_index, prev_term, entries)->0;
            &&& new_log.len() == prev_index + entries.len()
            &&& new_log.take(prev_index as int) == log.take(prev_index as int)
            &&& new_log.skip(prev_index as int) == entries
            &&& matches_prev(new_log, prev_index, prev_term)
        }),
{
    let new_log = after_append_entries(log, prev_index, prev_term, entries)->0;
    assert(new_log.take(prev_index as int) =~= log.take(prev_index as int));
    assert(new_log.skip(prev_index as int) =~= entries);
}

/// Repeating an accepted AppendEntries (a retried RPC) changes nothing more.
pub proof fn lemma_append_entries_idempotent(
    log: Seq<LogEntry>,
    prev_index: u64,
    prev_term: u64,
    entries: Seq<LogEntry>,
)
    requires
        after_append_entries(log, prev_index, prev_term, entries) is Some,
        prev_index <= log.len(),
    ensures
        after_append_entries(
            after_append_entries(log, prev_index, prev_term, entries)->0,
            prev_index,
            prev_term,
            entries,
        ) == after_append_entries(log, prev_index, prev_term, entries),
{
    let once = after_append_entries(log, prev_index, prev_term, entries)->0;
    if prev_index > 0 {
        assert(once[prev_index - 1] == log[prev_index - 1]);
    }
    if prev_index < once.len() {
        assert(once.take(prev_index as int) + entries =~= once);
    } else {
        assert(once.take(once.len() as int) + entries =~= once) by {
            assert(entries.len() == 0);
        }
    }
}

/// The AppendEntries consistency check, in terms of the log's entries: a
/// request with `prev_index` 0 is always accepted; one whose `prev_index`
/// names an entry of the log is accepted exactly when that entry has term
/// `prev_term`; one of a real term (above 0) whose `prev_index` lies past
/// the end of the log is refused, while one of term 0 there finds the
/// missing entry's term 0 and appends at the end. On acceptance the first `prev_index`
/// entries stay and the new entries follow them, the first at position
/// `prev_index + 1`.
pub proof fn lemma_append_entries_check(
    log: Seq<LogEntry>,
    prev_index: u64,
    prev_term: u64,
    entries: Seq<LogEntry>,
)
    ensures
        prev_index == 0 ==> after_append_entries(log, prev_index, prev_term, entries) == Some(entries),
        1 <= prev_index <= log.len() ==> (after_append_entries(log, prev_index, prev_term, entries) is Some
            <==> log[prev_index - 1].term == prev_term),
        prev_index > log.len() && prev_term > 0 ==> after_append_entries(
            log,
            prev_index,
            prev_term,
            entries,
        ) is None,
        prev_index > log.len() && prev_term == 0 ==> after_append_entries(log, prev_index, prev_term, entries)
            == Some(log + entries),
        prev_index <= log.len() && after_append_entries(log, prev_index, prev_term, entries) is Some ==> ({
            let new_log = after_append_entries(log, prev_index, prev_term, entries)->0;
            &&& new_log.len() == prev_index + entries.len()
            &&& forall|k: int| 0 <= k < prev_index ==> new_log[k] == log[k]
            &&& forall|k: int| 0 <= k < entries.len() ==> new_log[prev_index + k] == entries[k]
        }),
{
    assert(log.take(0) + entries =~= entries);
    assert(log.take(log.len() as int) =~= log);
}

} // verus!
