//! Raft log compaction: a prefix of the log is folded into a key-value
//! snapshot (by applying its `SET key value` commands) and dropped.
use vstd::prelude::*;
use crate::text::{chars_of, has_prefix, split_n, splitn, starts_with};

verus! {

/// One log entry with its logical index.
#[derive(Debug, Clone)]
pub struct LogEntry {
    pub index: u64,
    pub term: u64,
    pub command: String,
}

/// A log whose entries up to `snapshot_index` have been compacted.
pub struct CompactableLog {
    entries: Vec<LogEntry>,
    snapshot_index: u64,
    snapshot_state: Vec<(String, String)>,
}

/// A snapshot as (key, value) pairs.
pub type State = Seq<(Seq<char>, Seq<char>)>;

/// The abstract snapshot of a vector of string pairs.
pub open spec fn state_of(v: Seq<(String, String)>) -> State {
    v.map_values(|p: (String, String)| (p.0@, p.1@))
}

/// The (key, value) that a command sets: a command that starts with `SET `
/// and splits (on spaces, at most twice) into three parts.
pub open spec fn set_pair(cmd: Seq<char>) -> Option<(Seq<char>, Seq<char>)> {
    let parts = splitn(cmd, 3, ' ');
    if starts_with(cmd, "SET "@) && parts.len() == 3 {
        Some((parts[1], parts[2]))
    } else {
        None
    }
}

/// Position of the first pair with `key`, or `state.len()`.
pub open spec fn key_position(state: State, key: Seq<char>) -> int
    decreases state.len(),
{
    if state.len() == 0 {
        0
    } else if state[0].0 == key {
        0
    } else {
        1 + key_position(state.drop_first(), key)
    }
}

/// Sets `key` to `value`: the first pair with that key is updated, or a pair
/// is added at the end.
pub open spec fn upsert(state: State, key: Seq<char>, value: Seq<char>) -> State {
    let i = key_position(state, key);
    if i < state.len() {
        state.update(i, (key, value))
    } else {
        state.push((key, value))
    }
}

/// The snapshot after one command.
pub open spec fn apply_command(state: State, cmd: Seq<char>) -> State {
    match set_pair(cmd) {
        Some((k, v)) => upsert(state, k, v),
        None => state,
    }
}

/// The snapshot after the commands of `entries`, in order.
pub open spec fn apply_entries(state: State, entries: Seq<LogEntry>) -> State
    decreases entries.len(),
{
    if entries.len() == 0 {
        state
    } else {
        apply_command(apply_entries(state, entries.drop_last()), entries.last().command@)
    }
}

/// The entry with logical `index` in a log compacted up to `snapshot_index`.
pub open spec fn entry_with_index(entries: Seq<LogEntry>, snapshot_index: u64, index: u64) -> Option<
    LogEntry,
> {
    if index <= snapshot_index || index - snapshot_index - 1 >= entries.len() {
        None
    } else {
        Some(entries[index - snapshot_index - 1])
    }
}

proof fn lemma_key_position(state: State, key: Seq<char>)
    ensures
        0 <= key_position(state, key) <= state.len(),
        key_position(state, key) < state.len() ==> state[key_position(state, key)].0 == key,
        forall|j: int| 0 <= j < key_position(state, key) ==> state[j].0 != key,
    decreases state.len(),
{
    if state.len() > 0 && state[0].0 != key {
        lemma_key_position(state.drop_first(), key);
        assert forall|j: int| 0 <= j < key_position(state, key) implies state[j].0 != key by {
            if j > 0 {
                assert(state[j] == state.drop_first()[j - 1]);
            }
        }
    }
}

proof fn lemma_key_position_unique(state: State, key: Seq<char>, i: int)
    requires
        0 <= i <= state.len(),
        i < state.len() ==> state[i].0 == key,
        forall|j: int| 0 <= j < i ==> state[j].0 != key,
    ensures
        key_position(state, key) == i,
    decreases state.len(),
{
    if state.len() > 0 && i > 0 {
        assert forall|j: int| 0 <= j < i - 1 implies state.drop_first()[j].0 != key by {
            assert(state.drop_first()[j] == state[j + 1]);
        }
        lemma_key_position_unique(state.drop_first(), key, i - 1);
    }
}

/// Sets `key` to `value` in a snapshot vector.
fn upsert_pair(state: &mut Vec<(String, String)>, key: String, value: String)
    ensures
        state_of(final(state)@) == upsert(state_of(old(state)@), key@, value@),
{
    let ghost s0 = state_of(state@);
    let mut i: usize = 0;
    while i < state.len() && state[i].0 != key
        invariant
            i <= state@.len(),
            state_of(state@) == s0,
            forall|j: int| 0 <= j < i ==> s0[j].0 != key@,
        decreases state@.len() - i,
    {
        i = i + 1;
    }
    proof {
        lemma_key_position_unique(s0, key@, i as int);
    }
    if i < state.len() {
        state.set(i, (key, value));
        proof {
            assert(state_of(state@) =~= s0.update(i as int, (key@, value@)));
        }
    } else {
        state.push((key, value));
        proof {
            assert(state_of(state@) =~= s0.push((key@, value@)));
        }
    }
}

/// Applies one command to a snapshot vector.
fn apply_to_snapshot(state: &mut Vec<(String, String)>, cmd: &String)
    ensures
        state_of(final(state)@) == apply_command(state_of(old(state)@), cmd@),
{
    let chars = chars_of(cmd.as_str());
    if has_prefix(&chars, "SET ") {
        let parts = split_n(cmd.as_str(), 3, ' ');
        proof {
            assert(parts@.map_values(|p: String| p@).len() == parts@.len());
        }
        if parts.len() == 3 {
            let key = parts[1].clone();
            let value = parts[2].clone();
            proof {
                assert(parts@.map_values(|p: String| p@)[1] == parts@[1]@);
                assert(parts@.map_values(|p: String| p@)[2] == parts@[2]@);
            }
            upsert_pair(state, key, value);
        }
    }
}

impl CompactableLog {
    /// The entries not yet compacted.
    pub closed spec fn entries(&self) -> Seq<LogEntry> {
        self.entries@
    }

    /// The logical index of the last compacted entry.
    pub closed spec fn snap_index(&self) -> u64 {
        self.snapshot_index
    }

    /// The snapshot of the compacted prefix.
    pub closed spec fn state(&self) -> State {
        state_of(self.snapshot_state@)
    }

    /// Logical indices of all entries fit in a `u64`, and the entry at
    /// position `k` carries the logical index `snap_index() + k + 1`.
    pub open spec fn wf(&self) -> bool {
        &&& self.snap_index() + self.entries().len() <= u64::MAX
        &&& forall|k: int|
            0 <= k < self.entries().len() ==> (#[trigger] self.entries()[k]).index == self.snap_index() + k + 1
    }

    /// The logical index of the last entry, compacted or not.
    pub open spec fn last_index(&self) -> nat {
        (self.snap_index() + self.entries().len()) as nat
    }

    /// An empty log with an empty snapshot.
    pub fn new() -> (l: CompactableLog)
        ensures
            l.wf(),
            l.entries() == Seq::<LogEntry>::empty(),
            l.snap_index() == 0,
            l.state() == State::empty(),
    {
        let l = CompactableLog { entries: Vec::new(), snapshot_index: 0, snapshot_state: Vec::new() };
        proof {
            assert(l.state() =~= State::empty());
        }
        l
    }

    /// Appends a command at the next logical index.
    pub fn append(&mut self, term: u64, command: String)
        requires
            old(self).wf(),
            old(self).snap_index() + old(self).entries().len() < u64::MAX,
        ensures
            final(self).wf(),
            final(self).entries() == old(self).entries().push(
                LogEntry {
                    index: (old(self).snap_index() + old(self).entries().len() + 1) as u64,
                    term,
                    command,
                },
            ),
            final(self).snap_index() == old(self).snap_index(),
            final(self).state() == old(self).state(),
            final(self).last_index() == old(self).last_index() + 1,
    {
        let index = self.snapshot_index + self.entries.len() as u64 + 1;
        self.entries.push(LogEntry { index, term, command });
    }

    /// Folds the entries up to and including `up_to_index` into the snapshot
    /// and drops them. Fails, changing nothing, when that index is already
    /// compacted or lies beyond the end of the log.
    pub fn compact(&mut self, up_to_index: u64) -> (r: Result<(), String>)
        requires
            old(self).wf(),
        ensures
            final(self).wf(),
            up_to_index <= old(self).snap_index() ==> (r matches Err(e) && e@
                == "Already compacted past this index"@ && *final(self) == *old(self)),
            old(self).snap_index() < up_to_index && up_to_index > old(self).snap_index() + old(
                self,
            ).entries().len() ==> (r matches Err(e) && e@ == "Index beyond log end"@
                && *final(self) == *old(self)),
            old(self).snap_index() < up_to_index <= old(self).snap_index() + old(
                self,
            ).entries().len() ==> {
                let n = up_to_index - old(self).snap_index();
                &&& r is Ok
                &&& final(self).snap_index() == up_to_index
                &&& final(self).entries() == old(self).entries().skip(n)
                &&& final(self).state() == apply_entries(
                    old(self).state(),
                    old(self).entries().take(n),
                )
            },
            forall|i: u64|
                i > up_to_index ==> entry_with_index(final(self).entries(), final(self).snap_index(), i)
                    == entry_with_index(old(self).entries(), old(self).snap_index(), i),
            final(self).snap_index() >= old(self).snap_index(),
            final(self).last_index() == old(self).last_index(),
    {
        if up_to_index <= self.snapshot_index {
            return Err(String::from_str("Already compacted past this index"));
        }
        let last_entry_index = self.snapshot_index + self.entries.len() as u64;
        if up_to_index > last_entry_index {
            return Err(String::from_str("Index beyond log end"));
        }
        let n = (up_to_index - self.snapshot_index) as usize;
        let ghost s0 = self.state();
        let ghost e0 = self.entries@;
        let mut k: usize = 0;
        while k < n
            invariant
                n <= self.entries@.len(),
                self.entries@ == e0,
                k <= n,
                state_of(self.snapshot_state@) == apply_entries(s0, e0.take(k as int)),
            decreases n - k,
        {
            apply_to_snapshot(&mut self.snapshot_state, &self.entries[k].command);
            proof {
                assert(e0.take(k + 1).drop_last() =~= e0.take(k as int));
            }
            k = k + 1;
        }
        let rest = self.entries.split_off(n);
        self.entries = rest;
        self.snapshot_index = up_to_index;
        Ok(())
    }

    /// The number of entries not yet compacted.
    pub fn log_len(&self) -> (n: usize)
        ensures
            n == self.entries().len(),
    {
        self.entries.len()
    }

    /// The logical index of the last compacted entry.
    pub fn snapshot_index(&self) -> (i: u64)
        ensures
            i == self.snap_index(),
    {
        self.snapshot_index
    }

    /// The snapshot of the compacted prefix.
    pub fn snapshot_state(&self) -> (s: &[(String, String)])
        ensures
            state_of(s@) == self.state(),
    {
        self.snapshot_state.as_slice()
    }

    /// The entry with logical `index`, unless it was compacted or lies
    /// beyond the end of the log.
    pub fn entry_at(&self, index: u64) -> (r: Option<&LogEntry>)
        ensures
            r == match entry_with_index(self.entries(), self.snap_index(), index) {
                Some(e) => Some(&e),
                None => None::<&LogEntry>,
            },
            self.wf() && r is Some ==> r->Some_0.index == index,
    {
        if index <= self.snapshot_index {
            return None;
        }
        let pos = index - self.snapshot_index - 1;
        if pos < self.entries.len() as u64 {
            Some(&self.entries[pos as usize])
        } else {
            None
        }
    }
}

/// The number of appends in a series of calls, where `true` stands for an
/// `append` and `false` for a `compact`.
pub open spec fn count_appends(ops: Seq<bool>) -> nat
    decreases ops.len(),
{
    if ops.len() == 0 {
        0
    } else {
        count_appends(ops.drop_last()) + if ops.last() {
            1nat
        } else {
            0nat
        }
    }
}

/// Over any series of calls from a new log, each `append` (`true`) and
/// each `compact` (`false`, whether it succeeds or fails) related as their
/// contracts state, the snapshot index plus the number of entries left
/// always equals the number of appends, and the snapshot index never
/// decreases.
pub proof fn lemma_appends_are_counted(logs: Seq<CompactableLog>, ops: Seq<bool>)
    requires
        logs.len() == ops.len() + 1,
        logs[0].snap_index() == 0,
        logs[0].entries().len() == 0,
        forall|i: int|
            0 <= i < ops.len() ==> if #[trigger] ops[i] {
                &&& logs[i + 1].snap_index() == logs[i].snap_index()
                &&& logs[i + 1].last_index() == logs[i].last_index() + 1
            } else {
                &&& logs[i + 1].snap_index() >= logs[i].snap_index()
                &&& logs[i + 1].last_index() == logs[i].last_index()
            },
    ensures
        forall|i: int| 0 <= i < logs.len() ==> (#[trigger] logs[i]).last_index() == count_appends(ops.take(i)),
        forall|i: int, j: int| 0 <= i <= j < logs.len() ==> logs[i].snap_index() <= logs[j].snap_index(),
    decreases ops.len(),
{
    if ops.len() > 0 {
        let n = ops.len() - 1;
        let init = ops.drop_last();
        let l = logs.drop_last();
        assert forall|i: int| 0 <= i < init.len() implies if #[trigger] init[i] {
            &&& l[i + 1].snap_index() == l[i].snap_index()
            &&& l[i + 1].last_index() == l[i].last_index() + 1
        } else {
            &&& l[i + 1].snap_index() >= l[i].snap_index()
            &&& l[i + 1].last_index() == l[i].last_index()
        } by {
            assert(init[i] == ops[i]);
        }
        lemma_appends_are_counted(l, init);
        assert forall|i: int| 0 <= i < logs.len() implies (#[trigger] logs[i]).last_index() == count_appends(
            ops.take(i),
        ) by {
            if i < logs.len() - 1 {
                assert(l[i] == logs[i]);
                assert(init.take(i) =~= ops.take(i));
            } else {
                assert(ops.take(i) =~= ops);
                assert(ops.drop_last() =~= init.take(n));
                assert(l[n] == logs[n]);
                assert(ops[n] == ops.last());
            }
        }
        assert forall|i: int, j: int| 0 <= i <= j < logs.len() implies logs[i].snap_index()
            <= logs[j].snap_index() by {
            if j < logs.len() - 1 {
                assert(l[i] == logs[i] && l[j] == logs[j]);
            } else if i < j {
                assert(l[i] == logs[i] && l[n] == logs[n]);
                assert(ops[n] == ops.last());
            }
        }
    } else {
        assert(ops.take(0) =~= ops);
    }
}

/// Folding a log in two steps gives the same snapshot as folding it at
/// once: compacting up to `i` and then up to `j` equals compacting up to `j`.
pub proof fn lemma_apply_entries_split(state: State, a: Seq<LogEntry>, b: Seq<LogEntry>)
    ensures
        apply_entries(state, a + b) == apply_entries(apply_entries(state, a), b),
    decreases b.len(),
{
    if b.len() == 0 {
        assert(a + b =~= a);
    } else {
        lemma_apply_entries_split(state, a, b.drop_last());
        assert((a + b).drop_last() =~= a + b.drop_last());
    }
}

/// A later `SET` of a key wins: after setting `k` to `v`, the first pair
/// with key `k` holds `v`.
pub proof fn lemma_upsert_latest_wins(state: State, k: Seq<char>, v: Seq<char>)
    ensures
        key_position(upsert(state, k, v), k) < upsert(state, k, v).len(),
        upsert(state, k, v)[key_position(upsert(state, k, v), k)] == (k, v),
{
    lemma_key_position(state, k);
    let i = key_position(state, k);
    let u = upsert(state, k, v);
    if i < state.len() {
        lemma_key_position_unique(u, k, i);
    } else {
        lemma_key_position_unique(u, k, i);
    }
}

} // verus!
