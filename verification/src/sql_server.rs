//! A small server that parses `GET`/`SET`/`DELETE`/`SCAN` commands, records
//! each accepted command in a single-node Raft log, and applies it to a
//! storage engine.
use vstd::prelude::*;
use crate::strmap::{StrMap, lemma_entry, lemma_key_at};
use crate::text::{chars_of, has_prefix, same_chars, split_n, splitn, starts_with, to_upper, trim, trimmed, upper};

verus! {

/// Key-value pairs as character sequences.
pub type Pairs = Seq<(Seq<char>, Seq<char>)>;

/// `rows` lists, each key once, exactly the pairs of `m` whose key starts
/// with `prefix`.
pub open spec fn scan_of(m: Map<Seq<char>, Seq<char>>, prefix: Seq<char>, rows: Pairs) -> bool {
    &&& forall|i: int, j: int| 0 <= i < rows.len() && 0 <= j < rows.len() && i != j ==> rows[i].0 != rows[j].0
    &&& forall|i: int| 0 <= i < rows.len() ==> {
        &&& m.contains_key(#[trigger] rows[i].0)
        &&& m[rows[i].0] == rows[i].1
        &&& starts_with(rows[i].0, prefix)
    }
    &&& forall|k: Seq<char>| #[trigger] m.contains_key(k) && starts_with(k, prefix) ==> exists|i: int| 0 <= i < rows.len() && rows[i].0 == k
}

/// Some entry before position `i` has key `k`.
pub open spec fn listed<V>(t: Seq<(Seq<char>, V)>, i: int, k: Seq<char>) -> bool {
    exists|j: int| 0 <= j < i && t[j].0 == k
}

pub open spec fn pairs_of(v: Seq<(String, String)>) -> Pairs {
    v.map_values(|p: (String, String)| (p.0@, p.1@))
}

/// A storage engine: string keys to string values.
pub trait Storage {
    /// The stored pairs.
    spec fn contents(&self) -> Map<Seq<char>, Seq<char>>;

    /// The engine's own consistency condition.
    spec fn inv(&self) -> bool;

    /// The value of `key`.
    fn get(&self, key: &str) -> (r: Option<String>)
        requires
            self.inv(),
        ensures
            match r {
                Some(v) => self.contents().contains_key(key@) && self.contents()[key@] == v@,
                None => !self.contents().contains_key(key@),
            };

    /// Sets `key` to `value`.
    fn set(&mut self, key: &str, value: String)
        requires
            old(self).inv(),
        ensures
            final(self).inv(),
            final(self).contents() == old(self).contents().insert(key@, value@);

    /// Removes `key`; true when it was present.
    fn delete(&mut self, key: &str) -> (r: bool)
        requires
            old(self).inv(),
        ensures
            final(self).inv(),
            r == old(self).contents().contains_key(key@),
            final(self).contents() == old(self).contents().remove(key@);

    /// The pairs whose key starts with `prefix`, in no particular order.
    fn scan(&self, prefix: &str) -> (r: Vec<(String, String)>)
        requires
            self.inv(),
        ensures
            scan_of(self.contents(), prefix@, pairs_of(r@));
}

/// Storage in memory.
pub struct MemoryStorage {
    data: StrMap<String>,
}

pub open spec fn string_values(m: Map<Seq<char>, String>) -> Map<Seq<char>, Seq<char>> {
    m.map_values(|v: String| v@)
}

impl MemoryStorage {
    /// An empty store.
    pub fn new() -> (s: MemoryStorage)
        ensures
            s.inv(),
            s.contents() == Map::<Seq<char>, Seq<char>>::empty(),
    {
        let s = MemoryStorage { data: StrMap::new() };
        proof {
            assert(s.contents() =~= Map::<Seq<char>, Seq<char>>::empty());
        }
        s
    }
}

impl Storage for MemoryStorage {
    closed spec fn contents(&self) -> Map<Seq<char>, Seq<char>> {
        string_values(self.data@)
    }

    closed spec fn inv(&self) -> bool {
        self.data.wf()
    }

    fn get(&self, key: &str) -> (r: Option<String>) {
        match self.data.get(key) {
            Some(v) => Some(v.clone()),
            None => None,
        }
    }

    fn set(&mut self, key: &str, value: String) {
        self.data.insert(String::from_str(key), value);
        proof {
            assert(self.contents() =~= old(self).contents().insert(key@, value@));
        }
    }

    fn delete(&mut self, key: &str) -> (r: bool) {
        let r = self.data.remove(key).is_some();
        proof {
            assert(self.contents() =~= old(self).contents().remove(key@));
        }
        r
    }

    fn scan(&self, prefix: &str) -> (r: Vec<(String, String)>) {
        let ghost t = self.data.table();
        let ghost m = self.contents();
        let n = self.data.len();
        let mut out: Vec<(String, String)> = Vec::new();
        let mut i: usize = 0;
        while i < n
            invariant
                self.data.wf(),
                n == t.len(),
                t == self.data.table(),
                m == self.contents(),
                i <= n,
                forall|a: int| 0 <= a < pairs_of(out@).len() ==> listed(t, i as int, #[trigger] pairs_of(out@)[a].0),
                forall|a: int, b: int| 0 <= a < pairs_of(out@).len() && 0 <= b < pairs_of(out@).len() && a != b ==> pairs_of(out@)[a].0 != pairs_of(out@)[b].0,
                forall|a: int| 0 <= a < pairs_of(out@).len() ==> {
                    &&& m.contains_key(#[trigger] pairs_of(out@)[a].0)
                    &&& m[pairs_of(out@)[a].0] == pairs_of(out@)[a].1
                    &&& starts_with(pairs_of(out@)[a].0, prefix@)
                },
                forall|j: int| 0 <= j < i && starts_with(#[trigger] t[j].0, prefix@) ==> exists|a: int| 0 <= a < pairs_of(out@).len() && pairs_of(out@)[a].0 == t[j].0,
            decreases n - i,
        {
            let (k, v) = self.data.entry_at(i);
            let kc = chars_of(k.as_str());
            if has_prefix(&kc, prefix) {
                let ghost before = pairs_of(out@);
                proof {
                    lemma_entry(t, i as int);
                }
                out.push((k.clone(), v.clone()));
                proof {
                    let after = pairs_of(out@);
                    assert(after =~= before.push((t[i as int].0, t[i as int].1@)));
                    assert forall|a: int| 0 <= a < after.len() implies listed(t, i + 1, #[trigger] after[a].0) by {
                        if a < before.len() {
                            assert(after[a] == before[a]);
                            assert(listed(t, i as int, before[a].0));
                            let j = choose|j: int| 0 <= j < i && t[j].0 == before[a].0;
                            assert(0 <= j < i + 1 && t[j].0 == after[a].0);
                        } else {
                            assert(after[a].0 == t[i as int].0);
                        }
                    }
                    assert forall|a: int, b: int| 0 <= a < after.len() && 0 <= b < after.len() && a != b implies after[a].0 != after[b].0 by {
                        if a == before.len() && b < before.len() {
                            assert(listed(t, i as int, before[b].0));
                            let j = choose|j: int| 0 <= j < i && t[j].0 == before[b].0;
                        } else if b == before.len() && a < before.len() {
                            assert(listed(t, i as int, before[a].0));
                            let j = choose|j: int| 0 <= j < i && t[j].0 == before[a].0;
                        } else if a < before.len() && b < before.len() {
                            assert(after[a] == before[a] && after[b] == before[b]);
                        }
                    }
                    assert forall|a: int| 0 <= a < after.len() implies {
                        &&& m.contains_key(#[trigger] after[a].0)
                        &&& m[after[a].0] == after[a].1
                        &&& starts_with(after[a].0, prefix@)
                    } by {
                        if a < before.len() {
                            assert(after[a] == before[a]);
                        }
                    }
                    assert forall|j: int| 0 <= j < i + 1 && starts_with(#[trigger] t[j].0, prefix@) implies exists|a: int| 0 <= a < after.len() && after[a].0 == t[j].0 by {
                        if j < i {
                            let a = choose|a: int| 0 <= a < before.len() && before[a].0 == t[j].0;
                            assert(after[a] == before[a]);
                        } else {
                            assert(after[before.len() as int].0 == t[j].0);
                        }
                    }
                }
            }
            i = i + 1;
        }
        proof {
            assert forall|k: Seq<char>| #[trigger] m.contains_key(k) && starts_with(k, prefix@) implies exists|i: int| 0 <= i < pairs_of(out@).len() && pairs_of(out@)[i].0 == k by {
                let j = lemma_key_at(t, k);
                assert(starts_with(t[j].0, prefix@));
            }
        }
        out
    }
}

/// The answer to a command.
#[derive(Debug, Clone, PartialEq)]
pub enum SqlResult {
    Done,
    Value(String),
    Rows(Vec<Vec<String>>),
    Error(String),
}

/// A parsed command.
#[derive(Debug, Clone)]
pub enum Command {
    Get { key: String },
    SetValue { key: String, value: String },
    Delete { key: String },
    Scan { prefix: String },
}

/// A command as plain values.
pub enum Cmd {
    Get { key: Seq<char> },
    SetValue { key: Seq<char>, value: Seq<char> },
    Delete { key: Seq<char> },
    Scan { prefix: Seq<char> },
}

impl Command {
    pub open spec fn view_cmd(&self) -> Cmd {
        match self {
            Command::Get { key } => Cmd::Get { key: key@ },
            Command::SetValue { key, value } => Cmd::SetValue { key: key@, value: value@ },
            Command::Delete { key } => Cmd::Delete { key: key@ },
            Command::Scan { prefix } => Cmd::Scan { prefix: prefix@ },
        }
    }
}

/// How `parse_command` reads an input: the trimmed input is split on spaces
/// at most twice; the first word, upper-cased, names the command.
pub open spec fn parse_spec(input: Seq<char>) -> Result<Cmd, Seq<char>> {
    let parts = splitn(trimmed(input), 3, ' ');
    let w = upper(parts[0]);
    if w == "GET"@ {
        if parts.len() < 2 {
            Err("GET requires a key"@)
        } else {
            Ok(Cmd::Get { key: parts[1] })
        }
    } else if w == "SET"@ {
        if parts.len() < 3 {
            Err("SET requires key and value"@)
        } else {
            Ok(Cmd::SetValue { key: parts[1], value: parts[2] })
        }
    } else if w == "DELETE"@ {
        if parts.len() < 2 {
            Err("DELETE requires a key"@)
        } else {
            Ok(Cmd::Delete { key: parts[1] })
        }
    } else if w == "SCAN"@ {
        Ok(
            Cmd::Scan {
                prefix: if parts.len() >= 2 {
                    parts[1]
                } else {
                    Seq::empty()
                },
            },
        )
    } else {
        Err("Unknown command: "@ + input)
    }
}

/// Parses a command line.
pub fn parse_command(input: &str) -> (r: Result<Command, String>)
    ensures
        match parse_spec(input@) {
            Ok(c) => r matches Ok(cmd) && cmd.view_cmd() == c,
            Err(e) => r matches Err(msg) && msg@ == e,
        },
{
    let t = trim(input);
    let parts = split_n(t.as_str(), 3, ' ');
    let ghost ps = splitn(trimmed(input@), 3, ' ');
    proof {
        assert(parts@.map_values(|p: String| p@) == ps);
        assert(ps.len() >= 1);
        assert(parts@.len() == ps.len());
        assert forall|i: int| 0 <= i < parts@.len() implies parts@[i]@ == ps[i] by {
            assert(parts@.map_values(|p: String| p@)[i] == parts@[i]@);
        }
    }
    let w = to_upper(parts[0].as_str());
    if same_chars(w.as_str(), "GET") {
        if parts.len() < 2 {
            return Err(String::from_str("GET requires a key"));
        }
        Ok(Command::Get { key: parts[1].clone() })
    } else if same_chars(w.as_str(), "SET") {
        if parts.len() < 3 {
            return Err(String::from_str("SET requires key and value"));
        }
        Ok(Command::SetValue { key: parts[1].clone(), value: parts[2].clone() })
    } else if same_chars(w.as_str(), "DELETE") {
        if parts.len() < 2 {
            return Err(String::from_str("DELETE requires a key"));
        }
        Ok(Command::Delete { key: parts[1].clone() })
    } else if same_chars(w.as_str(), "SCAN") {
        let prefix = if parts.len() >= 2 {
            parts[1].clone()
        } else {
            String::new()
        };
        Ok(Command::Scan { prefix })
    } else {
        Err(String::from_str("Unknown command: ").concat(input))
    }
}

/// One log entry of the single-node Raft log.
#[derive(Debug, Clone)]
pub struct LogEntry {
    pub term: u64,
    pub index: u64,
    pub command: String,
}

/// A single-node Raft log: every proposal is committed at once.
pub struct RaftNode {
    term: u64,
    log: Vec<LogEntry>,
    commit_index: u64,
}

impl RaftNode {
    pub closed spec fn spec_term(&self) -> u64 {
        self.term
    }

    pub closed spec fn entries(&self) -> Seq<LogEntry> {
        self.log@
    }

    pub closed spec fn spec_commit_index(&self) -> u64 {
        self.commit_index
    }

    /// Everything proposed is committed.
    pub open spec fn inv(&self) -> bool {
        self.spec_commit_index() == self.entries().len()
    }

    /// A node in term 1 with an empty log.
    pub fn new() -> (n: RaftNode)
        ensures
            n.inv(),
            n.spec_term() == 1,
            n.entries() == Seq::<LogEntry>::empty(),
    {
        RaftNode { term: 1, log: Vec::new(), commit_index: 0 }
    }

    /// Appends `command` at the next index in the current term and commits
    /// it; returns the new entry.
    pub fn propose(&mut self, command: String) -> (e: LogEntry)
        requires
            old(self).entries().len() < u64::MAX,
        ensures
            e.term == old(self).spec_term(),
            e.index == old(self).entries().len() + 1,
            e.command@ == command@,
            final(self).entries().len() == old(self).entries().len() + 1,
            final(self).entries().take(old(self).entries().len() as int) == old(self).entries(),
            final(self).entries().last().term == e.term,
            final(self).entries().last().index == e.index,
            final(self).entries().last().command@ == command@,
            final(self).spec_term() == old(self).spec_term(),
            final(self).spec_commit_index() == e.index,
            final(self).inv(),
    {
        let index = self.log.len() as u64 + 1;
        let entry = LogEntry { term: self.term, index, command };
        let copy = LogEntry { term: entry.term, index: entry.index, command: entry.command.clone() };
        let ghost before = self.log@;
        self.log.push(copy);
        proof {
            assert(self.log@.take(before.len() as int) =~= before);
        }
        self.commit_index = index;
        entry
    }

    /// The committed entries.
    pub fn committed_entries(&self) -> (r: &[LogEntry])
        requires
            self.inv(),
        ensures
            r@ == self.entries().take(self.spec_commit_index() as int),
    {
        let n = self.log.len();
        let r = vstd::slice::slice_subrange(self.log.as_slice(), 0, n);
        proof {
            assert(r@ =~= self.entries().take(self.spec_commit_index() as int));
        }
        r
    }

    /// The current term.
    pub fn term(&self) -> (t: u64)
        ensures
            t == self.spec_term(),
    {
        self.term
    }

    /// The index of the last committed entry.
    pub fn commit_index(&self) -> (c: u64)
        ensures
            c == self.spec_commit_index(),
    {
        self.commit_index
    }
}

/// The rows of a `SCAN` answer: one `[key, value]` row per pair.
pub open spec fn rows_of(rows: Seq<Vec<String>>) -> Pairs {
    rows.map_values(|r: Vec<String>| (r@[0]@, r@[1]@))
}

/// Storage, the SQL layer and the Raft log wired together.
pub struct Server<S: Storage> {
    storage: S,
    raft: RaftNode,
}

impl<S: Storage> Server<S> {
    pub closed spec fn store(&self) -> S {
        self.storage
    }

    pub closed spec fn log(&self) -> RaftNode {
        self.raft
    }

    pub open spec fn inv(&self) -> bool {
        self.store().inv() && self.log().inv()
    }

    /// A server over `storage` with a fresh Raft log.
    pub fn new(storage: S) -> (s: Server<S>)
        requires
            storage.inv(),
        ensures
            s.inv(),
            s.store() == storage,
            s.log().spec_term() == 1,
            s.log().entries() == Seq::<LogEntry>::empty(),
    {
        Server { storage, raft: RaftNode::new() }
    }

    /// Parses `input`; a command that parses is first proposed to the Raft
    /// log (the raw input) and then applied to the storage.
    pub fn execute(&mut self, input: &str) -> (r: SqlResult)
        requires
            old(self).inv(),
            old(self).log().entries().len() < u64::MAX,
        ensures
            final(self).inv(),
            final(self).log().spec_term() == old(self).log().spec_term(),
            match parse_spec(input@) {
                Err(e) => {
                    &&& r matches SqlResult::Error(msg) && msg@ == e
                    &&& final(self).store().contents() == old(self).store().contents()
                    &&& final(self).log().entries() == old(self).log().entries()
                },
                Ok(c) => {
                    &&& final(self).log().entries().len() == old(self).log().entries().len() + 1
                    &&& final(self).log().entries().last().command@ == input@
                    &&& final(self).log().entries().last().term == old(self).log().spec_term()
                    &&& final(self).log().entries().take(old(self).log().entries().len() as int) == old(self).log().entries()
                    &&& match c {
                        Cmd::Get { key } => {
                            &&& final(self).store().contents() == old(self).store().contents()
                            &&& if old(self).store().contents().contains_key(key) {
                                r matches SqlResult::Value(v) && v@ == old(self).store().contents()[key]
                            } else {
                                r matches SqlResult::Error(msg) && msg@ == "Key not found"@
                            }
                        },
                        Cmd::SetValue { key, value } => {
                            &&& r is Done
                            &&& final(self).store().contents() == old(self).store().contents().insert(key, value)
                        },
                        Cmd::Delete { key } => {
                            &&& r is Done
                            &&& final(self).store().contents() == old(self).store().contents().remove(key)
                        },
                        Cmd::Scan { prefix } => {
                            &&& final(self).store().contents() == old(self).store().contents()
                            &&& r matches SqlResult::Rows(rows) && (forall|i: int| 0 <= i < rows@.len() ==> (#[trigger] rows@[i])@.len() == 2)
                                && scan_of(old(self).store().contents(), prefix, rows_of(rows@))
                        },
                    }
                },
            },
    {
        let cmd = match parse_command(input) {
            Ok(c) => c,
            Err(e) => return SqlResult::Error(e),
        };
        self.raft.propose(String::from_str(input));
        match cmd {
            Command::Get { key } => match self.storage.get(key.as_str()) {
                Some(v) => SqlResult::Value(v),
                None => SqlResult::Error(String::from_str("Key not found")),
            },
            Command::SetValue { key, value } => {
                self.storage.set(key.as_str(), value);
                SqlResult::Done
            },
            Command::Delete { key } => {
                self.storage.delete(key.as_str());
                SqlResult::Done
            },
            Command::Scan { prefix } => {
                let pairs = self.storage.scan(prefix.as_str());
                let mut rows: Vec<Vec<String>> = Vec::new();
                let mut i: usize = 0;
                while i < pairs.len()
                    invariant
                        i <= pairs@.len(),
                        rows@.len() == i,
                        forall|a: int| 0 <= a < i ==> (#[trigger] rows@[a])@.len() == 2,
                        rows_of(rows@) == pairs_of(pairs@).take(i as int),
                    decreases pairs@.len() - i,
                {
                    let mut row: Vec<String> = Vec::new();
                    row.push(pairs[i].0.clone());
                    row.push(pairs[i].1.clone());
                    let ghost before = rows@;
                    rows.push(row);
                    proof {
                        assert(rows_of(rows@) =~= pairs_of(pairs@).take(i + 1));
                    }
                    i = i + 1;
                }
                proof {
                    assert(pairs_of(pairs@).take(i as int) =~= pairs_of(pairs@));
                }
                SqlResult::Rows(rows)
            },
        }
    }

    /// The Raft term and commit index.
    pub fn raft_status(&self) -> (s: (u64, u64))
        ensures
            s == (self.log().spec_term(), self.log().spec_commit_index()),
    {
        (self.raft.term(), self.raft.commit_index())
    }
}

} // verus!
