//! A pluggable storage engine (get, set, delete, ordered range scans), an
//! in-memory engine, and a database that runs `SET`/`GET`/`DELETE` text
//! commands over any engine.
use vstd::prelude::*;
use crate::kv_store::{Value, shown};
use crate::sorted_map::{SortedMap, lemma_range_rows, range_rows, ref_entries};
use crate::text::{same_chars, split_n, splitn, str_le};

verus! {

/// A storage engine: string keys to values.
pub trait Storage {
    /// The stored pairs.
    spec fn contents(&self) -> Map<Seq<char>, Value>;

    /// The engine's own consistency condition.
    spec fn inv(&self) -> bool;

    /// Stores `value` under `key`.
    fn set(&mut self, key: &str, value: Value)
        requires
            old(self).inv(),
        ensures
            final(self).inv(),
            final(self).contents() == old(self).contents().insert(key@, value);

    /// The value under `key`.
    fn get(&self, key: &str) -> (r: Option<&Value>)
        requires
            self.inv(),
        ensures
            r == (if self.contents().contains_key(key@) {
                Some(&self.contents()[key@])
            } else {
                None::<&Value>
            });

    /// Removes `key` and returns its value.
    fn delete(&mut self, key: &str) -> (r: Option<Value>)
        requires
            old(self).inv(),
        ensures
            final(self).inv(),
            final(self).contents() == old(self).contents().remove(key@),
            r == (if old(self).contents().contains_key(key@) {
                Some(old(self).contents()[key@])
            } else {
                None::<Value>
            });

    /// The pairs with `start <= key < end`, in key order.
    fn scan(&self, start: &str, end: &str) -> (r: Vec<(&String, &Value)>)
        requires
            self.inv(),
            str_le(start@, end@),
        ensures
            range_rows(self.contents(), start@, end@, ref_entries(r@));
}

/// An engine that keeps the pairs in memory, sorted by key.
pub struct MemoryStorage {
    data: SortedMap<Value>,
}

impl MemoryStorage {
    /// An empty engine.
    pub fn new() -> (s: MemoryStorage)
        ensures
            s.inv(),
            s.contents() == Map::<Seq<char>, Value>::empty(),
    {
        MemoryStorage { data: SortedMap::new() }
    }
}

impl Storage for MemoryStorage {
    closed spec fn contents(&self) -> Map<Seq<char>, Value> {
        self.data@
    }

    closed spec fn inv(&self) -> bool {
        self.data.wf()
    }

    fn set(&mut self, key: &str, value: Value) {
        self.data.insert(String::from_str(key), value);
    }

    fn get(&self, key: &str) -> (r: Option<&Value>) {
        self.data.get(key)
    }

    fn delete(&mut self, key: &str) -> (r: Option<Value>) {
        self.data.remove(key)
    }

    fn scan(&self, start: &str, end: &str) -> (r: Vec<(&String, &Value)>) {
        let r = self.data.range(start, end);
        proof {
            lemma_range_rows(self.data.entries(), start@, end@);
        }
        r
    }
}

/// The words of a command: split on the first two spaces.
pub open spec fn words(cmd: Seq<char>) -> Seq<Seq<char>> {
    splitn(cmd, 3, ' ')
}

/// The engine's contents after a command, and the reply.
pub open spec fn reply(m: Map<Seq<char>, Value>, cmd: Seq<char>) -> (Map<Seq<char>, Value>, Seq<char>) {
    let w = words(cmd);
    if w[0] == "SET"@ && w.len() == 3 {
        (m, "OK"@)
    } else if w[0] == "GET"@ && w.len() == 2 {
        (m, if m.contains_key(w[1]) {
            shown(m[w[1]])
        } else {
            "NULL"@
        })
    } else if w[0] == "DELETE"@ && w.len() == 2 {
        (m.remove(w[1]), "OK"@)
    } else {
        (m, "ERROR: unknown command"@)
    }
}

/// After `SET key value`, `GET key` replies with the value.
pub proof fn lemma_set_then_get(
    m0: Map<Seq<char>, Value>,
    m1: Map<Seq<char>, Value>,
    set_cmd: Seq<char>,
    get_cmd: Seq<char>,
)
    requires
        words(set_cmd)[0] == "SET"@,
        words(set_cmd).len() == 3,
        m1 == m0.insert(words(set_cmd)[1], m1[words(set_cmd)[1]]),
        holds_text(m1, words(set_cmd)[1], words(set_cmd)[2]),
        words(get_cmd)[0] == "GET"@,
        words(get_cmd).len() == 2,
        words(get_cmd)[1] == words(set_cmd)[1],
    ensures
        reply(m1, get_cmd).1 == words(set_cmd)[2],
{
    reveal_strlit("SET");
    reveal_strlit("GET");
    assert("GET"@ != "SET"@) by {
        assert("GET"@[0] != "SET"@[0]);
    }
}

/// After `DELETE key`, `GET key` replies `NULL`.
pub proof fn lemma_delete_then_get(m0: Map<Seq<char>, Value>, del_cmd: Seq<char>, get_cmd: Seq<char>)
    requires
        words(del_cmd)[0] == "DELETE"@,
        words(del_cmd).len() == 2,
        words(get_cmd)[0] == "GET"@,
        words(get_cmd).len() == 2,
        words(get_cmd)[1] == words(del_cmd)[1],
    ensures
        reply(m0, del_cmd).1 == "OK"@,
        reply(reply(m0, del_cmd).0, get_cmd).1 == "NULL"@,
{
    reveal_strlit("SET");
    reveal_strlit("GET");
    reveal_strlit("DELETE");
    assert("GET"@ != "SET"@) by {
        assert("GET"@[0] != "SET"@[0]);
    }
    assert("DELETE"@ != "SET"@) by {
        assert("DELETE"@[0] != "SET"@[0]);
    }
    assert("DELETE"@ != "GET"@) by {
        assert("DELETE"@[0] != "GET"@[0]);
    }
}

/// `m` holds the string `t` under `k`.
pub open spec fn holds_text(m: Map<Seq<char>, Value>, k: Seq<char>, t: Seq<char>) -> bool {
    &&& m.contains_key(k)
    &&& m[k] matches Value::String(s) && s@ == t
}

/// A database over a storage engine.
pub struct Database<S: Storage> {
    storage: S,
}

impl<S: Storage> Database<S> {
    /// The engine's contents.
    pub closed spec fn contents(&self) -> Map<Seq<char>, Value> {
        self.storage.contents()
    }

    pub closed spec fn wf(&self) -> bool {
        self.storage.inv()
    }

    /// A database over `storage`.
    pub fn new(storage: S) -> (db: Self)
        requires
            storage.inv(),
        ensures
            db.wf(),
            db.contents() == storage.contents(),
    {
        Database { storage }
    }

    /// Runs `SET key value` (the value stored as a string), `GET key` or
    /// `DELETE key`, and returns the reply.
    pub fn execute(&mut self, cmd: &str) -> (out: String)
        requires
            old(self).wf(),
        ensures
            final(self).wf(),
            words(cmd@)[0] == "SET"@ && words(cmd@).len() == 3 ==> final(self).contents() == old(
                self,
            ).contents().insert(words(cmd@)[1], final(self).contents()[words(cmd@)[1]]) && holds_text(
                final(self).contents(),
                words(cmd@)[1],
                words(cmd@)[2],
            ),
            !(words(cmd@)[0] == "SET"@ && words(cmd@).len() == 3) ==> final(self).contents() == reply(
                old(self).contents(),
                cmd@,
            ).0,
            out@ == reply(old(self).contents(), cmd@).1,
    {
        let parts = split_n(cmd, 3, ' ');
        let ghost w = parts@.map_values(|s: String| s@);
        proof {
            assert(w.len() >= 1);
        }
        if same_chars(parts[0].as_str(), "SET") && parts.len() == 3 {
            self.storage.set(parts[1].as_str(), Value::String(parts[2].clone()));
            String::from_str("OK")
        } else if same_chars(parts[0].as_str(), "GET") && parts.len() == 2 {
            match self.storage.get(parts[1].as_str()) {
                Some(v) => v.to_string(),
                None => String::from_str("NULL"),
            }
        } else if same_chars(parts[0].as_str(), "DELETE") && parts.len() == 2 {
            self.storage.delete(parts[1].as_str());
            String::from_str("OK")
        } else {
            String::from_str("ERROR: unknown command")
        }
    }
}

} // verus!
