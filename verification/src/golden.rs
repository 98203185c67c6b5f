//! A small key-value store, a runner that executes text commands against it
//! and records one output line per command (for golden-output tests), and
//! property checks of the store.
use vstd::prelude::*;
use crate::numerals::{decimal, i64_text, signed_decimal, u64_text};
use crate::strmap::{StrMap, has_key, lemma_key_at, lemma_entry, lemma_len};
use crate::text::{lemma_str_lt_order, same_chars, split_n, splitn, str_less, str_lt, trim, trimmed};

verus! {

/// A stored value.
#[derive(Debug, Clone, PartialEq)]
pub enum Value {
    Int(i64),
    Str(String),
    Null,
}

/// The text a value displays as.
pub open spec fn shown(v: Value) -> Seq<char> {
    match v {
        Value::Int(n) => signed_decimal(n as int),
        Value::Str(s) => s@,
        Value::Null => "NULL"@,
    }
}

/// Two values are equal: same variant, same number or same text.
pub open spec fn same(a: Value, b: Value) -> bool {
    match (a, b) {
        (Value::Int(x), Value::Int(y)) => x == y,
        (Value::Str(x), Value::Str(y)) => x@ == y@,
        (Value::Null, Value::Null) => true,
        _ => false,
    }
}

impl Value {
    /// The value's display text: the number, the string itself, or `NULL`.
    pub fn to_string(&self) -> (s: String)
        ensures
            s@ == shown(*self),
    {
        match self {
            Value::Int(n) => i64_text(*n),
            Value::Str(s) => s.clone(),
            Value::Null => String::from_str("NULL"),
        }
    }

    /// A copy of the value.
    pub fn duplicate(&self) -> (v: Value)
        ensures
            v == *self,
    {
        match self {
            Value::Int(n) => Value::Int(*n),
            Value::Str(s) => Value::Str(s.clone()),
            Value::Null => Value::Null,
        }
    }

    /// Whether two values are equal.
    pub fn equals(&self, other: &Value) -> (r: bool)
        ensures
            r == same(*self, *other),
    {
        match (self, other) {
            (Value::Int(x), Value::Int(y)) => *x == *y,
            (Value::Str(x), Value::Str(y)) => *x == *y,
            (Value::Null, Value::Null) => true,
            _ => false,
        }
    }
}

/// The value stored under `k`, or `Null`.
pub open spec fn lookup(m: Map<Seq<char>, Value>, k: Seq<char>) -> Value {
    if m.contains_key(k) {
        m[k]
    } else {
        Value::Null
    }
}

/// Strictly increasing in code-point order.
pub open spec fn sorted_strict(ks: Seq<Seq<char>>) -> bool {
    forall|i: int, j: int| 0 <= i < j < ks.len() ==> str_lt(ks[i], ks[j])
}

/// The parts joined with `sep` between neighbours.
pub open spec fn join(parts: Seq<Seq<char>>, sep: Seq<char>) -> Seq<char>
    decreases parts.len(),
{
    if parts.len() == 0 {
        Seq::empty()
    } else if parts.len() == 1 {
        parts[0]
    } else {
        join(parts.drop_last(), sep) + sep + parts.last()
    }
}

pub open spec fn texts(v: Seq<String>) -> Seq<Seq<char>> {
    v.map_values(|s: String| s@)
}

/// A key-value store; a missing key reads as `Null`.
pub struct KvStore {
    data: StrMap<Value>,
}

impl View for KvStore {
    type V = Map<Seq<char>, Value>;

    closed spec fn view(&self) -> Map<Seq<char>, Value> {
        self.data@
    }
}

impl KvStore {
    pub closed spec fn wf(&self) -> bool {
        self.data.wf()
    }

    /// An empty store.
    pub fn new() -> (s: KvStore)
        ensures
            s.wf(),
            s@ == Map::<Seq<char>, Value>::empty(),
    {
        KvStore { data: StrMap::new() }
    }

    /// Stores `value` under `key`.
    pub fn set(&mut self, key: &str, value: Value)
        requires
            old(self).wf(),
        ensures
            final(self).wf(),
            final(self)@ == old(self)@.insert(key@, value),
    {
        self.data.insert(String::from_str(key), value);
    }

    /// The value under `key`, or `Null`.
    pub fn get(&self, key: &str) -> (v: Value)
        requires
            self.wf(),
        ensures
            v == lookup(self@, key@),
    {
        match self.data.get(key) {
            Some(v) => v.duplicate(),
            None => Value::Null,
        }
    }

    /// Removes `key`; whether it was there.
    pub fn delete(&mut self, key: &str) -> (found: bool)
        requires
            old(self).wf(),
        ensures
            final(self).wf(),
            final(self)@ == old(self)@.remove(key@),
            found == old(self)@.contains_key(key@),
    {
        self.data.remove(key).is_some()
    }

    /// The number of keys.
    pub fn len(&self) -> (n: usize)
        requires
            self.wf(),
        ensures
            self@.dom().finite(),
            n == self@.dom().len(),
    {
        proof {
            lemma_len(self.data.table());
        }
        self.data.len()
    }

    /// The keys in ascending order.
    pub fn keys(&self) -> (ks: Vec<String>)
        requires
            self.wf(),
        ensures
            sorted_strict(texts(ks@)),
            forall|k: Seq<char>| #[trigger] texts(ks@).contains(k) <==> self@.contains_key(k),
    {
        let ghost t = self.data.table();
        let n = self.data.len();
        let mut ks: Vec<String> = Vec::new();
        let mut i: usize = 0;
        while i < n
            invariant
                t == self.data.table(),
                n == t.len(),
                self.data.wf(),
                i <= n,
                sorted_strict(texts(ks@)),
                forall|k: Seq<char>| #[trigger] texts(ks@).contains(k) <==> exists|j: int| 0 <= j < i && t[j].0 == k,
            decreases n - i,
        {
            let (k, _) = self.data.entry_at(i);
            let ghost before = texts(ks@);
            proof {
                if before.contains(k@) {
                    let j = choose|j: int| 0 <= j < i && t[j].0 == k@;
                    assert(t[j].0 == t[i as int].0);
                }
            }
            insert_sorted(&mut ks, k.clone());
            proof {
                assert forall|x: Seq<char>| #[trigger] texts(ks@).contains(x) <==> exists|j: int| 0 <= j < i + 1 && t[j].0 == x by {
                    if texts(ks@).contains(x) && x != k@ {
                        assert(before.contains(x));
                        let j = choose|j: int| 0 <= j < i && t[j].0 == x;
                        assert(0 <= j < i + 1 && t[j].0 == x);
                    }
                    if x == k@ {
                        assert(t[i as int].0 == x);
                    }
                    if exists|j: int| 0 <= j < i + 1 && t[j].0 == x {
                        let j = choose|j: int| 0 <= j < i + 1 && t[j].0 == x;
                        if j < i {
                            assert(before.contains(x));
                        }
                    }
                }
            }
            i = i + 1;
        }
        proof {
            assert forall|k: Seq<char>| #[trigger] texts(ks@).contains(k) <==> self@.contains_key(k) by {
                if self@.contains_key(k) {
                    assert(has_key(t, k));
                    let j = lemma_key_at(t, k);
                    assert(exists|j: int| 0 <= j < n && t[j].0 == k);
                }
                if texts(ks@).contains(k) {
                    let j = choose|j: int| 0 <= j < n && t[j].0 == k;
                    lemma_entry(t, j);
                }
            }
        }
        ks
    }
}

/// Inserts `s` into a strictly sorted list that lacks it.
fn insert_sorted(v: &mut Vec<String>, s: String)
    requires
        sorted_strict(texts(old(v)@)),
        !texts(old(v)@).contains(s@),
    ensures
        sorted_strict(texts(final(v)@)),
        forall|k: Seq<char>| #[trigger] texts(final(v)@).contains(k) <==> (texts(old(v)@).contains(k) || k == s@),
{
    let ghost t0 = texts(v@);
    let mut i: usize = 0;
    while i < v.len() && str_less(v[i].as_str(), s.as_str())
        invariant
            i <= v@.len(),
            texts(v@) == t0,
            forall|j: int| 0 <= j < i ==> str_lt(t0[j], s@),
        decreases v@.len() - i,
    {
        i = i + 1;
    }
    proof {
        assert forall|j: int| i <= j < t0.len() implies str_lt(s@, t0[j]) by {
            assert(t0[i as int] != s@);
            lemma_str_lt_order(s@, t0[i as int], t0[j]);
            lemma_str_lt_order(t0[i as int], s@, t0[j]);
        }
    }
    let ghost sv = s@;
    v.insert(i, s);
    proof {
        let t1 = texts(v@);
        assert(t1 =~= t0.insert(i as int, sv));
        assert forall|a: int, b: int| 0 <= a < b < t1.len() implies str_lt(t1[a], t1[b]) by {
            if b < i {
                assert(t1[a] == t0[a] && t1[b] == t0[b]);
            } else if a < i && b == i {
            } else if a < i && b > i {
                assert(t1[b] == t0[b - 1]);
            } else if a == i {
                assert(t1[b] == t0[b - 1]);
            } else {
                assert(t1[a] == t0[a - 1] && t1[b] == t0[b - 1]);
            }
        }
        assert forall|k: Seq<char>| #[trigger] t1.contains(k) <==> (t0.contains(k) || k == sv) by {
            if t1.contains(k) {
                let a = choose|a: int| 0 <= a < t1.len() && t1[a] == k;
                if a < i {
                    assert(t0[a] == k);
                } else if a > i {
                    assert(t0[a - 1] == k);
                }
            }
            if t0.contains(k) {
                let a = choose|a: int| 0 <= a < t0.len() && t0[a] == k;
                if a < i {
                    assert(t1[a] == k);
                } else {
                    assert(t1[a + 1] == k);
                }
            }
            if k == sv {
                assert(t1[i as int] == k);
            }
        }
    }
}

/// The parts joined with `sep` between neighbours.
pub fn join_texts(parts: &Vec<String>, sep: &str) -> (r: String)
    ensures
        r@ == join(texts(parts@), sep@),
{
    let ghost p = texts(parts@);
    if parts.len() == 0 {
        return String::new();
    }
    let mut r = parts[0].clone();
    let mut i: usize = 1;
    proof {
        assert(p.take(1) =~= seq![p[0]]);
    }
    while i < parts.len()
        invariant
            p == texts(parts@),
            1 <= i <= parts@.len(),
            r@ == join(p.take(i as int), sep@),
        decreases parts@.len() - i,
    {
        r.append(sep);
        r.append(parts[i].as_str());
        proof {
            assert(p.take(i + 1).drop_last() =~= p.take(i as int));
            assert(p.take(i + 1).last() == p[i as int]);
        }
        i = i + 1;
    }
    proof {
        assert(p.take(i as int) =~= p);
    }
    r
}

/// The words of a command: the trimmed text split on the first two spaces.
pub open spec fn words(cmd: Seq<char>) -> Seq<Seq<char>> {
    splitn(trimmed(cmd), 3, ' ')
}

/// `line` lists the keys of `m` in ascending order, comma-separated, or is
/// `(empty)`.
pub open spec fn listing(m: Map<Seq<char>, Value>, line: Seq<char>) -> bool {
    exists|ks: Seq<Seq<char>>|
        #![trigger sorted_strict(ks)]
        sorted_strict(ks) && (forall|k: Seq<char>| #[trigger] ks.contains(k) <==> m.contains_key(k))
            && line == (if ks.len() == 0 {
            "(empty)"@
        } else {
            join(ks, ","@)
        })
}

/// One command: the store before (`m0`) and after (`m1`), and the output line.
pub open spec fn golden_step(
    m0: Map<Seq<char>, Value>,
    cmd: Seq<char>,
    m1: Map<Seq<char>, Value>,
    line: Seq<char>,
) -> bool {
    let w = words(cmd);
    if w[0] == "SET"@ {
        if w.len() >= 3 {
            &&& m1 == m0.insert(w[1], m1[w[1]])
            &&& m1[w[1]] matches Value::Str(s) && s@ == w[2]
            &&& line == "OK"@
        } else {
            m1 == m0 && line == "ERROR: SET requires key and value"@
        }
    } else if w[0] == "GET"@ {
        &&& m1 == m0
        &&& line == if w.len() >= 2 {
            shown(lookup(m0, w[1]))
        } else {
            "ERROR: GET requires a key"@
        }
    } else if w[0] == "DELETE"@ {
        if w.len() >= 2 {
            &&& m1 == m0.remove(w[1])
            &&& line == if m0.contains_key(w[1]) {
                "OK"@
            } else {
                "NOT_FOUND"@
            }
        } else {
            m1 == m0 && line == "ERROR: DELETE requires a key"@
        }
    } else if w[0] == "LEN"@ {
        m1 == m0 && line == decimal(m0.dom().len())
    } else if w[0] == "KEYS"@ {
        m1 == m0 && listing(m0, line)
    } else {
        m1 == m0 && line == "ERROR: unknown command"@
    }
}

/// A `SET key value` command followed by `GET key` outputs the value set.
pub proof fn lemma_set_then_get(
    m0: Map<Seq<char>, Value>,
    set_cmd: Seq<char>,
    m1: Map<Seq<char>, Value>,
    line1: Seq<char>,
    get_cmd: Seq<char>,
    m2: Map<Seq<char>, Value>,
    line2: Seq<char>,
)
    requires
        golden_step(m0, set_cmd, m1, line1),
        golden_step(m1, get_cmd, m2, line2),
        words(set_cmd)[0] == "SET"@,
        words(set_cmd).len() >= 3,
        words(get_cmd)[0] == "GET"@,
        words(get_cmd).len() >= 2,
        words(get_cmd)[1] == words(set_cmd)[1],
    ensures
        line1 == "OK"@,
        line2 == words(set_cmd)[2],
        m2 == m1,
{
    reveal_strlit("SET");
    reveal_strlit("GET");
    assert("GET"@ != "SET"@) by {
        assert("GET"@[0] != "SET"@[0]);
    }
    let k = words(set_cmd)[1];
    assert(m1.contains_key(k)) by {
        assert(m1 == m0.insert(k, m1[k]));
    }
}

/// A `DELETE key` command followed by `GET key` outputs `NULL`.
pub proof fn lemma_delete_then_get(
    m0: Map<Seq<char>, Value>,
    del_cmd: Seq<char>,
    m1: Map<Seq<char>, Value>,
    line1: Seq<char>,
    get_cmd: Seq<char>,
    m2: Map<Seq<char>, Value>,
    line2: Seq<char>,
)
    requires
        golden_step(m0, del_cmd, m1, line1),
        golden_step(m1, get_cmd, m2, line2),
        words(del_cmd)[0] == "DELETE"@,
        words(del_cmd).len() >= 2,
        words(get_cmd)[0] == "GET"@,
        words(get_cmd).len() >= 2,
        words(get_cmd)[1] == words(del_cmd)[1],
    ensures
        line1 == (if m0.contains_key(words(del_cmd)[1]) {
            "OK"@
        } else {
            "NOT_FOUND"@
        }),
        line2 == "NULL"@,
{
    reveal_strlit("SET");
    reveal_strlit("DELETE");
    reveal_strlit("GET");
    assert("SET"@ != "DELETE"@) by {
        assert("SET"@[0] != "DELETE"@[0]);
    }
    assert("GET"@ != "DELETE"@) by {
        assert("GET"@[0] != "DELETE"@[0]);
    }
    assert("GET"@ != "SET"@) by {
        assert("GET"@[0] != "SET"@[0]);
    }
    let k = words(del_cmd)[1];
    assert(!m1.contains_key(k));
}

/// Executes commands against a store and records one line per command.
pub struct GoldenRunner {
    store: KvStore,
    output: Vec<String>,
}

impl GoldenRunner {
    pub closed spec fn wf(&self) -> bool {
        self.store.wf()
    }

    /// The store's contents.
    pub closed spec fn contents(&self) -> Map<Seq<char>, Value> {
        self.store@
    }

    /// The output lines so far.
    pub closed spec fn lines(&self) -> Seq<Seq<char>> {
        texts(self.output@)
    }

    /// A runner with an empty store and no output.
    pub fn new() -> (r: GoldenRunner)
        ensures
            r.wf(),
            r.contents() == Map::<Seq<char>, Value>::empty(),
            r.lines() == Seq::<Seq<char>>::empty(),
    {
        let r = GoldenRunner { store: KvStore::new(), output: Vec::new() };
        proof {
            assert(r.lines() =~= Seq::<Seq<char>>::empty());
        }
        r
    }

    /// Executes one command (`SET key value`, `GET key`, `DELETE key`, `LEN`,
    /// `KEYS`) and records its output line.
    pub fn execute(&mut self, cmd: &str)
        requires
            old(self).wf(),
        ensures
            final(self).wf(),
            final(self).lines().len() == old(self).lines().len() + 1,
            final(self).lines().drop_last() == old(self).lines(),
            golden_step(old(self).contents(), cmd@, final(self).contents(), final(self).lines().last()),
    {
        let ghost m0 = self.store@;
        let ghost l0 = self.lines();
        let t = trim(cmd);
        let parts = split_n(t.as_str(), 3, ' ');
        let ghost w = texts(parts@);
        proof {
            assert(w == words(cmd@));
            assert(w.len() >= 1);
        }
        let line: String;
        if same_chars(parts[0].as_str(), "SET") {
            if parts.len() >= 3 {
                self.store.set(parts[1].as_str(), Value::Str(parts[2].clone()));
                line = String::from_str("OK");
                proof {
                    assert(self.store@[w[1]] == Value::Str(parts[2]));
                    assert(self.store@ == m0.insert(w[1], self.store@[w[1]]));
                }
            } else {
                line = String::from_str("ERROR: SET requires key and value");
            }
        } else if same_chars(parts[0].as_str(), "GET") {
            if parts.len() >= 2 {
                line = self.store.get(parts[1].as_str()).to_string();
            } else {
                line = String::from_str("ERROR: GET requires a key");
            }
        } else if same_chars(parts[0].as_str(), "DELETE") {
            if parts.len() >= 2 {
                if self.store.delete(parts[1].as_str()) {
                    line = String::from_str("OK");
                } else {
                    line = String::from_str("NOT_FOUND");
                }
            } else {
                line = String::from_str("ERROR: DELETE requires a key");
            }
        } else if same_chars(parts[0].as_str(), "LEN") {
            let n = self.store.len();
            line = u64_text(n as u64);
        } else if same_chars(parts[0].as_str(), "KEYS") {
            let keys = self.store.keys();
            if keys.len() == 0 {
                line = String::from_str("(empty)");
            } else {
                line = join_texts(&keys, ",");
            }
            proof {
                assert(sorted_strict(texts(keys@)));
            }
        } else {
            line = String::from_str("ERROR: unknown command");
        }
        let ghost lv = line@;
        self.output.push(line);
        proof {
            assert(self.lines() =~= l0.push(lv));
            assert(self.lines().drop_last() =~= l0);
        }
    }

    /// The output lines joined with newlines.
    pub fn output(&self) -> (s: String)
        ensures
            s@ == join(self.lines(), "\n"@),
    {
        join_texts(&self.output, "\n")
    }
}

/// Setting a key and reading it back gives the value that was set.
pub fn prop_set_get(key: &str, value: Value) -> (r: bool)
    ensures
        r,
{
    let mut store = KvStore::new();
    store.set(key, value.duplicate());
    let got = store.get(key);
    got.equals(&value)
}

/// Setting, then deleting a key, reads back `Null`.
pub fn prop_delete_get(key: &str, value: Value) -> (r: bool)
    ensures
        r,
{
    let mut store = KvStore::new();
    store.set(key, value);
    store.delete(key);
    let got = store.get(key);
    got.equals(&Value::Null)
}

/// After a series of sets, the store holds one entry per distinct key.
pub fn prop_len_tracks_keys(ops: &[(String, Value)]) -> (r: bool)
    ensures
        r,
{
    let mut store = KvStore::new();
    let mut seen: StrMap<()> = StrMap::new();
    let mut i: usize = 0;
    while i < ops.len()
        invariant
            i <= ops.len(),
            store.wf(),
            seen.wf(),
            store@.dom() == seen@.dom(),
        decreases ops.len() - i,
    {
        let (k, v) = &ops[i];
        store.set(k.as_str(), v.duplicate());
        seen.insert(k.clone(), ());
        proof {
            assert(store@.dom() =~= seen@.dom());
        }
        i = i + 1;
    }
    proof {
        lemma_len(seen.table());
    }
    store.len() == seen.len()
}

} // verus!
