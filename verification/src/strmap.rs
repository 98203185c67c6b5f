//! A map from string keys to values, kept as a vector of entries in
//! insertion order with no key twice.
use vstd::prelude::*;

verus! {

/// Entries as (key, value) with keys as character sequences.
pub type Entries<V> = Seq<(Seq<char>, V)>;

pub open spec fn entries_of<V>(v: Seq<(String, V)>) -> Entries<V> {
    v.map_values(|e: (String, V)| (e.0@, e.1))
}

/// The keys of the entries, in order.
pub open spec fn keys_of<V>(t: Entries<V>) -> Seq<Seq<char>> {
    t.map_values(|e: (Seq<char>, V)| e.0)
}

pub open spec fn keys_distinct<V>(t: Entries<V>) -> bool {
    forall|i: int, j: int| 0 <= i < t.len() && 0 <= j < t.len() && i != j ==> t[i].0 != t[j].0
}

pub open spec fn has_key<V>(t: Entries<V>, k: Seq<char>) -> bool {
    exists|i: int| 0 <= i < t.len() && t[i].0 == k
}

/// The entries as a map.
pub open spec fn map_of<V>(t: Entries<V>) -> Map<Seq<char>, V> {
    Map::new(
        |k: Seq<char>| has_key(t, k),
        |k: Seq<char>| t[choose|i: int| 0 <= i < t.len() && t[i].0 == k].1,
    )
}

pub proof fn lemma_entry<V>(t: Entries<V>, i: int)
    requires
        keys_distinct(t),
        0 <= i < t.len(),
    ensures
        map_of(t).contains_key(t[i].0),
        map_of(t)[t[i].0] == t[i].1,
{
    let k = t[i].0;
    assert(has_key(t, k));
    let j = choose|j: int| 0 <= j < t.len() && t[j].0 == k;
    assert(j == i);
}

pub proof fn lemma_key_at<V>(t: Entries<V>, k: Seq<char>) -> (i: int)
    requires
        has_key(t, k),
    ensures
        0 <= i < t.len(),
        t[i].0 == k,
{
    choose|i: int| 0 <= i < t.len() && t[i].0 == k
}

/// The map has as many keys as there are entries.
pub proof fn lemma_len<V>(t: Entries<V>)
    requires
        keys_distinct(t),
    ensures
        map_of(t).dom().finite(),
        map_of(t).dom().len() == t.len(),
{
    let ks = keys_of(t);
    assert(ks.no_duplicates()) by {
        assert forall|i: int, j: int| 0 <= i < ks.len() && 0 <= j < ks.len() && i != j implies ks[i]
            != ks[j] by {
            assert(ks[i] == t[i].0 && ks[j] == t[j].0);
        }
    }
    ks.unique_seq_to_set();
    assert(map_of(t).dom() =~= ks.to_set()) by {
        assert forall|k: Seq<char>| map_of(t).dom().contains(k) <==> ks.to_set().contains(k) by {
            if has_key(t, k) {
                let i = lemma_key_at(t, k);
                assert(ks[i] == k);
            }
            if ks.to_set().contains(k) {
                let i = choose|i: int| 0 <= i < ks.len() && ks[i] == k;
                assert(t[i].0 == k);
            }
        }
    }
}

/// A map from strings to values.
pub struct StrMap<V> {
    entries: Vec<(String, V)>,
}

impl<V> View for StrMap<V> {
    type V = Map<Seq<char>, V>;

    open spec fn view(&self) -> Map<Seq<char>, V> {
        map_of(self.table())
    }
}

impl<V> StrMap<V> {
    /// The entries in insertion order.
    pub closed spec fn table(&self) -> Entries<V> {
        entries_of(self.entries@)
    }

    pub open spec fn wf(&self) -> bool {
        keys_distinct(self.table())
    }

    /// An empty map.
    pub fn new() -> (m: StrMap<V>)
        ensures
            m.wf(),
            m@ == Map::<Seq<char>, V>::empty(),
            m.table() == Entries::<V>::empty(),
    {
        let m = StrMap { entries: Vec::new() };
        proof {
            assert(m.table() =~= Entries::<V>::empty());
            assert(m@ =~= Map::<Seq<char>, V>::empty());
        }
        m
    }

    /// Position of `key`, if present.
    pub fn position(&self, key: &str) -> (r: Option<usize>)
        requires
            self.wf(),
        ensures
            match r {
                Some(i) => i < self.table().len() && self.table()[i as int].0 == key@,
                None => !self@.contains_key(key@),
            },
    {
        let k = String::from_str(key);
        let mut i: usize = 0;
        while i < self.entries.len()
            invariant
                i <= self.entries@.len(),
                k@ == key@,
                forall|j: int| 0 <= j < i ==> self.table()[j].0 != key@,
            decreases self.entries@.len() - i,
        {
            if self.entries[i].0 == k {
                return Some(i);
            }
            i = i + 1;
        }
        None
    }

    /// The value of `key`.
    pub fn get(&self, key: &str) -> (r: Option<&V>)
        requires
            self.wf(),
        ensures
            r == (if self@.contains_key(key@) {
                Some(&self@[key@])
            } else {
                None::<&V>
            }),
    {
        match self.position(key) {
            Some(i) => {
                proof {
                    lemma_entry(self.table(), i as int);
                }
                Some(&self.entries[i].1)
            },
            None => None,
        }
    }

    /// Whether `key` is present.
    pub fn contains(&self, key: &str) -> (r: bool)
        requires
            self.wf(),
        ensures
            r == self@.contains_key(key@),
    {
        match self.position(key) {
            Some(i) => {
                proof {
                    lemma_entry(self.table(), i as int);
                }
                true
            },
            None => false,
        }
    }

    /// Sets `key` to `value`; a new key goes at the end, an existing one
    /// keeps its place. Returns the previous value.
    pub fn insert(&mut self, key: String, value: V) -> (prev: Option<V>)
        requires
            old(self).wf(),
        ensures
            final(self).wf(),
            final(self)@ == old(self)@.insert(key@, value),
            prev == (if old(self)@.contains_key(key@) {
                Some(old(self)@[key@])
            } else {
                None::<V>
            }),
            old(self)@.contains_key(key@) ==> final(self).table().len() == old(self).table().len(),
            !old(self)@.contains_key(key@) ==> final(self).table() == old(self).table().push(
                (key@, value),
            ),
    {
        let ghost t0 = self.table();
        match self.position(key.as_str()) {
            Some(i) => {
                proof {
                    lemma_entry(t0, i as int);
                }
                let (k0, v0) = self.entries.remove(i);
                self.entries.insert(i, (key, value));
                proof {
                    let t1 = self.table();
                    assert(t1 =~= t0.update(i as int, (t0[i as int].0, value)));
                    lemma_update(t0, i as int, value);
                }
                Some(v0)
            },
            None => {
                let ghost kv = key@;
                self.entries.push((key, value));
                proof {
                    let t1 = self.table();
                    assert(t1 =~= t0.push((kv, value)));
                    lemma_push(t0, kv, value);
                }
                None
            },
        }
    }

    /// Removes `key`, returning its value.
    pub fn remove(&mut self, key: &str) -> (prev: Option<V>)
        requires
            old(self).wf(),
        ensures
            final(self).wf(),
            final(self)@ == old(self)@.remove(key@),
            prev == (if old(self)@.contains_key(key@) {
                Some(old(self)@[key@])
            } else {
                None::<V>
            }),
    {
        let ghost t0 = self.table();
        match self.position(key) {
            Some(i) => {
                proof {
                    lemma_entry(t0, i as int);
                }
                let (_k, v) = self.entries.remove(i);
                proof {
                    let t1 = self.table();
                    assert(t1 =~= t0.remove(i as int));
                    lemma_remove(t0, i as int);
                }
                Some(v)
            },
            None => {
                proof {
                    assert(old(self)@.remove(key@) =~= old(self)@);
                }
                None
            },
        }
    }

    /// The number of keys.
    pub fn len(&self) -> (n: usize)
        requires
            self.wf(),
        ensures
            n == self@.len(),
            n == self.table().len(),
    {
        proof {
            lemma_len(self.table());
        }
        self.entries.len()
    }

    /// The entry at position `i` in insertion order.
    pub fn entry_at(&self, i: usize) -> (r: (&String, &V))
        requires
            i < self.table().len(),
        ensures
            r.0@ == self.table()[i as int].0,
            *r.1 == self.table()[i as int].1,
    {
        (&self.entries[i].0, &self.entries[i].1)
    }
}

pub proof fn lemma_update<V>(t: Entries<V>, i: int, v: V)
    requires
        keys_distinct(t),
        0 <= i < t.len(),
    ensures
        keys_distinct(t.update(i, (t[i].0, v))),
        map_of(t.update(i, (t[i].0, v))) == map_of(t).insert(t[i].0, v),
{
    let u = t.update(i, (t[i].0, v));
    assert forall|a: int, b: int| 0 <= a < u.len() && 0 <= b < u.len() && a != b implies u[a].0
        != u[b].0 by {
        assert(u[a].0 == t[a].0 && u[b].0 == t[b].0);
    }
    assert forall|k: Seq<char>| #[trigger] has_key(u, k) == has_key(t, k) by {
        if has_key(t, k) {
            let j = lemma_key_at(t, k);
            assert(u[j].0 == k);
        }
        if has_key(u, k) {
            let j = lemma_key_at(u, k);
            assert(t[j].0 == k);
        }
    }
    assert forall|k: Seq<char>| has_key(u, k) implies #[trigger] map_of(u)[k] == (if k == t[i].0 {
        v
    } else {
        map_of(t)[k]
    }) by {
        let j = lemma_key_at(u, k);
        lemma_entry(u, j);
        lemma_entry(t, j);
    }
    assert(map_of(u) =~= map_of(t).insert(t[i].0, v));
}

pub proof fn lemma_push<V>(t: Entries<V>, k: Seq<char>, v: V)
    requires
        keys_distinct(t),
        !has_key(t, k),
    ensures
        keys_distinct(t.push((k, v))),
        map_of(t.push((k, v))) == map_of(t).insert(k, v),
{
    let u = t.push((k, v));
    assert forall|a: int, b: int| 0 <= a < u.len() && 0 <= b < u.len() && a != b implies u[a].0
        != u[b].0 by {
        if a < t.len() && b < t.len() {
            assert(u[a].0 == t[a].0 && u[b].0 == t[b].0);
        } else if a < t.len() {
            assert(u[a].0 == t[a].0);
        } else {
            assert(u[b].0 == t[b].0);
        }
    }
    assert forall|x: Seq<char>| #[trigger] has_key(u, x) == (has_key(t, x) || x == k) by {
        if has_key(t, x) {
            let j = lemma_key_at(t, x);
            assert(u[j].0 == x);
        }
        if x == k {
            assert(u[t.len() as int].0 == x);
        }
        if has_key(u, x) && x != k {
            let j = lemma_key_at(u, x);
            assert(t[j].0 == x);
        }
    }
    assert forall|x: Seq<char>| has_key(u, x) implies #[trigger] map_of(u)[x] == (if x == k {
        v
    } else {
        map_of(t)[x]
    }) by {
        let j = lemma_key_at(u, x);
        lemma_entry(u, j);
        if j < t.len() {
            lemma_entry(t, j);
        }
    }
    assert(map_of(u) =~= map_of(t).insert(k, v));
}

pub proof fn lemma_remove<V>(t: Entries<V>, i: int)
    requires
        keys_distinct(t),
        0 <= i < t.len(),
    ensures
        keys_distinct(t.remove(i)),
        map_of(t.remove(i)) == map_of(t).remove(t[i].0),
{
    let u = t.remove(i);
    let k = t[i].0;
    assert forall|a: int, b: int| 0 <= a < u.len() && 0 <= b < u.len() && a != b implies u[a].0
        != u[b].0 by {
        let a2 = if a < i {
            a
        } else {
            a + 1
        };
        let b2 = if b < i {
            b
        } else {
            b + 1
        };
        assert(u[a] == t[a2] && u[b] == t[b2]);
    }
    assert forall|x: Seq<char>| #[trigger] has_key(u, x) == (has_key(t, x) && x != k) by {
        if has_key(t, x) && x != k {
            let j = lemma_key_at(t, x);
            if j < i {
                assert(u[j].0 == x);
            } else {
                assert(j != i);
                assert(u[j - 1].0 == x);
            }
        }
        if has_key(u, x) {
            let j = lemma_key_at(u, x);
            let j2 = if j < i {
                j
            } else {
                j + 1
            };
            assert(t[j2].0 == x);
            assert(j2 != i);
        }
    }
    assert forall|x: Seq<char>| has_key(u, x) implies #[trigger] map_of(u)[x] == map_of(t)[x] by {
        let j = lemma_key_at(u, x);
        lemma_entry(u, j);
        let j2 = if j < i {
            j
        } else {
            j + 1
        };
        assert(u[j] == t[j2]);
        lemma_entry(t, j2);
    }
    assert(map_of(u) =~= map_of(t).remove(k));
}

} // verus!
