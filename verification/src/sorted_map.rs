//! A map from string keys to values kept as entries sorted by key, with
//! range queries in key order.
use vstd::prelude::*;
use crate::text::{lemma_str_lt_order, same_chars, str_le, str_less, str_lt};

verus! {

/// Entries as (key, value) with keys as character sequences.
pub type Entries<V> = Seq<(Seq<char>, V)>;

pub open spec fn entries_of<V>(v: Seq<(String, V)>) -> Entries<V> {
    v.map_values(|e: (String, V)| (e.0@, e.1))
}

/// Keys strictly increase along the entries.
pub open spec fn sorted_keys<V>(p: Entries<V>) -> bool {
    forall|i: int, j: int| 0 <= i < j < p.len() ==> str_lt(p[i].0, p[j].0)
}

/// `start <= key < end`.
pub open spec fn in_range(key: Seq<char>, start: Seq<char>, end: Seq<char>) -> bool {
    str_le(start, key) && str_lt(key, end)
}

/// The entries whose keys lie in `[start, end)`, in key order.
pub open spec fn range_of<V>(p: Entries<V>, start: Seq<char>, end: Seq<char>) -> Entries<V> {
    p.filter(|kv: (Seq<char>, V)| in_range(kv.0, start, end))
}

pub open spec fn has_key<V>(p: Entries<V>, k: Seq<char>) -> bool {
    exists|i: int| 0 <= i < p.len() && p[i].0 == k
}

/// The entries as a map.
pub open spec fn map_of<V>(p: Entries<V>) -> Map<Seq<char>, V> {
    Map::new(
        |k: Seq<char>| has_key(p, k),
        |k: Seq<char>| p[choose|i: int| 0 <= i < p.len() && p[i].0 == k].1,
    )
}

/// Entries of references, as keys and values.
pub open spec fn ref_entries<V>(v: Seq<(&String, &V)>) -> Entries<V> {
    v.map_values(|e: (&String, &V)| (e.0@, *e.1))
}

/// A map with entries sorted by key.
pub struct SortedMap<V> {
    data: Vec<(String, V)>,
}

impl<V> View for SortedMap<V> {
    type V = Map<Seq<char>, V>;

    open spec fn view(&self) -> Map<Seq<char>, V> {
        map_of(self.entries())
    }
}

proof fn lemma_sorted_unique<V>(p: Entries<V>, j: int, k: int)
    requires
        sorted_keys(p),
        0 <= j < p.len(),
        0 <= k < p.len(),
        p[j].0 == p[k].0,
    ensures
        j == k,
{
    if j < k {
        lemma_str_lt_order(p[j].0, p[k].0, p[k].0);
    } else if k < j {
        lemma_str_lt_order(p[k].0, p[j].0, p[j].0);
    }
}

proof fn lemma_lookup<V>(p: Entries<V>, i: int)
    requires
        sorted_keys(p),
        0 <= i < p.len(),
    ensures
        map_of(p).contains_key(p[i].0),
        map_of(p)[p[i].0] == p[i].1,
{
    assert(has_key(p, p[i].0));
    let j = choose|j: int| 0 <= j < p.len() && p[j].0 == p[i].0;
    lemma_sorted_unique(p, i, j);
}

impl<V> SortedMap<V> {
    /// The entries in key order.
    pub closed spec fn entries(&self) -> Entries<V> {
        entries_of(self.data@)
    }

    pub open spec fn wf(&self) -> bool {
        sorted_keys(self.entries())
    }

    /// An empty map.
    pub fn new() -> (m: SortedMap<V>)
        ensures
            m.wf(),
            m@ == Map::<Seq<char>, V>::empty(),
    {
        let m = SortedMap { data: Vec::new() };
        proof {
            assert(m.entries() =~= Entries::<V>::empty());
            assert(m@ =~= Map::<Seq<char>, V>::empty());
        }
        m
    }

    /// The first position whose key is not below `key`.
    fn lower_bound(&self, key: &str) -> (i: usize)
        requires
            self.wf(),
        ensures
            i <= self.entries().len(),
            forall|j: int| 0 <= j < i ==> str_lt(self.entries()[j].0, key@),
            forall|j: int| i <= j < self.entries().len() ==> str_le(key@, self.entries()[j].0),
    {
        let ghost p = self.entries();
        let mut i: usize = 0;
        while i < self.data.len() && str_less(self.data[i].0.as_str(), key)
            invariant
                i <= self.data@.len(),
                p == self.entries(),
                sorted_keys(p),
                forall|j: int| 0 <= j < i ==> str_lt(p[j].0, key@),
            decreases self.data@.len() - i,
        {
            i = i + 1;
        }
        proof {
            assert forall|j: int| i <= j < p.len() implies str_le(key@, p[j].0) by {
                lemma_str_lt_order(p[i as int].0, key@, p[j].0);
                lemma_str_lt_order(key@, p[i as int].0, p[j].0);
            }
        }
        i
    }

    /// Position of `key`, if present.
    fn find(&self, key: &str) -> (r: Option<usize>)
        requires
            self.wf(),
        ensures
            match r {
                Some(i) => i < self.entries().len() && self.entries()[i as int].0 == key@,
                None => !self@.contains_key(key@),
            },
    {
        let i = self.lower_bound(key);
        if i < self.data.len() && same_chars(self.data[i].0.as_str(), key) {
            Some(i)
        } else {
            proof {
                let p = self.entries();
                if has_key(p, key@) {
                    let j = choose|j: int| 0 <= j < p.len() && p[j].0 == key@;
                    if j < i {
                        lemma_str_lt_order(key@, key@, key@);
                    } else if j > i {
                        assert(str_le(key@, p[i as int].0));
                        lemma_str_lt_order(key@, p[i as int].0, p[j].0);
                    }
                }
            }
            None
        }
    }

    /// The value of `key`.
    pub fn get(&self, key: &str) -> (r: Option<&V>)
        requires
            self.wf(),
        ensures
            r == (if self@.contains_key(key@) {
                Some(&self@[key@])
            } else {
                None::<&V>
            }),
    {
        match self.find(key) {
            Some(i) => {
                proof {
                    lemma_lookup(self.entries(), i as int);
                }
                Some(&self.data[i].1)
            },
            None => None,
        }
    }

    /// Sets `key` to `value`.
    pub fn insert(&mut self, key: String, value: V)
        requires
            old(self).wf(),
        ensures
            final(self).wf(),
            final(self)@ == old(self)@.insert(key@, value),
    {
        let ghost p0 = self.entries();
        let ghost kv = key@;
        let i = self.lower_bound(key.as_str());
        if i < self.data.len() && same_chars(self.data[i].0.as_str(), key.as_str()) {
            self.data.set(i, (key, value));
            proof {
                let p1 = self.entries();
                assert(p1 =~= p0.update(i as int, (kv, value)));
                assert(forall|a: int| 0 <= a < p1.len() ==> p1[a].0 == p0[a].0);
                lemma_map_update(p0, i as int, value);
            }
        } else {
            self.data.insert(i, (key, value));
            proof {
                let p1 = self.entries();
                assert(p1 =~= p0.insert(i as int, (kv, value)));
                assert forall|j: int| i <= j < p0.len() implies str_lt(kv, p0[j].0) by {
                    assert(kv != p0[i as int].0);
                    lemma_str_lt_order(kv, p0[i as int].0, p0[j].0);
                }
                assert forall|a: int, b: int| 0 <= a < b < p1.len() implies str_lt(p1[a].0, p1[b].0) by {
                    if a < i && b > i {
                        lemma_str_lt_order(p0[a].0, kv, p0[b - 1].0);
                    } else if a > i {
                        assert(p1[a] == p0[a - 1] && p1[b] == p0[b - 1]);
                    } else if b < i {
                        assert(p1[a] == p0[a] && p1[b] == p0[b]);
                    }
                }
                lemma_map_insert(p0, i as int, kv, value);
            }
        }
    }

    /// Removes `key` and returns its value.
    pub fn remove(&mut self, key: &str) -> (r: Option<V>)
        requires
            old(self).wf(),
        ensures
            final(self).wf(),
            final(self)@ == old(self)@.remove(key@),
            r == (if old(self)@.contains_key(key@) {
                Some(old(self)@[key@])
            } else {
                None::<V>
            }),
    {
        let ghost p0 = self.entries();
        match self.find(key) {
            Some(i) => {
                proof {
                    lemma_lookup(p0, i as int);
                }
                let (_, v) = self.data.remove(i);
                proof {
                    let p1 = self.entries();
                    assert(p1 =~= p0.remove(i as int));
                    assert forall|a: int, b: int| 0 <= a < b < p1.len() implies str_lt(p1[a].0, p1[b].0) by {
                        if b < i {
                            assert(p1[a] == p0[a] && p1[b] == p0[b]);
                        } else if a < i {
                            assert(p1[a] == p0[a] && p1[b] == p0[b + 1]);
                        } else {
                            assert(p1[a] == p0[a + 1] && p1[b] == p0[b + 1]);
                        }
                    }
                    lemma_map_remove(p0, i as int);
                }
                Some(v)
            },
            None => {
                proof {
                    assert(self@ =~= old(self)@.remove(key@));
                }
                None
            },
        }
    }

    /// The number of keys.
    pub fn len(&self) -> (n: usize)
        ensures
            n == self.entries().len(),
    {
        self.data.len()
    }

    /// The entries with `start <= key < end`, in key order.
    pub fn range(&self, start: &str, end: &str) -> (r: Vec<(&String, &V)>)
        requires
            self.wf(),
        ensures
            ref_entries(r@) == range_of(self.entries(), start@, end@),
    {
        let ghost p = self.entries();
        let ghost pred = |kv: (Seq<char>, V)| in_range(kv.0, start@, end@);
        let mut r: Vec<(&String, &V)> = Vec::new();
        let mut i: usize = 0;
        while i < self.data.len()
            invariant
                i <= self.data@.len(),
                p == self.entries(),
                pred == (|kv: (Seq<char>, V)| in_range(kv.0, start@, end@)),
                ref_entries(r@) == p.take(i as int).filter(pred),
            decreases self.data@.len() - i,
        {
            proof {
                reveal_with_fuel(Seq::<_>::filter, 1);
                assert(p.take(i + 1).drop_last() =~= p.take(i as int));
            }
            let k = self.data[i].0.as_str();
            let lo = !str_less(k, start);
            let hi = str_less(k, end);
            if lo && hi {
                let ghost r0 = r@;
                let e = &self.data[i];
                r.push((&e.0, &e.1));
                proof {
                    lemma_str_lt_order(start@, k@, k@);
                    assert(ref_entries(r@) =~= ref_entries(r0).push(p[i as int]));
                }
            } else {
                proof {
                    lemma_str_lt_order(k@, start@, k@);
                }
            }
            i = i + 1;
        }
        proof {
            assert(p.take(i as int) =~= p);
        }
        r
    }
}

/// `rows` are, in key order, exactly the entries of `m` whose keys lie in
/// `[start, end)`.
pub open spec fn range_rows<V>(m: Map<Seq<char>, V>, start: Seq<char>, end: Seq<char>, rows: Entries<V>) -> bool {
    &&& sorted_keys(rows)
    &&& forall|i: int|
        0 <= i < rows.len() ==> in_range(#[trigger] rows[i].0, start, end) && m.contains_key(rows[i].0)
            && m[rows[i].0] == rows[i].1
    &&& forall|k: Seq<char>| #[trigger] m.contains_key(k) && in_range(k, start, end) ==> exists|i: int|
        0 <= i < rows.len() && rows[i].0 == k
}

/// The entries of a sorted list that lie in a range are the map's rows in
/// that range.
pub proof fn lemma_range_rows<V>(p: Entries<V>, start: Seq<char>, end: Seq<char>)
    requires
        sorted_keys(p),
    ensures
        range_rows(map_of(p), start, end, range_of(p, start, end)),
    decreases p.len(),
{
    let pred = |kv: (Seq<char>, V)| in_range(kv.0, start, end);
    let r = range_of(p, start, end);
    reveal_with_fuel(Seq::<_>::filter, 1);
    if p.len() == 0 {
        assert(r =~= Seq::<(Seq<char>, V)>::empty());
    } else {
        let q = p.drop_last();
        let last = p.last();
        assert(sorted_keys(q)) by {
            assert forall|i: int, j: int| 0 <= i < j < q.len() implies str_lt(q[i].0, q[j].0) by {
                assert(q[i] == p[i] && q[j] == p[j]);
            }
        }
        lemma_range_rows(q, start, end);
        let rq = range_of(q, start, end);
        assert(r == if pred(last) {
            rq.push(last)
        } else {
            rq
        });
        assert forall|k: Seq<char>| #[trigger] map_of(q).contains_key(k) implies map_of(p).contains_key(k)
            && map_of(p)[k] == map_of(q)[k] && str_lt(k, last.0) by {
            let j = choose|j: int| 0 <= j < q.len() && q[j].0 == k;
            assert(p[j] == q[j]);
            lemma_lookup(p, j);
            lemma_lookup(q, j);
        }
        lemma_lookup(p, p.len() - 1);
        assert(p[p.len() - 1] == last);
        assert forall|i: int| 0 <= i < r.len() implies in_range(#[trigger] r[i].0, start, end)
            && map_of(p).contains_key(r[i].0) && map_of(p)[r[i].0] == r[i].1 by {
            if i < rq.len() {
                assert(r[i] == rq[i]);
                assert(map_of(q).contains_key(rq[i].0));
            }
        }
        assert forall|a: int, b: int| 0 <= a < b < r.len() implies str_lt(r[a].0, r[b].0) by {
            if b < rq.len() {
                assert(r[a] == rq[a] && r[b] == rq[b]);
            } else {
                assert(r[a] == rq[a]);
                assert(map_of(q).contains_key(rq[a].0));
            }
        }
        assert forall|k: Seq<char>| #[trigger] map_of(p).contains_key(k) && in_range(k, start, end) implies exists|i: int|
            0 <= i < r.len() && r[i].0 == k by {
            if k == last.0 {
                assert(r[r.len() - 1].0 == k);
            } else {
                let j = choose|j: int| 0 <= j < p.len() && p[j].0 == k;
                assert(j != p.len() - 1);
                assert(q[j] == p[j]);
                assert(map_of(q).contains_key(k));
                let i = choose|i: int| 0 <= i < rq.len() && rq[i].0 == k;
                assert(r[i] == rq[i]);
            }
        }
    }
}

proof fn lemma_map_update<V>(p: Entries<V>, i: int, v: V)
    requires
        sorted_keys(p),
        0 <= i < p.len(),
    ensures
        map_of(p.update(i, (p[i].0, v))) == map_of(p).insert(p[i].0, v),
{
    let u = p.update(i, (p[i].0, v));
    assert forall|k: Seq<char>| #[trigger] has_key(u, k) == has_key(p, k) by {
        if has_key(p, k) {
            let j = choose|j: int| 0 <= j < p.len() && p[j].0 == k;
            assert(u[j].0 == k);
        }
        if has_key(u, k) {
            let j = choose|j: int| 0 <= j < u.len() && u[j].0 == k;
            assert(p[j].0 == k);
        }
    }
    assert(map_of(u) =~= map_of(p).insert(p[i].0, v)) by {
        assert forall|k: Seq<char>| map_of(u).contains_key(k) implies map_of(u)[k] == (if k == p[i].0 {
            v
        } else {
            map_of(p)[k]
        }) by {
            let j = choose|j: int| 0 <= j < u.len() && u[j].0 == k;
            let j2 = choose|j: int| 0 <= j < p.len() && p[j].0 == k;
            assert(p[j].0 == k);
            lemma_sorted_unique(p, j, j2);
            if k == p[i].0 {
                lemma_sorted_unique(p, j, i);
            }
        }
    }
}

proof fn lemma_map_insert<V>(p: Entries<V>, i: int, key: Seq<char>, v: V)
    requires
        sorted_keys(p.insert(i, (key, v))),
        0 <= i <= p.len(),
    ensures
        map_of(p.insert(i, (key, v))) == map_of(p).insert(key, v),
{
    let u = p.insert(i, (key, v));
    assert forall|k: Seq<char>| #[trigger] has_key(u, k) == (has_key(p, k) || k == key) by {
        if has_key(p, k) {
            let j = choose|j: int| 0 <= j < p.len() && p[j].0 == k;
            if j < i {
                assert(u[j].0 == k);
            } else {
                assert(u[j + 1].0 == k);
            }
        }
        if k == key {
            assert(u[i].0 == k);
        }
        if has_key(u, k) {
            let j = choose|j: int| 0 <= j < u.len() && u[j].0 == k;
            if j < i {
                assert(p[j].0 == k);
            } else if j > i {
                assert(p[j - 1].0 == k);
            }
        }
    }
    assert(map_of(u) =~= map_of(p).insert(key, v)) by {
        assert forall|k: Seq<char>| map_of(u).contains_key(k) implies map_of(u)[k] == (if k == key {
            v
        } else {
            map_of(p)[k]
        }) by {
            let j = choose|j: int| 0 <= j < u.len() && u[j].0 == k;
            if k == key {
                assert(u[i].0 == k);
                lemma_sorted_unique(u, j, i);
            } else {
                let j2 = choose|j: int| 0 <= j < p.len() && p[j].0 == k;
                if j2 < i {
                    assert(u[j2].0 == k);
                    lemma_sorted_unique(u, j, j2);
                } else {
                    assert(u[j2 + 1].0 == k);
                    lemma_sorted_unique(u, j, j2 + 1);
                }
            }
        }
    }
}

proof fn lemma_map_remove<V>(p: Entries<V>, i: int)
    requires
        sorted_keys(p),
        0 <= i < p.len(),
    ensures
        map_of(p.remove(i)) == map_of(p).remove(p[i].0),
{
    let u = p.remove(i);
    let key = p[i].0;
    assert forall|k: Seq<char>| #[trigger] has_key(u, k) == (has_key(p, k) && k != key) by {
        if has_key(p, k) && k != key {
            let j = choose|j: int| 0 <= j < p.len() && p[j].0 == k;
            if j < i {
                assert(u[j].0 == k);
            } else if j > i {
                assert(u[j - 1].0 == k);
            }
        }
        if has_key(u, k) {
            let j = choose|j: int| 0 <= j < u.len() && u[j].0 == k;
            if j < i {
                assert(p[j].0 == k);
                if k == key {
                    lemma_sorted_unique(p, j, i);
                }
            } else {
                assert(p[j + 1].0 == k);
                if k == key {
                    lemma_sorted_unique(p, j + 1, i);
                }
            }
        }
    }
    assert(map_of(u) =~= map_of(p).remove(key)) by {
        assert forall|k: Seq<char>| map_of(u).contains_key(k) implies map_of(u)[k] == map_of(p)[k] by {
            let j = choose|j: int| 0 <= j < u.len() && u[j].0 == k;
            let j2 = choose|j: int| 0 <= j < p.len() && p[j].0 == k;
            if j < i {
                assert(u[j] == p[j]);
                lemma_sorted_unique(p, j, j2);
            } else {
                assert(u[j] == p[j + 1]);
                lemma_sorted_unique(p, j + 1, j2);
            }
        }
    }
}

} // verus!
