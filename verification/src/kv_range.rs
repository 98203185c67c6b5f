//! A key-value store kept sorted by key, with range and prefix queries.
use vstd::prelude::*;
use crate::text::{chars_of, has_prefix, lemma_str_lt_order, starts_with, str_le, str_less, str_lt};

verus! {

/// Key-value pairs as character sequences.
pub type Pairs = Seq<(Seq<char>, Seq<char>)>;

/// The abstract pairs of a vector of string pairs.
pub open spec fn pairs_of(v: Seq<(String, String)>) -> Pairs {
    v.map_values(|p: (String, String)| (p.0@, p.1@))
}

/// Keys strictly increase along the sequence.
pub open spec fn sorted_by_key(p: Pairs) -> bool {
    forall|i: int, j: int| 0 <= i < j < p.len() ==> str_lt(p[i].0, p[j].0)
}

/// `start <= key < end`.
pub open spec fn in_range(key: Seq<char>, start: Seq<char>, end: Seq<char>) -> bool {
    str_le(start, key) && str_lt(key, end)
}

/// The pairs whose keys lie in `[start, end)`, in key order.
pub open spec fn range_of(p: Pairs, start: Seq<char>, end: Seq<char>) -> Pairs {
    p.filter(|kv: (Seq<char>, Seq<char>)| in_range(kv.0, start, end))
}

/// The pairs whose keys start with `prefix`, in key order.
pub open spec fn with_prefix(p: Pairs, prefix: Seq<char>) -> Pairs {
    p.filter(|kv: (Seq<char>, Seq<char>)| starts_with(kv.0, prefix))
}

/// Some pair has key `k`.
pub open spec fn has_key(p: Pairs, k: Seq<char>) -> bool {
    exists|i: int| 0 <= i < p.len() && p[i].0 == k
}

/// The pairs as a map from key to value.
pub open spec fn map_of_pairs(p: Pairs) -> Map<Seq<char>, Seq<char>> {
    Map::new(
        |k: Seq<char>| has_key(p, k),
        |k: Seq<char>| p[choose|i: int| 0 <= i < p.len() && p[i].0 == k].1,
    )
}

/// A store of string pairs sorted by key.
pub struct SortedKvStore {
    data: Vec<(String, String)>,
}

impl View for SortedKvStore {
    type V = Map<Seq<char>, Seq<char>>;

    open spec fn view(&self) -> Map<Seq<char>, Seq<char>> {
        map_of_pairs(self.pairs())
    }
}

fn clone_pair(p: &(String, String)) -> (r: (String, String))
    ensures
        r.0@ == p.0@,
        r.1@ == p.1@,
{
    (p.0.clone(), p.1.clone())
}

impl SortedKvStore {
    /// The pairs in key order.
    pub closed spec fn pairs(&self) -> Pairs {
        pairs_of(self.data@)
    }

    pub open spec fn wf(&self) -> bool {
        sorted_by_key(self.pairs())
    }

    /// An empty store.
    pub fn new() -> (s: SortedKvStore)
        ensures
            s.wf(),
            s.pairs() == Pairs::empty(),
    {
        let s = SortedKvStore { data: Vec::new() };
        proof {
            assert(s.pairs() =~= Pairs::empty());
        }
        s
    }

    /// Sets `key` to `value`, keeping the pairs sorted.
    pub fn set(&mut self, key: String, value: String)
        requires
            old(self).wf(),
        ensures
            final(self).wf(),
            final(self)@ == old(self)@.insert(key@, value@),
    {
        let ghost p0 = self.pairs();
        let mut i: usize = 0;
        while i < self.data.len() && str_less(self.data[i].0.as_str(), key.as_str())
            invariant
                i <= self.data@.len(),
                self.pairs() == p0,
                sorted_by_key(p0),
                forall|j: int| 0 <= j < i ==> str_lt(p0[j].0, key@),
            decreases self.data@.len() - i,
        {
            i = i + 1;
        }
        proof {
            assert forall|j: int| i <= j < p0.len() implies str_le(key@, p0[j].0) by {
                lemma_str_lt_order(p0[i as int].0, key@, p0[j].0);
                lemma_str_lt_order(key@, p0[i as int].0, p0[j].0);
                if j > i {
                    lemma_str_lt_order(key@, p0[i as int].0, p0[j].0);
                }
            }
        }
        if i < self.data.len() && self.data[i].0 == key {
            self.data.set(i, (key, value));
            proof {
                let p1 = self.pairs();
                assert(p1 =~= p0.update(i as int, (key@, value@)));
                assert(forall|a: int| 0 <= a < p1.len() ==> p1[a].0 == p0[a].0);
                assert(self.wf());
                lemma_map_update(p0, i as int, value@);
            }
        } else {
            self.data.insert(i, (key, value));
            proof {
                let p1 = self.pairs();
                assert(p1 =~= p0.insert(i as int, (key@, value@)));
                assert forall|j: int| i <= j < p0.len() implies str_lt(key@, p0[j].0) by {
                    assert(str_le(key@, p0[i as int].0));
                    assert(key@ != p0[i as int].0);
                    lemma_str_lt_order(key@, p0[i as int].0, p0[j].0);
                }
                assert forall|a: int, b: int| 0 <= a < b < p1.len() implies str_lt(
                    p1[a].0,
                    p1[b].0,
                ) by {
                    if a < i && b > i {
                        lemma_str_lt_order(p0[a].0, key@, p0[b - 1].0);
                    } else if a > i {
                        assert(p1[a] == p0[a - 1] && p1[b] == p0[b - 1]);
                    } else if b < i {
                        assert(p1[a] == p0[a] && p1[b] == p0[b]);
                    }
                }
                lemma_map_insert(p0, i as int, key@, value@);
            }
        }
    }

    /// All pairs with `start <= key < end`, in key order; none when
    /// `start >= end`.
    pub fn range(&self, start: &str, end: &str) -> (r: Vec<(String, String)>)
        requires
            self.wf(),
        ensures
            pairs_of(r@) == range_of(self.pairs(), start@, end@),
            !str_lt(start@, end@) ==> r@.len() == 0,
    {
        let ghost p = self.pairs();
        let ghost pred = |kv: (Seq<char>, Seq<char>)| in_range(kv.0, start@, end@);
        let mut r: Vec<(String, String)> = Vec::new();
        let mut i: usize = 0;
        while i < self.data.len()
            invariant
                i <= self.data@.len(),
                p == self.pairs(),
                pred == (|kv: (Seq<char>, Seq<char>)| in_range(kv.0, start@, end@)),
                pairs_of(r@) == p.take(i as int).filter(pred),
                r@.len() > 0 ==> str_lt(start@, end@),
            decreases self.data@.len() - i,
        {
            proof {
                reveal_with_fuel(Seq::<_>::filter, 1);
                assert(p.take(i + 1).drop_last() =~= p.take(i as int));
            }
            let k = self.data[i].0.as_str();
            let lo = !str_less(k, start);
            let hi = str_less(k, end);
            if lo && hi {
                let ghost r0 = r@;
                r.push(clone_pair(&self.data[i]));
                proof {
                    lemma_str_lt_order(start@, k@, k@);
                    lemma_str_lt_order(start@, k@, end@);
                    assert(pairs_of(r@) =~= pairs_of(r0).push(p[i as int]));
                }
            } else {
                proof {
                    lemma_str_lt_order(k@, start@, k@);
                }
            }
            i = i + 1;
        }
        proof {
            assert(p.take(i as int) =~= p);
        }
        r
    }

    /// All pairs whose key starts with `prefix`, in key order.
    pub fn prefix_scan(&self, prefix: &str) -> (r: Vec<(String, String)>)
        requires
            self.wf(),
        ensures
            pairs_of(r@) == with_prefix(self.pairs(), prefix@),
    {
        let ghost p = self.pairs();
        let ghost pred = |kv: (Seq<char>, Seq<char>)| starts_with(kv.0, prefix@);
        let mut r: Vec<(String, String)> = Vec::new();
        let mut i: usize = 0;
        while i < self.data.len()
            invariant
                i <= self.data@.len(),
                p == self.pairs(),
                pred == (|kv: (Seq<char>, Seq<char>)| starts_with(kv.0, prefix@)),
                pairs_of(r@) == p.take(i as int).filter(pred),
            decreases self.data@.len() - i,
        {
            proof {
                reveal_with_fuel(Seq::<_>::filter, 1);
                assert(p.take(i + 1).drop_last() =~= p.take(i as int));
            }
            let kc = chars_of(self.data[i].0.as_str());
            if has_prefix(&kc, prefix) {
                let ghost r0 = r@;
                r.push(clone_pair(&self.data[i]));
                proof {
                    assert(pairs_of(r@) =~= pairs_of(r0).push(p[i as int]));
                }
            }
            i = i + 1;
        }
        proof {
            assert(p.take(i as int) =~= p);
        }
        r
    }

    /// The pair with the smallest key, or `None` for an empty store.
    pub fn min(&self) -> (r: Option<(String, String)>)
        requires
            self.wf(),
        ensures
            self.pairs().len() == 0 ==> r is None,
            self.pairs().len() > 0 ==> (r matches Some(kv) && (kv.0@, kv.1@) == self.pairs()[0]
                && forall|k: Seq<char>| #[trigger] self@.contains_key(k) ==> str_le(kv.0@, k)),
    {
        if self.data.len() == 0 {
            None
        } else {
            let kv = clone_pair(&self.data[0]);
            proof {
                let p = self.pairs();
                assert forall|k: Seq<char>| #[trigger] self@.contains_key(k) implies str_le(
                    kv.0@,
                    k,
                ) by {
                    let j = choose|j: int| 0 <= j < p.len() && p[j].0 == k;
                    assert(j == 0 || str_lt(p[0].0, p[j].0));
                }
            }
            Some(kv)
        }
    }

    /// The pair with the largest key, or `None` for an empty store.
    pub fn max(&self) -> (r: Option<(String, String)>)
        requires
            self.wf(),
        ensures
            self.pairs().len() == 0 ==> r is None,
            self.pairs().len() > 0 ==> (r matches Some(kv) && (kv.0@, kv.1@) == self.pairs().last()
                && forall|k: Seq<char>| #[trigger] self@.contains_key(k) ==> str_le(k, kv.0@)),
    {
        let n = self.data.len();
        if n == 0 {
            None
        } else {
            let kv = clone_pair(&self.data[n - 1]);
            proof {
                let p = self.pairs();
                assert forall|k: Seq<char>| #[trigger] self@.contains_key(k) implies str_le(
                    k,
                    kv.0@,
                ) by {
                    let j = choose|j: int| 0 <= j < p.len() && p[j].0 == k;
                    assert(j == n - 1 || str_lt(p[j].0, p[n - 1].0));
                }
            }
            Some(kv)
        }
    }
}

proof fn lemma_map_update(p: Pairs, i: int, v: Seq<char>)
    requires
        sorted_by_key(p),
        0 <= i < p.len(),
    ensures
        map_of_pairs(p.update(i, (p[i].0, v))) == map_of_pairs(p).insert(p[i].0, v),
{
    let u = p.update(i, (p[i].0, v));
    assert forall|j: int, k: int| 0 <= j < p.len() && 0 <= k < p.len() && p[j].0 == p[k].0 implies j
        == k by {
        if j < k {
            lemma_str_lt_order(p[j].0, p[k].0, p[k].0);
        } else if k < j {
            lemma_str_lt_order(p[k].0, p[j].0, p[j].0);
        }
    }
    assert forall|k: Seq<char>| #[trigger] has_key(u, k) == has_key(p, k) by {
        if has_key(p, k) {
            let j = choose|j: int| 0 <= j < p.len() && p[j].0 == k;
            assert(u[j].0 == k);
        }
        if has_key(u, k) {
            let j = choose|j: int| 0 <= j < u.len() && u[j].0 == k;
            assert(p[j].0 == k);
        }
    }
    assert(map_of_pairs(u) =~= map_of_pairs(p).insert(p[i].0, v)) by {
        assert forall|k: Seq<char>| map_of_pairs(u).contains_key(k) implies map_of_pairs(u)[k] == (if k
            == p[i].0 {
            v
        } else {
            map_of_pairs(p)[k]
        }) by {
            let j = choose|j: int| 0 <= j < u.len() && u[j].0 == k;
            let j2 = choose|j: int| 0 <= j < p.len() && p[j].0 == k;
            assert(p[j].0 == k);
            assert(j == j2);
            if k == p[i].0 {
                assert(j == i);
            }
        }
    }
}

proof fn lemma_map_insert(p: Pairs, i: int, key: Seq<char>, v: Seq<char>)
    requires
        sorted_by_key(p.insert(i, (key, v))),
        0 <= i <= p.len(),
    ensures
        map_of_pairs(p.insert(i, (key, v))) == map_of_pairs(p).insert(key, v),
{
    let u = p.insert(i, (key, v));
    assert forall|j: int, k: int| 0 <= j < u.len() && 0 <= k < u.len() && u[j].0 == u[k].0 implies j
        == k by {
        if j < k {
            lemma_str_lt_order(u[j].0, u[k].0, u[k].0);
        } else if k < j {
            lemma_str_lt_order(u[k].0, u[j].0, u[j].0);
        }
    }
    assert forall|k: Seq<char>| #[trigger] has_key(u, k) == (has_key(p, k) || k == key) by {
        if has_key(p, k) {
            let j = choose|j: int| 0 <= j < p.len() && p[j].0 == k;
            if j < i {
                assert(u[j].0 == k);
            } else {
                assert(u[j + 1].0 == k);
            }
        }
        if k == key {
            assert(u[i].0 == k);
        }
        if has_key(u, k) {
            let j = choose|j: int| 0 <= j < u.len() && u[j].0 == k;
            if j < i {
                assert(p[j].0 == k);
            } else if j > i {
                assert(p[j - 1].0 == k);
            }
        }
    }
    assert(map_of_pairs(u) =~= map_of_pairs(p).insert(key, v)) by {
        assert forall|k: Seq<char>| map_of_pairs(u).contains_key(k) implies map_of_pairs(u)[k] == (if k
            == key {
            v
        } else {
            map_of_pairs(p)[k]
        }) by {
            let j = choose|j: int| 0 <= j < u.len() && u[j].0 == k;
            if k == key {
                assert(u[i].0 == k);
                assert(j == i);
            } else {
                let j2 = choose|j: int| 0 <= j < p.len() && p[j].0 == k;
                if j2 < i {
                    assert(u[j2].0 == k);
                    assert(j == j2);
                } else {
                    assert(u[j2 + 1].0 == k);
                    assert(j == j2 + 1);
                }
            }
        }
    }
}

} // verus!
