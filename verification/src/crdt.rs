//! Replicated counters (CRDTs).
//!
//! A `GCounter` keeps one grow-only count per node; its value is the sum of
//! all node counts, and merging two replicas takes the larger count of each
//! node. A `PNCounter` pairs two `GCounter`s, one for increments and one for
//! decrements.
use vstd::prelude::*;

verus! {

/// The abstract table of a counter: one (node name, count) entry per node.
pub open spec fn table_of(v: Seq<(String, u64)>) -> Seq<(Seq<char>, u64)> {
    v.map_values(|p: (String, u64)| (p.0@, p.1))
}

/// No node name occurs twice in the table.
pub open spec fn names_distinct(t: Seq<(Seq<char>, u64)>) -> bool {
    forall|i: int, j: int| 0 <= i < t.len() && 0 <= j < t.len() && i != j ==> t[i].0 != t[j].0
}

/// The table has an entry for `name`.
pub open spec fn has_name(t: Seq<(Seq<char>, u64)>, name: Seq<char>) -> bool {
    exists|i: int| 0 <= i < t.len() && t[i].0 == name
}

/// The count recorded for `name`, or 0 where the table has none.
pub open spec fn count_in(t: Seq<(Seq<char>, u64)>, name: Seq<char>) -> u64 {
    if has_name(t, name) {
        t[choose|i: int| 0 <= i < t.len() && t[i].0 == name].1
    } else {
        0
    }
}

/// The table as a map from node name to count.
pub open spec fn map_of(t: Seq<(Seq<char>, u64)>) -> Map<Seq<char>, u64> {
    Map::new(|name: Seq<char>| has_name(t, name), |name: Seq<char>| count_in(t, name))
}

/// The sum of all counts in the table.
pub open spec fn total(t: Seq<(Seq<char>, u64)>) -> nat
    decreases t.len(),
{
    if t.len() == 0 {
        0
    } else {
        total(t.drop_last()) + t.last().1 as nat
    }
}

/// The count of `name` in `m`, where a missing node counts as 0.
pub open spec fn count_or_zero(m: Map<Seq<char>, u64>, name: Seq<char>) -> u64 {
    if m.contains_key(name) {
        m[name]
    } else {
        0
    }
}

pub open spec fn max_u64(a: u64, b: u64) -> u64 {
    if a >= b {
        a
    } else {
        b
    }
}

/// The result of merging two counter maps: every node of either map, with
/// the larger of its two counts.
pub open spec fn merged(a: Map<Seq<char>, u64>, b: Map<Seq<char>, u64>) -> Map<Seq<char>, u64> {
    Map::new(
        |name: Seq<char>| a.contains_key(name) || b.contains_key(name),
        |name: Seq<char>| max_u64(count_or_zero(a, name), count_or_zero(b, name)),
    )
}

/// Adds the count of a node to a running sum.
pub open spec fn add_count(m: Map<Seq<char>, u64>) -> spec_fn(nat, Seq<char>) -> nat {
    |acc: nat, name: Seq<char>| acc + m[name] as nat
}

/// The sum of the counts of all nodes of `m`.
pub open spec fn sum_counts(m: Map<Seq<char>, u64>) -> nat {
    m.dom().fold(0nat, add_count(m))
}

proof fn lemma_add_count_commutes(m: Map<Seq<char>, u64>)
    ensures
        vstd::set::fold::is_fun_commutative(add_count(m)),
{
    let f = add_count(m);
    assert forall|a1: Seq<char>, a2: Seq<char>, b: nat| #[trigger] f(f(b, a2), a1) == f(f(b, a1), a2) by {}
}

/// Folding over `s` depends only on the counts of the nodes in `s`.
proof fn lemma_fold_agree(s: Set<Seq<char>>, m1: Map<Seq<char>, u64>, m2: Map<Seq<char>, u64>)
    requires
        s.finite(),
        forall|k: Seq<char>| s.contains(k) ==> m1[k] == m2[k],
    ensures
        s.fold(0nat, add_count(m1)) == s.fold(0nat, add_count(m2)),
{
    let f1 = add_count(m1);
    let f2 = add_count(m2);
    lemma_add_count_commutes(m1);
    lemma_add_count_commutes(m2);
    let pred = |t: Set<Seq<char>>| t.subset_of(s) ==> t.fold(0nat, f1) == t.fold(0nat, f2);
    vstd::set::fold::lemma_fold_empty(0nat, f1);
    vstd::set::fold::lemma_fold_empty(0nat, f2);
    assert forall|t: Set<Seq<char>>, a: Seq<char>| pred(t) && t.finite() && !t.contains(a) implies #[trigger] pred(
        t.insert(a),
    ) by {
        if t.insert(a).subset_of(s) {
            vstd::set::fold::lemma_fold_insert(t, 0nat, f1, a);
            vstd::set::fold::lemma_fold_insert(t, 0nat, f2, a);
            assert(t.subset_of(s));
            assert(s.contains(a));
        }
    }
    vstd::set::fold::lemma_finite_set_induct(s, pred);
}

/// A map with no nodes sums to 0.
pub proof fn lemma_sum_empty()
    ensures
        sum_counts(Map::<Seq<char>, u64>::empty()) == 0,
{
    assert(Map::<Seq<char>, u64>::empty().dom() =~= Set::empty());
    vstd::set::fold::lemma_fold_empty(0nat, add_count(Map::<Seq<char>, u64>::empty()));
}

/// Adding a new node adds its count to the sum.
pub proof fn lemma_sum_insert(m: Map<Seq<char>, u64>, name: Seq<char>, c: u64)
    requires
        m.dom().finite(),
        !m.contains_key(name),
    ensures
        sum_counts(m.insert(name, c)) == sum_counts(m) + c,
{
    let m2 = m.insert(name, c);
    assert(m2.dom() =~= m.dom().insert(name));
    lemma_add_count_commutes(m2);
    vstd::set::fold::lemma_fold_insert(m.dom(), 0nat, add_count(m2), name);
    lemma_fold_agree(m.dom(), m, m2);
}

/// The sum is a node's count plus the sum of the others.
pub proof fn lemma_sum_remove(m: Map<Seq<char>, u64>, name: Seq<char>)
    requires
        m.dom().finite(),
        m.contains_key(name),
    ensures
        sum_counts(m) == sum_counts(m.remove(name)) + m[name],
{
    lemma_sum_insert(m.remove(name), name, m[name]);
    assert(m.remove(name).insert(name, m[name]) =~= m);
}

/// A map whose nodes all occur in `c` with counts at least as large sums
/// to no more than `c`.
proof fn lemma_sum_dominated(a: Map<Seq<char>, u64>, c: Map<Seq<char>, u64>)
    requires
        c.dom().finite(),
        a.dom().subset_of(c.dom()),
        forall|k: Seq<char>| a.contains_key(k) ==> a[k] <= c[k],
    ensures
        sum_counts(a) <= sum_counts(c),
    decreases c.dom().len(),
{
    vstd::set_lib::lemma_set_subset_finite(c.dom(), a.dom());
    if c.dom().len() == 0 {
        assert(c.dom() =~= Set::empty());
        assert(a.dom() =~= Set::empty());
        assert(a =~= Map::empty());
        lemma_sum_empty();
    } else {
        let k = c.dom().choose();
        assert(c.contains_key(k));
        lemma_sum_remove(c, k);
        if a.contains_key(k) {
            lemma_sum_remove(a, k);
            lemma_sum_dominated(a.remove(k), c.remove(k));
        } else {
            assert(a.remove(k) =~= a);
            lemma_sum_dominated(a, c.remove(k));
        }
    }
}

/// The sum of a table with distinct names is the sum of its map.
proof fn lemma_total_is_sum(t: Seq<(Seq<char>, u64)>)
    requires
        names_distinct(t),
    ensures
        map_of(t).dom().finite(),
        total(t) == sum_counts(map_of(t)),
    decreases t.len(),
{
    if t.len() == 0 {
        assert(map_of(t) =~= Map::empty());
        lemma_sum_empty();
    } else {
        let init = t.drop_last();
        let last = t.last();
        assert(names_distinct(init));
        if has_name(init, last.0) {
            let k = choose|k: int| 0 <= k < init.len() && init[k].0 == last.0;
            assert(t[k].0 == t[t.len() - 1].0);
        }
        lemma_push_table(init, last.0, last.1);
        assert(init.push(last) =~= t);
        lemma_total_is_sum(init);
        lemma_sum_insert(map_of(init), last.0, last.1);
    }
}

/// The merge of two finite maps is finite.
proof fn lemma_merged_finite(a: Map<Seq<char>, u64>, b: Map<Seq<char>, u64>)
    requires
        a.dom().finite(),
        b.dom().finite(),
    ensures
        merged(a, b).dom().finite(),
{
    assert(merged(a, b).dom() =~= a.dom().union(b.dom()));
}

proof fn lemma_count_at(t: Seq<(Seq<char>, u64)>, i: int)
    requires
        names_distinct(t),
        0 <= i < t.len(),
    ensures
        has_name(t, t[i].0),
        count_in(t, t[i].0) == t[i].1,
{
    let name = t[i].0;
    assert(has_name(t, name));
    let j = choose|j: int| 0 <= j < t.len() && t[j].0 == name;
    assert(j == i);
}

/// A grow-only counter replicated over nodes.
#[derive(Debug, Clone)]
pub struct GCounter {
    node_id: String,
    counters: Vec<(String, u64)>,
}

impl View for GCounter {
    type V = Map<Seq<char>, u64>;

    /// Node name to count.
    open spec fn view(&self) -> Map<Seq<char>, u64> {
        map_of(self.table())
    }
}

/// Finds the position of `name` in the counter table.
fn position_of(counters: &Vec<(String, u64)>, name: &String) -> (r: Option<usize>)
    requires
        names_distinct(table_of(counters@)),
    ensures
        match r {
            Some(i) => i < counters@.len() && counters@[i as int].0@ == name@,
            None => !has_name(table_of(counters@), name@),
        },
{
    let mut i: usize = 0;
    while i < counters.len()
        invariant
            i <= counters@.len(),
            forall|j: int| 0 <= j < i ==> table_of(counters@)[j].0 != name@,
        decreases counters@.len() - i,
    {
        if counters[i].0 == *name {
            return Some(i);
        }
        i = i + 1;
    }
    None
}

impl GCounter {
    /// The counter table, in insertion order.
    pub closed spec fn table(&self) -> Seq<(Seq<char>, u64)> {
        table_of(self.counters@)
    }

    /// The node that this replica increments.
    pub closed spec fn node(&self) -> Seq<char> {
        self.node_id@
    }

    /// Node names are distinct and the replica's own node has an entry.
    pub closed spec fn wf(&self) -> bool {
        &&& names_distinct(self.table())
        &&& has_name(self.table(), self.node())
    }

    /// The sum of all node counts.
    pub open spec fn total_count(&self) -> nat {
        sum_counts(self@)
    }

    /// A counter for `node_id`, with a count of 0 for that node.
    pub fn new(node_id: &str) -> (c: GCounter)
        ensures
            c.wf(),
            c.node() == node_id@,
            c@ == map![node_id@ => 0u64],
            c.total_count() == 0,
    {
        let mut counters: Vec<(String, u64)> = Vec::new();
        counters.push((String::from_str(node_id), 0));
        let c = GCounter { node_id: String::from_str(node_id), counters };
        proof {
            let t = c.table();
            assert(t[0].0 == node_id@);
            lemma_count_at(t, 0);
            assert(c@ =~= map![node_id@ => 0u64]);
            assert(t.drop_last() =~= Seq::<(Seq<char>, u64)>::empty());
            assert(t.len() == 1 && t.last().1 == 0);
            assert(total(t.drop_last()) == 0);
            assert(total(t) == 0);
            lemma_total_is_sum(t);
        }
        c
    }

    /// Adds one to this node's count.
    pub fn increment(&mut self)
        requires
            old(self).wf(),
            old(self)@[old(self).node()] < u64::MAX,
        ensures
            final(self).wf(),
            final(self).node() == old(self).node(),
            final(self)@ == old(self)@.insert(old(self).node(), (old(self)@[old(self).node()] + 1) as u64),
            final(self).total_count() == old(self).total_count() + 1,
    {
        let ghost old_t = self.table();
        let pos = position_of(&self.counters, &self.node_id);
        match pos {
            Some(i) => {
                proof {
                    lemma_count_at(old_t, i as int);
                }
                let name = self.counters[i].0.clone();
                let count = self.counters[i].1;
                self.counters.set(i, (name, count + 1));
                proof {
                    let t = self.table();
                    assert(t =~= old_t.update(i as int, (old_t[i as int].0, (count + 1) as u64)));
                    lemma_update_table(old_t, i as int, (count + 1) as u64);
                    lemma_total_update(old_t, i as int, (count + 1) as u64);
                    lemma_total_is_sum(old_t);
                    lemma_total_is_sum(t);
                    assert forall|j: int| 0 <= j < t.len() && t[j].0 == self.node() implies j == i by {}
                    assert(has_name(t, self.node())) by {
                        assert(t[i as int].0 == self.node());
                    }
                    assert(self@ =~= old(self)@.insert(old(self).node(), (count + 1) as u64)) by {
                        assert forall|name: Seq<char>| #[trigger] has_name(t, name) == has_name(old_t, name) by {
                            if has_name(old_t, name) {
                                let k = choose|k: int| 0 <= k < old_t.len() && old_t[k].0 == name;
                                assert(t[k].0 == name);
                            }
                            if has_name(t, name) {
                                let k = choose|k: int| 0 <= k < t.len() && t[k].0 == name;
                                assert(old_t[k].0 == name);
                            }
                        }
                        assert forall|name: Seq<char>| has_name(t, name) implies #[trigger] count_in(t, name)
                            == (if name == self.node() { (count + 1) as u64 } else { count_in(old_t, name) }) by {
                            let k = choose|k: int| 0 <= k < t.len() && t[k].0 == name;
                            lemma_count_at(t, k);
                            lemma_count_at(old_t, k);
                        }
                    }
                }
            },
            None => {
                proof {
                    assert(false);
                }
            },
        }
    }

    /// The sum of all node counts.
    pub fn value(&self) -> (v: u64)
        requires
            self.wf(),
            self.total_count() <= u64::MAX,
        ensures
            v == self.total_count(),
    {
        proof {
            lemma_total_is_sum(self.table());
        }
        let mut sum: u64 = 0;
        let mut i: usize = 0;
        while i < self.counters.len()
            invariant
                i <= self.counters@.len(),
                total(self.table()) <= u64::MAX,
                sum == total(self.table().take(i as int)),
            decreases self.counters@.len() - i,
        {
            proof {
                let t = self.table();
                assert(t.take(i + 1).drop_last() =~= t.take(i as int));
                lemma_total_prefix(t, i + 1);
            }
            sum = sum + self.counters[i].1;
            i = i + 1;
        }
        proof {
            assert(self.table().take(i as int) =~= self.table());
        }
        sum
    }

    /// Takes, for every node of either replica, the larger of its two counts.
    pub fn merge(&mut self, other: &GCounter)
        requires
            old(self).wf(),
            other.wf(),
        ensures
            final(self).wf(),
            final(self).node() == old(self).node(),
            final(self)@ == merged(old(self)@, other@),
            final(self).total_count() == sum_counts(merged(old(self)@, other@)),
    {
        let ghost a = old(self)@;
        let ghost ot = other.table();
        let mut j: usize = 0;
        while j < other.counters.len()
            invariant
                j <= other.counters@.len(),
                ot == other.table(),
                names_distinct(ot),
                self.wf(),
                self.node() == old(self).node(),
                self@ == merged(a, map_of(ot.take(j as int))),
            decreases other.counters@.len() - j,
        {
            let ghost before = self@;
            let ghost t0 = self.table();
            let name = other.counters[j].0.clone();
            let count = other.counters[j].1;
            proof {
                lemma_prefix_step(ot, j as int);
                assert(ot[j as int] == (name@, count));
            }
            let ghost p = map_of(ot.take(j as int));
            let ghost p2 = map_of(ot.take(j + 1));
            assert(p2 == p.insert(name@, count));
            assert(!p.contains_key(name@));
            let pos = position_of(&self.counters, &name);
            match pos {
                Some(i) => {
                    let cur = self.counters[i].1;
                    let m = if cur >= count { cur } else { count };
                    let n2 = self.counters[i].0.clone();
                    self.counters.set(i, (n2, m));
                    proof {
                        lemma_count_at(t0, i as int);
                        assert(self.table() =~= t0.update(i as int, (t0[i as int].0, m)));
                        lemma_update_table(t0, i as int, m);
                        assert(before.contains_key(name@));
                        assert(before[name@] == cur);
                        assert(self@ =~= merged(a, p2));
                    }
                },
                None => {
                    self.counters.push((name, count));
                    proof {
                        assert(self.table() =~= t0.push((name@, count)));
                        lemma_push_table(t0, name@, count);
                        assert(!before.contains_key(name@));
                        assert(self@ =~= merged(a, p2));
                    }
                },
            }
            proof {
                assert(self@.contains_key(self.node()));
            }
            j = j + 1;
        }
        proof {
            assert(ot.take(j as int) =~= ot);
        }
    }

    /// The counter table, one (node, count) entry per node, in the order in
    /// which the nodes were first seen.
    pub fn counters(&self) -> (r: &[(String, u64)])
        ensures
            table_of(r@) == self.table(),
    {
        self.counters.as_slice()
    }
}

/// A counter that can go up and down: increments and decrements are kept in
/// two grow-only counters.
#[derive(Debug, Clone)]
pub struct PNCounter {
    positive: GCounter,
    negative: GCounter,
}

impl PNCounter {
    /// The grow-only counter of increments.
    pub closed spec fn pos(&self) -> GCounter {
        self.positive
    }

    /// The grow-only counter of decrements.
    pub closed spec fn neg(&self) -> GCounter {
        self.negative
    }

    pub open spec fn wf(&self) -> bool {
        &&& self.pos().wf()
        &&& self.neg().wf()
        &&& self.pos().node() == self.neg().node()
    }

    /// The value that `value` reports: increments minus decrements.
    pub open spec fn spec_value(&self) -> int {
        self.pos().total_count() - self.neg().total_count()
    }

    /// A counter for `node_id` at value 0.
    pub fn new(node_id: &str) -> (c: PNCounter)
        ensures
            c.wf(),
            c.pos().node() == node_id@,
            c.pos()@ == map![node_id@ => 0u64],
            c.neg()@ == map![node_id@ => 0u64],
            c.spec_value() == 0,
    {
        PNCounter { positive: GCounter::new(node_id), negative: GCounter::new(node_id) }
    }

    /// Adds one.
    pub fn increment(&mut self)
        requires
            old(self).wf(),
            old(self).pos()@[old(self).pos().node()] < u64::MAX,
        ensures
            final(self).wf(),
            final(self).pos()@ == old(self).pos()@.insert(
                old(self).pos().node(),
                (old(self).pos()@[old(self).pos().node()] + 1) as u64,
            ),
            final(self).neg() == old(self).neg(),
            final(self).spec_value() == old(self).spec_value() + 1,
    {
        self.positive.increment();
    }

    /// Subtracts one.
    pub fn decrement(&mut self)
        requires
            old(self).wf(),
            old(self).neg()@[old(self).neg().node()] < u64::MAX,
        ensures
            final(self).wf(),
            final(self).neg()@ == old(self).neg()@.insert(
                old(self).neg().node(),
                (old(self).neg()@[old(self).neg().node()] + 1) as u64,
            ),
            final(self).pos() == old(self).pos(),
            final(self).spec_value() == old(self).spec_value() - 1,
    {
        self.negative.increment();
    }

    /// Increments minus decrements.
    pub fn value(&self) -> (v: i64)
        requires
            self.wf(),
            self.pos().total_count() <= i64::MAX,
            self.neg().total_count() <= i64::MAX,
        ensures
            v == self.spec_value(),
    {
        let p = self.positive.value();
        let n = self.negative.value();
        p as i64 - n as i64
    }

    /// Merges both the increment and the decrement counters.
    pub fn merge(&mut self, other: &PNCounter)
        requires
            old(self).wf(),
            other.wf(),
        ensures
            final(self).wf(),
            final(self).pos()@ == merged(old(self).pos()@, other.pos()@),
            final(self).neg()@ == merged(old(self).neg()@, other.neg()@),
            final(self).spec_value() == sum_counts(merged(old(self).pos()@, other.pos()@)) - sum_counts(
                merged(old(self).neg()@, other.neg()@),
            ),
    {
        self.positive.merge(&other.positive);
        self.negative.merge(&other.negative);
    }
}

/// Merging is commutative: replicas that exchange state in either order agree.
pub proof fn lemma_merge_commutative(a: Map<Seq<char>, u64>, b: Map<Seq<char>, u64>)
    ensures
        merged(a, b) == merged(b, a),
{
    assert(merged(a, b) =~= merged(b, a));
}

/// Merging is associative.
pub proof fn lemma_merge_associative(
    a: Map<Seq<char>, u64>,
    b: Map<Seq<char>, u64>,
    c: Map<Seq<char>, u64>,
)
    ensures
        merged(merged(a, b), c) == merged(a, merged(b, c)),
{
    assert(merged(merged(a, b), c) =~= merged(a, merged(b, c)));
}

/// Merging is idempotent: merging the same replica again changes nothing.
pub proof fn lemma_merge_idempotent(a: Map<Seq<char>, u64>, b: Map<Seq<char>, u64>)
    ensures
        merged(merged(a, b), b) == merged(a, b),
        merged(a, a) == a,
{
    assert(merged(merged(a, b), b) =~= merged(a, b));
    assert(merged(a, a) =~= a);
}

/// A merge never loses a node nor lowers a count.
pub proof fn lemma_merge_dominates(a: Map<Seq<char>, u64>, b: Map<Seq<char>, u64>, name: Seq<char>)
    ensures
        a.contains_key(name) ==> merged(a, b).contains_key(name) && merged(a, b)[name] >= a[name],
        b.contains_key(name) ==> merged(a, b).contains_key(name) && merged(a, b)[name] >= b[name],
{
}

/// Merging never lowers a counter's value: the merged counts sum to at
/// least the value of either replica.
pub proof fn lemma_merge_value_dominates(a: GCounter, b: GCounter)
    requires
        a.wf(),
        b.wf(),
    ensures
        merged(a@, b@).dom().finite(),
        sum_counts(merged(a@, b@)) >= a.total_count(),
        sum_counts(merged(a@, b@)) >= b.total_count(),
{
    lemma_total_is_sum(a.table());
    lemma_total_is_sum(b.table());
    lemma_merged_finite(a@, b@);
    let m = merged(a@, b@);
    assert(a@.dom().subset_of(m.dom()));
    assert(b@.dom().subset_of(m.dom()));
    lemma_sum_dominated(a@, m);
    lemma_sum_dominated(b@, m);
}

proof fn lemma_total_prefix(t: Seq<(Seq<char>, u64)>, n: int)
    requires
        0 <= n <= t.len(),
    ensures
        total(t.take(n)) <= total(t),
    decreases t.len() - n,
{
    if n < t.len() {
        lemma_total_prefix(t, n + 1);
        assert(t.take(n + 1).drop_last() =~= t.take(n));
    } else {
        assert(t.take(n) =~= t);
    }
}

proof fn lemma_total_update(t: Seq<(Seq<char>, u64)>, i: int, c: u64)
    requires
        0 <= i < t.len(),
    ensures
        total(t.update(i, (t[i].0, c))) == total(t) - t[i].1 + c,
    decreases t.len(),
{
    let u = t.update(i, (t[i].0, c));
    if i == t.len() - 1 {
        assert(u.drop_last() =~= t.drop_last());
    } else {
        lemma_total_update(t.drop_last(), i, c);
        assert(u.drop_last() =~= t.drop_last().update(i, (t[i].0, c)));
    }
}

proof fn lemma_update_table(t: Seq<(Seq<char>, u64)>, i: int, c: u64)
    requires
        names_distinct(t),
        0 <= i < t.len(),
    ensures
        names_distinct(t.update(i, (t[i].0, c))),
        map_of(t.update(i, (t[i].0, c))) == map_of(t).insert(t[i].0, c),
{
    let u = t.update(i, (t[i].0, c));
    assert forall|name: Seq<char>| #[trigger] has_name(u, name) == has_name(t, name) by {
        if has_name(t, name) {
            let k = choose|k: int| 0 <= k < t.len() && t[k].0 == name;
            assert(u[k].0 == name);
        }
        if has_name(u, name) {
            let k = choose|k: int| 0 <= k < u.len() && u[k].0 == name;
            assert(t[k].0 == name);
        }
    }
    assert forall|name: Seq<char>| has_name(u, name) implies #[trigger] count_in(u, name) == (if name
        == t[i].0 {
        c
    } else {
        count_in(t, name)
    }) by {
        let k = choose|k: int| 0 <= k < u.len() && u[k].0 == name;
        lemma_count_at(u, k);
        lemma_count_at(t, k);
    }
    lemma_count_at(u, i);
    assert(map_of(u) =~= map_of(t).insert(t[i].0, c));
}

proof fn lemma_push_table(t: Seq<(Seq<char>, u64)>, name: Seq<char>, c: u64)
    requires
        names_distinct(t),
        !has_name(t, name),
    ensures
        names_distinct(t.push((name, c))),
        map_of(t.push((name, c))) == map_of(t).insert(name, c),
{
    let u = t.push((name, c));
    assert forall|i: int, j: int| 0 <= i < u.len() && 0 <= j < u.len() && i != j implies u[i].0
        != u[j].0 by {
        if i == t.len() {
            assert(t[j].0 == u[j].0);
        } else if j == t.len() {
            assert(t[i].0 == u[i].0);
        }
    }
    assert forall|n: Seq<char>| #[trigger] has_name(u, n) == (has_name(t, n) || n == name) by {
        if has_name(t, n) {
            let k = choose|k: int| 0 <= k < t.len() && t[k].0 == n;
            assert(u[k].0 == n);
        }
        if n == name {
            assert(u[t.len() as int].0 == n);
        }
        if has_name(u, n) && n != name {
            let k = choose|k: int| 0 <= k < u.len() && u[k].0 == n;
            assert(t[k].0 == n);
        }
    }
    assert forall|n: Seq<char>| has_name(u, n) implies #[trigger] count_in(u, n) == (if n == name {
        c
    } else {
        count_in(t, n)
    }) by {
        let k = choose|k: int| 0 <= k < u.len() && u[k].0 == n;
        lemma_count_at(u, k);
        if k < t.len() {
            lemma_count_at(t, k);
        }
    }
    assert(map_of(u) =~= map_of(t).insert(name, c));
}

proof fn lemma_prefix_step(t: Seq<(Seq<char>, u64)>, j: int)
    requires
        names_distinct(t),
        0 <= j < t.len(),
    ensures
        names_distinct(t.take(j)),
        !has_name(t.take(j), t[j].0),
        t.take(j + 1) == t.take(j).push(t[j]),
        map_of(t.take(j + 1)) == map_of(t.take(j)).insert(t[j].0, t[j].1),
{
    let p = t.take(j);
    assert(t.take(j + 1) =~= p.push(t[j]));
    if has_name(p, t[j].0) {
        let k = choose|k: int| 0 <= k < p.len() && p[k].0 == t[j].0;
        assert(t[k].0 == t[j].0);
    }
    lemma_push_table(p, t[j].0, t[j].1);
}

} // verus!
