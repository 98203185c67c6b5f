//! Deadlock detection on a wait-for graph: an edge `a -> b` says that
//! transaction `a` waits for `b`; a deadlock is a cycle.
use vstd::prelude::*;

verus! {

/// The wait-for graph: each waiter with the transactions it waits for.
pub type Graph = Map<u64, Seq<u64>>;

/// The table of a graph: (waiter, holders) entries.
pub type Table = Seq<(u64, Seq<u64>)>;

pub open spec fn table_of(v: Seq<(u64, Vec<u64>)>) -> Table {
    v.map_values(|e: (u64, Vec<u64>)| (e.0, e.1@))
}

/// No waiter has two entries.
pub open spec fn waiters_distinct(t: Table) -> bool {
    forall|i: int, j: int| 0 <= i < t.len() && 0 <= j < t.len() && i != j ==> t[i].0 != t[j].0
}

pub open spec fn has_waiter(t: Table, a: u64) -> bool {
    exists|i: int| 0 <= i < t.len() && t[i].0 == a
}

/// The table as a map from waiter to the transactions it waits for.
pub open spec fn graph_of(t: Table) -> Graph {
    Map::new(
        |a: u64| has_waiter(t, a),
        |a: u64| t[choose|i: int| 0 <= i < t.len() && t[i].0 == a].1,
    )
}

/// `a` waits for `b`.
pub open spec fn edge(g: Graph, a: u64, b: u64) -> bool {
    g.contains_key(a) && g[a].contains(b)
}

/// `p` is a walk of at least one edge.
pub open spec fn is_path(g: Graph, p: Seq<u64>) -> bool {
    p.len() >= 2 && forall|i: int| 0 <= i < p.len() - 1 ==> #[trigger] edge(g, p[i], p[i + 1])
}

/// `b` can be reached from `a` along one or more edges.
pub open spec fn reaches(g: Graph, a: u64, b: u64) -> bool {
    exists|p: Seq<u64>| #[trigger] is_path(g, p) && p[0] == a && p.last() == b
}

/// `v` lies on a cycle of the graph.
pub open spec fn on_cycle(g: Graph, v: u64) -> bool {
    reaches(g, v, v)
}

/// The graph has a cycle.
pub open spec fn cyclic(g: Graph) -> bool {
    exists|v: u64| #[trigger] on_cycle(g, v)
}

/// The graph without `txn`: its entry is dropped and it is removed from
/// every list of holders.
pub open spec fn without(g: Graph, txn: u64) -> Graph {
    Map::new(
        |a: u64| g.contains_key(a) && a != txn,
        |a: u64| drop_txn(g[a], txn),
    )
}

/// `s` without the occurrences of `txn`.
pub open spec fn drop_txn(s: Seq<u64>, txn: u64) -> Seq<u64> {
    s.filter(|b: u64| b != txn)
}

/// Some entry before position `i` is for waiter `u`.
pub open spec fn listed_before(t: Table, i: int, u: u64) -> bool {
    exists|k: int| 0 <= k < i && t[k].0 == u
}

/// All holders named in the table, in table order.
pub open spec fn holders(t: Table) -> Seq<u64>
    decreases t.len(),
{
    if t.len() == 0 {
        Seq::empty()
    } else {
        holders(t.drop_last()) + t.last().1
    }
}

proof fn lemma_holders_contains(t: Table, i: int, b: u64)
    requires
        0 <= i < t.len(),
        t[i].1.contains(b),
    ensures
        holders(t).contains(b),
    decreases t.len(),
{
    let k = choose|k: int| 0 <= k < t[i].1.len() && t[i].1[k] == b;
    if i == t.len() - 1 {
        let h = holders(t.drop_last());
        assert((h + t.last().1)[h.len() + k] == b);
    } else {
        lemma_holders_contains(t.drop_last(), i, b);
        let h = holders(t.drop_last());
        let j = choose|j: int| 0 <= j < h.len() && h[j] == b;
        assert((h + t.last().1)[j] == b);
    }
}

proof fn lemma_entry(t: Table, i: int)
    requires
        waiters_distinct(t),
        0 <= i < t.len(),
    ensures
        graph_of(t).contains_key(t[i].0),
        graph_of(t)[t[i].0] == t[i].1,
{
    let a = t[i].0;
    assert(has_waiter(t, a));
    let j = choose|j: int| 0 <= j < t.len() && t[j].0 == a;
    assert(j == i);
}

proof fn lemma_edge_in_holders(t: Table, a: u64, b: u64)
    requires
        waiters_distinct(t),
        edge(graph_of(t), a, b),
    ensures
        holders(t).contains(b),
{
    let i = choose|i: int| 0 <= i < t.len() && t[i].0 == a;
    lemma_entry(t, i);
    lemma_holders_contains(t, i, b);
}

proof fn lemma_extend_path(g: Graph, a: u64, x: u64, y: u64)
    requires
        reaches(g, a, x),
        edge(g, x, y),
    ensures
        reaches(g, a, y),
{
    let p = choose|p: Seq<u64>| #[trigger] is_path(g, p) && p[0] == a && p.last() == x;
    let q = p.push(y);
    assert forall|i: int| 0 <= i < q.len() - 1 implies #[trigger] edge(g, q[i], q[i + 1]) by {
        if i < p.len() - 1 {
            assert(edge(g, p[i], p[i + 1]));
        }
    }
    assert(is_path(g, q));
}

proof fn lemma_single_edge(g: Graph, a: u64, b: u64)
    requires
        edge(g, a, b),
    ensures
        reaches(g, a, b),
{
    let p = seq![a, b];
    assert forall|i: int| 0 <= i < p.len() - 1 implies #[trigger] edge(g, p[i], p[i + 1]) by {}
    assert(is_path(g, p));
}

/// A set closed under edges that holds the successors of `a` holds every
/// node reachable from `a`.
proof fn lemma_closed_set_holds_reachable(g: Graph, a: u64, s: Seq<u64>, b: u64)
    requires
        forall|y: u64| edge(g, a, y) ==> s.contains(y),
        forall|x: u64, y: u64| s.contains(x) && edge(g, x, y) ==> s.contains(y),
        reaches(g, a, b),
    ensures
        s.contains(b),
{
    let p = choose|p: Seq<u64>| #[trigger] is_path(g, p) && p[0] == a && p.last() == b;
    lemma_path_in_closed_set(g, a, s, p, p.len() - 1);
}

proof fn lemma_path_edge(g: Graph, p: Seq<u64>, i: int)
    requires
        is_path(g, p),
        0 <= i < p.len() - 1,
    ensures
        edge(g, p[i], p[i + 1]),
{
}

proof fn lemma_path_in_closed_set(g: Graph, a: u64, s: Seq<u64>, p: Seq<u64>, k: int)
    requires
        forall|y: u64| edge(g, a, y) ==> s.contains(y),
        forall|x: u64, y: u64| s.contains(x) && edge(g, x, y) ==> s.contains(y),
        is_path(g, p),
        p[0] == a,
        1 <= k < p.len(),
    ensures
        s.contains(p[k]),
    decreases k,
{
    lemma_path_edge(g, p, k - 1);
    if k > 1 {
        lemma_path_in_closed_set(g, a, s, p, k - 1);
    }
}

/// Transactions and the transactions they wait for.
pub struct WaitForGraph {
    edges: Vec<(u64, Vec<u64>)>,
}

impl View for WaitForGraph {
    type V = Graph;

    open spec fn view(&self) -> Graph {
        graph_of(self.table())
    }
}

/// Whether `x` occurs in `v`.
fn contains(v: &Vec<u64>, x: u64) -> (r: bool)
    ensures
        r == v@.contains(x),
{
    let mut i: usize = 0;
    while i < v.len()
        invariant
            i <= v@.len(),
            forall|j: int| 0 <= j < i ==> v@[j] != x,
        decreases v@.len() - i,
    {
        if v[i] == x {
            return true;
        }
        i = i + 1;
    }
    false
}

impl WaitForGraph {
    /// The (waiter, holders) entries.
    pub closed spec fn table(&self) -> Table {
        table_of(self.edges@)
    }

    pub closed spec fn wf(&self) -> bool {
        waiters_distinct(self.table())
    }

    /// An empty graph.
    pub fn new() -> (g: WaitForGraph)
        ensures
            g.wf(),
            g@ == Graph::empty(),
    {
        let g = WaitForGraph { edges: Vec::new() };
        proof {
            assert(g@ =~= Graph::empty());
        }
        g
    }

    fn position(&self, a: u64) -> (r: Option<usize>)
        requires
            self.wf(),
        ensures
            match r {
                Some(i) => i < self.edges@.len() && self.edges@[i as int].0 == a,
                None => !has_waiter(self.table(), a),
            },
    {
        let mut i: usize = 0;
        while i < self.edges.len()
            invariant
                i <= self.edges@.len(),
                forall|j: int| 0 <= j < i ==> self.table()[j].0 != a,
            decreases self.edges@.len() - i,
        {
            if self.edges[i].0 == a {
                return Some(i);
            }
            i = i + 1;
        }
        None
    }

    /// Records that `waiter` waits for `holder`.
    pub fn add_wait(&mut self, waiter: u64, holder: u64)
        requires
            old(self).wf(),
        ensures
            final(self).wf(),
            final(self)@ == old(self)@.insert(
                waiter,
                if old(self)@.contains_key(waiter) {
                    old(self)@[waiter].push(holder)
                } else {
                    seq![holder]
                },
            ),
    {
        let ghost t0 = self.table();
        match self.position(waiter) {
            Some(i) => {
                proof {
                    lemma_entry(t0, i as int);
                }
                let mut entry = self.edges.remove(i);
                entry.1.push(holder);
                self.edges.insert(i, entry);
                proof {
                    let t1 = self.table();
                    assert(t1 =~= t0.update(i as int, (waiter, t0[i as int].1.push(holder))));
                    assert forall|j: int, k: int| 0 <= j < t1.len() && 0 <= k < t1.len() && j != k
                        implies t1[j].0 != t1[k].0 by {
                        assert(t1[j].0 == t0[j].0 && t1[k].0 == t0[k].0);
                    }
                    lemma_entry(t1, i as int);
                    assert forall|a: u64| #[trigger] has_waiter(t1, a) == has_waiter(t0, a) by {
                        if has_waiter(t0, a) {
                            let k = choose|k: int| 0 <= k < t0.len() && t0[k].0 == a;
                            assert(t1[k].0 == a);
                        }
                        if has_waiter(t1, a) {
                            let k = choose|k: int| 0 <= k < t1.len() && t1[k].0 == a;
                            assert(t0[k].0 == a);
                        }
                    }
                    assert forall|a: u64| has_waiter(t1, a) && a != waiter implies graph_of(t1)[a]
                        == graph_of(t0)[a] by {
                        let k = choose|k: int| 0 <= k < t0.len() && t0[k].0 == a;
                        lemma_entry(t0, k);
                        lemma_entry(t1, k);
                    }
                    assert(self@ =~= old(self)@.insert(waiter, old(self)@[waiter].push(holder)));
                }
            },
            None => {
                let mut list: Vec<u64> = Vec::new();
                list.push(holder);
                self.edges.push((waiter, list));
                proof {
                    let t1 = self.table();
                    assert(t1 =~= t0.push((waiter, seq![holder])));
                    assert forall|j: int, k: int| 0 <= j < t1.len() && 0 <= k < t1.len() && j != k
                        implies t1[j].0 != t1[k].0 by {
                        if j < t0.len() && k < t0.len() {
                            assert(t1[j].0 == t0[j].0 && t1[k].0 == t0[k].0);
                        } else if j < t0.len() {
                            assert(t1[j].0 == t0[j].0);
                        } else {
                            assert(t1[k].0 == t0[k].0);
                        }
                    }
                    lemma_entry(t1, t0.len() as int);
                    assert forall|a: u64| #[trigger] has_waiter(t1, a) == (has_waiter(t0, a) || a
                        == waiter) by {
                        if has_waiter(t0, a) {
                            let k = choose|k: int| 0 <= k < t0.len() && t0[k].0 == a;
                            assert(t1[k].0 == a);
                        }
                        if has_waiter(t1, a) && a != waiter {
                            let k = choose|k: int| 0 <= k < t1.len() && t1[k].0 == a;
                            assert(t0[k].0 == a);
                        }
                    }
                    assert forall|a: u64| has_waiter(t0, a) implies graph_of(t1)[a]
                        == graph_of(t0)[a] by {
                        let k = choose|k: int| 0 <= k < t0.len() && t0[k].0 == a;
                        lemma_entry(t0, k);
                        lemma_entry(t1, k);
                    }
                    assert(self@ =~= old(self)@.insert(waiter, seq![holder]));
                }
            },
        }
    }

    /// Appends to `visited` every successor of `x` that it does not hold yet.
    fn push_successors(&self, x: u64, visited: &mut Vec<u64>)
        requires
            self.wf(),
            old(visited)@.no_duplicates(),
        ensures
            final(visited)@.no_duplicates(),
            final(visited)@.len() >= old(visited)@.len(),
            final(visited)@.take(old(visited)@.len() as int) == old(visited)@,
            forall|y: u64| edge(self@, x, y) ==> final(visited)@.contains(y),
            forall|k: int|
                old(visited)@.len() <= k < final(visited)@.len() ==> edge(self@, x, final(visited)@[k]),
    {
        let ghost v0 = visited@;
        match self.position(x) {
            None => {
                proof {
                    assert(visited@.take(v0.len() as int) =~= v0);
                }
            },
            Some(i) => {
                proof {
                    lemma_entry(self.table(), i as int);
                }
                let succ = &self.edges[i].1;
                let mut j: usize = 0;
                while j < succ.len()
                    invariant
                        succ@ == self@[x],
                        self@.contains_key(x),
                        j <= succ@.len(),
                        visited@.no_duplicates(),
                        visited@.len() >= v0.len(),
                        visited@.take(v0.len() as int) == v0,
                        forall|k: int| 0 <= k < j ==> visited@.contains(succ@[k]),
                        forall|k: int| v0.len() <= k < visited@.len() ==> edge(self@, x, visited@[k]),
                    decreases succ@.len() - j,
                {
                    let y = succ[j];
                    if !contains(visited, y) {
                        let ghost before = visited@;
                        visited.push(y);
                        proof {
                            assert(visited@.take(v0.len() as int) =~= before.take(v0.len() as int));
                            assert(succ@.contains(y));
                            assert forall|k: int| 0 <= k < j implies visited@.contains(succ@[k]) by {
                                let w = choose|w: int| 0 <= w < before.len() && before[w] == succ@[k];
                                assert(visited@[w] == succ@[k]);
                            }
                            assert(visited@[before.len() as int] == y);
                        }
                    }
                    j = j + 1;
                }
                proof {
                    assert forall|y: u64| edge(self@, x, y) implies visited@.contains(y) by {
                        let k = choose|k: int| 0 <= k < succ@.len() && succ@[k] == y;
                    }
                }
            },
        }
    }

    /// The transactions reachable from `v` along one or more edges, each
    /// once.
    fn reachable_from(&self, v: u64) -> (r: Vec<u64>)
        requires
            self.wf(),
        ensures
            r@.no_duplicates(),
            forall|u: u64| r@.contains(u) <==> reaches(self@, v, u),
    {
        let ghost g = self@;
        let ghost bound = holders(self.table()).to_set();
        let mut visited: Vec<u64> = Vec::new();
        self.push_successors(v, &mut visited);
        proof {
            assert forall|k: int| 0 <= k < visited@.len() implies reaches(g, v, visited@[k])
                && bound.contains(visited@[k]) by {
                lemma_single_edge(g, v, visited@[k]);
                lemma_edge_in_holders(self.table(), v, visited@[k]);
            }
        }
        let mut i: usize = 0;
        while i < visited.len()
            invariant
                g == self@,
                bound == holders(self.table()).to_set(),
                self.wf(),
                i <= visited@.len(),
                visited@.no_duplicates(),
                forall|k: int|
                    0 <= k < visited@.len() ==> reaches(g, v, visited@[k]) && bound.contains(
                        visited@[k],
                    ),
                forall|y: u64| edge(g, v, y) ==> visited@.contains(y),
                forall|k: int, y: u64| 0 <= k < i && edge(g, visited@[k], y) ==> visited@.contains(y),
            decreases bound.len() - i,
        {
            proof {
                visited@.unique_seq_to_set();
                vstd::set_lib::lemma_len_subset(visited@.to_set(), bound);
            }
            let x = visited[i];
            let ghost before = visited@;
            self.push_successors(x, &mut visited);
            proof {
                assert forall|k: int| 0 <= k < visited@.len() implies reaches(g, v, visited@[k])
                    && bound.contains(visited@[k]) by {
                    if k < before.len() {
                        assert(visited@[k] == before.take(before.len() as int)[k]);
                    } else {
                        lemma_extend_path(g, v, x, visited@[k]);
                        lemma_edge_in_holders(self.table(), x, visited@[k]);
                    }
                }
                assert forall|y: u64| #[trigger] before.contains(y) implies visited@.contains(y) by {
                    let w = choose|w: int| 0 <= w < before.len() && before[w] == y;
                    assert(visited@[w] == before.take(before.len() as int)[w]);
                }
                assert forall|k: int, y: u64| 0 <= k < i + 1 && edge(g, visited@[k], y) implies visited@.contains(y) by {
                    assert(visited@[k] == before.take(before.len() as int)[k]);
                }
            }
            i = i + 1;
        }
        proof {
            assert forall|u: u64| reaches(g, v, u) implies visited@.contains(u) by {
                assert forall|x: u64, y: u64| visited@.contains(x) && edge(g, x, y) implies visited@.contains(y) by {
                    let k = choose|k: int| 0 <= k < visited@.len() && visited@[k] == x;
                }
                lemma_closed_set_holds_reachable(g, v, visited@, u);
            }
            assert forall|u: u64| visited@.contains(u) implies reaches(g, v, u) by {
                let k = choose|k: int| 0 <= k < visited@.len() && visited@[k] == u;
            }
        }
        visited
    }

    /// Whether the graph has a cycle, that is, a deadlock.
    pub fn has_cycle(&self) -> (r: bool)
        requires
            self.wf(),
        ensures
            r == cyclic(self@),
    {
        let mut i: usize = 0;
        while i < self.edges.len()
            invariant
                self.wf(),
                i <= self.edges@.len(),
                forall|k: int| 0 <= k < i ==> !on_cycle(self@, #[trigger] self.table()[k].0),
            decreases self.edges@.len() - i,
        {
            let v = self.edges[i].0;
            let r = self.reachable_from(v);
            if contains(&r, v) {
                proof {
                    assert(on_cycle(self@, v));
                }
                return true;
            }
            i = i + 1;
        }
        proof {
            assert forall|v: u64| !on_cycle(self@, v) by {
                if on_cycle(self@, v) {
                    let p = choose|p: Seq<u64>| #[trigger] is_path(self@, p) && p[0] == v && p.last()
                        == v;
                    lemma_path_edge(self@, p, 0);
                    let k = choose|k: int| 0 <= k < self.table().len() && self.table()[k].0 == v;
                }
            }
        }
        false
    }

    /// Every transaction that lies on a cycle, each once.
    pub fn find_cycle_members(&self) -> (r: Vec<u64>)
        requires
            self.wf(),
        ensures
            r@.no_duplicates(),
            forall|v: u64| r@.contains(v) <==> on_cycle(self@, v),
    {
        let mut members: Vec<u64> = Vec::new();
        let mut i: usize = 0;
        while i < self.edges.len()
            invariant
                self.wf(),
                i <= self.edges@.len(),
                members@.no_duplicates(),
                forall|v: u64| members@.contains(v) ==> on_cycle(self@, v),
                forall|u: u64| members@.contains(u) ==> listed_before(self.table(), i as int, u),
                forall|k: int|
                    0 <= k < i && on_cycle(self@, #[trigger] self.table()[k].0) ==> members@.contains(
                        self.table()[k].0,
                    ),
            decreases self.edges@.len() - i,
        {
            let v = self.edges[i].0;
            let r = self.reachable_from(v);
            if contains(&r, v) {
                let ghost before = members@;
                assert(!before.contains(v)) by {
                    if before.contains(v) {
                        let k = choose|k: int| 0 <= k < i && self.table()[k].0 == v;
                        assert(self.table()[k].0 == self.table()[i as int].0);
                    }
                }
                members.push(v);
                proof {
                    assert forall|u: u64| #[trigger] before.contains(u) implies members@.contains(u) by {
                        let w = choose|w: int| 0 <= w < before.len() && before[w] == u;
                        assert(members@[w] == u);
                    }
                    assert(members@[before.len() as int] == v);
                    assert forall|u: u64| members@.contains(u) implies listed_before(
                        self.table(),
                        i + 1,
                        u,
                    ) by {
                        let w = choose|w: int| 0 <= w < members@.len() && members@[w] == u;
                        if w < before.len() {
                            assert(before[w] == u);
                            assert(before.contains(u));
                            assert(listed_before(self.table(), i as int, u));
                            let k = choose|k: int| 0 <= k < i && self.table()[k].0 == u;
                            assert(0 <= k < i + 1 && self.table()[k].0 == u);
                        } else {
                            assert(self.table()[i as int].0 == u);
                        }
                    }
                    assert forall|u: u64| members@.contains(u) implies on_cycle(self@, u) by {
                        let w = choose|w: int| 0 <= w < members@.len() && members@[w] == u;
                        if w < before.len() {
                            assert(before[w] == u);
                        }
                    }
                }
            }
            i = i + 1;
        }
        proof {
            assert forall|v: u64| on_cycle(self@, v) implies members@.contains(v) by {
                let p = choose|p: Seq<u64>| #[trigger] is_path(self@, p) && p[0] == v && p.last()
                    == v;
                lemma_path_edge(self@, p, 0);
                let k = choose|k: int| 0 <= k < self.table().len() && self.table()[k].0 == v;
            }
        }
        members
    }

    /// Removes `txn`: drops its own entry and every wait for it.
    pub fn remove_transaction(&mut self, txn_id: u64)
        requires
            old(self).wf(),
        ensures
            final(self).wf(),
            final(self)@ == without(old(self)@, txn_id),
    {
        let ghost t0 = self.table();
        let mut kept: Vec<(u64, Vec<u64>)> = Vec::new();
        let mut i: usize = 0;
        while i < self.edges.len()
            invariant
                self.table() == t0,
                waiters_distinct(t0),
                i <= t0.len(),
                waiters_distinct(table_of(kept@)),
                forall|a: u64| #[trigger] has_waiter(table_of(kept@), a) <==> (exists|k: int|
                    0 <= k < i && t0[k].0 == a && a != txn_id),
                forall|k: int|
                    0 <= k < kept@.len() ==> #[trigger] table_of(kept@)[k].1 == drop_txn(
                        graph_of(t0)[table_of(kept@)[k].0],
                        txn_id,
                    ),
            decreases t0.len() - i,
        {
            let a = self.edges[i].0;
            if a != txn_id {
                let list = &self.edges[i].1;
                let mut filtered: Vec<u64> = Vec::new();
                let mut j: usize = 0;
                while j < list.len()
                    invariant
                        j <= list@.len(),
                        filtered@ == drop_txn(list@.take(j as int), txn_id),
                    decreases list@.len() - j,
                {
                    proof {
                        reveal_with_fuel(Seq::<_>::filter, 1);
                        assert(list@.take(j + 1).drop_last() =~= list@.take(j as int));
                    }
                    if list[j] != txn_id {
                        filtered.push(list[j]);
                    }
                    j = j + 1;
                }
                proof {
                    assert(list@.take(j as int) =~= list@);
                    lemma_entry(t0, i as int);
                }
                let ghost k0 = table_of(kept@);
                kept.push((a, filtered));
                proof {
                    let k1 = table_of(kept@);
                    assert(k1 =~= k0.push((a, drop_txn(graph_of(t0)[a], txn_id))));
                    assert(!has_waiter(k0, a)) by {
                        if has_waiter(k0, a) {
                            let k = choose|k: int| 0 <= k < i && t0[k].0 == a && a != txn_id;
                            assert(t0[k].0 == t0[i as int].0);
                        }
                    }
                    assert forall|x: int, y: int| 0 <= x < k1.len() && 0 <= y < k1.len() && x != y
                        implies k1[x].0 != k1[y].0 by {
                        if x == k0.len() {
                            assert(k1[y] == k0[y]);
                        } else if y == k0.len() {
                            assert(k1[x] == k0[x]);
                        } else {
                            assert(k1[x] == k0[x] && k1[y] == k0[y]);
                        }
                    }
                    assert forall|b: u64| #[trigger] has_waiter(k1, b) <==> (exists|k: int|
                        0 <= k < i + 1 && t0[k].0 == b && b != txn_id) by {
                        if has_waiter(k0, b) {
                            let w = choose|w: int| 0 <= w < k0.len() && k0[w].0 == b;
                            assert(k1[w].0 == b);
                        }
                        if b == a {
                            assert(k1[k0.len() as int].0 == b);
                        }
                        if has_waiter(k1, b) && b != a {
                            let w = choose|w: int| 0 <= w < k1.len() && k1[w].0 == b;
                            assert(k0[w].0 == b);
                        }
                        if exists|k: int| 0 <= k < i + 1 && t0[k].0 == b && b != txn_id {
                            let k = choose|k: int| 0 <= k < i + 1 && t0[k].0 == b && b != txn_id;
                            if k < i {
                                assert(has_waiter(k0, b));
                            }
                        }
                    }
                    assert forall|k: int| 0 <= k < k1.len() implies #[trigger] k1[k].1 == drop_txn(
                        graph_of(t0)[k1[k].0],
                        txn_id,
                    ) by {
                        if k < k0.len() {
                            assert(k1[k] == k0[k]);
                        }
                    }
                }
            } else {
                proof {
                    let k0 = table_of(kept@);
                    assert forall|b: u64| #[trigger] has_waiter(k0, b) <==> (exists|k: int|
                        0 <= k < i + 1 && t0[k].0 == b && b != txn_id) by {
                        if exists|k: int| 0 <= k < i + 1 && t0[k].0 == b && b != txn_id {
                            let k = choose|k: int| 0 <= k < i + 1 && t0[k].0 == b && b != txn_id;
                        }
                    }
                }
            }
            i = i + 1;
        }
        self.edges = kept;
        proof {
            let t1 = self.table();
            let g0 = graph_of(t0);
            assert forall|a: u64| #[trigger] has_waiter(t1, a) == (g0.contains_key(a) && a != txn_id) by {
                if g0.contains_key(a) && a != txn_id {
                    let k = choose|k: int| 0 <= k < t0.len() && t0[k].0 == a;
                    assert(exists|k: int| 0 <= k < i && t0[k].0 == a && a != txn_id);
                }
                if has_waiter(t1, a) {
                    let k = choose|k: int| 0 <= k < i && t0[k].0 == a && a != txn_id;
                    assert(has_waiter(t0, a));
                }
            }
            assert forall|a: u64| has_waiter(t1, a) implies graph_of(t1)[a] == drop_txn(
                g0[a],
                txn_id,
            ) by {
                let k = choose|k: int| 0 <= k < t1.len() && t1[k].0 == a;
                lemma_entry(t1, k);
            }
            assert(self@ =~= without(old(self)@, txn_id));
        }
    }
}

/// After a transaction is removed, no cycle passes through it.
pub proof fn lemma_removed_not_on_cycle(g: Graph, txn: u64)
    ensures
        !on_cycle(without(g, txn), txn),
{
    let h = without(g, txn);
    if on_cycle(h, txn) {
        let p = choose|p: Seq<u64>| #[trigger] is_path(h, p) && p[0] == txn && p.last() == txn;
        lemma_path_edge(h, p, 0);
    }
}

} // verus!
