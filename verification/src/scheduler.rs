//! Ordering transactions by their dependencies (topological sort): a
//! transaction runs only after every transaction it depends on.
use vstd::prelude::*;

verus! {

/// A transaction with an id and the ids it depends on.
#[derive(Debug, Clone)]
pub struct Transaction {
    pub id: u64,
    pub depends_on: Vec<u64>,
}

/// Some transaction in `txs` has id `x`.
pub open spec fn has_id(txs: Seq<Transaction>, x: u64) -> bool {
    exists|i: int| 0 <= i < txs.len() && txs[i].id == x
}

/// `x` stands before `y` in `o`.
pub open spec fn precedes(o: Seq<u64>, x: u64, y: u64) -> bool {
    exists|a: int, b: int| 0 <= a < b < o.len() && o[a] == x && o[b] == y
}

/// `o` runs every transaction id exactly once, and every dependency of a
/// transaction before it.
pub open spec fn valid_order(txs: Seq<Transaction>, o: Seq<u64>) -> bool {
    &&& o.no_duplicates()
    &&& forall|x: u64| #[trigger] o.contains(x) <==> has_id(txs, x)
    &&& forall|i: int, j: int|
        0 <= i < txs.len() && 0 <= j < txs[i].depends_on.len() ==> #[trigger] precedes(
            o,
            txs[i].depends_on[j],
            txs[i].id,
        )
}

/// Some order runs all the transactions with their dependencies first.
pub open spec fn schedulable(txs: Seq<Transaction>) -> bool {
    exists|o: Seq<u64>| valid_order(txs, o)
}

/// Every dependency of every transaction with id `x` is in `done`.
pub open spec fn ready(txs: Seq<Transaction>, done: Seq<u64>, x: u64) -> bool {
    forall|i: int, j: int|
        0 <= i < txs.len() && txs[i].id == x && 0 <= j < txs[i].depends_on.len() ==> done.contains(
            #[trigger] txs[i].depends_on[j],
        )
}

spec fn occurs_before(o: Seq<u64>, d: u64, k: int) -> bool {
    exists|a: int| 0 <= a < k && o[a] == d
}

/// How many elements of `s` are missing from `done`.
spec fn count_missing(s: Seq<u64>, done: Seq<u64>) -> nat
    decreases s.len(),
{
    if s.len() == 0 {
        0
    } else {
        count_missing(s.drop_last(), done) + if done.contains(s.last()) {
            0nat
        } else {
            1nat
        }
    }
}

proof fn lemma_count_missing_push(s: Seq<u64>, done: Seq<u64>, x: u64)
    ensures
        count_missing(s, done.push(x)) <= count_missing(s, done),
        s.contains(x) && !done.contains(x) ==> count_missing(s, done.push(x)) < count_missing(s, done),
    decreases s.len(),
{
    if s.len() > 0 {
        lemma_count_missing_push(s.drop_last(), done, x);
        assert(done.push(x).contains(s.last()) <== done.contains(s.last())) by {
            if done.contains(s.last()) {
                let k = choose|k: int| 0 <= k < done.len() && done[k] == s.last();
                assert(done.push(x)[k] == s.last());
            }
        }
        assert(done.push(x)[done.len() as int] == x);
        if s.contains(x) && !done.contains(x) {
            if s.last() != x {
                let k = choose|k: int| 0 <= k < s.len() && s[k] == x;
                assert(s.drop_last()[k] == x);
            }
        }
    }
}

fn contains_id(v: &Vec<u64>, x: u64) -> (r: bool)
    ensures
        r == v@.contains(x),
{
    let mut i: usize = 0;
    while i < v.len()
        invariant
            i <= v.len(),
            forall|k: int| 0 <= k < i ==> v@[k] != x,
        decreases v.len() - i,
    {
        if v[i] == x {
            return true;
        }
        i = i + 1;
    }
    false
}

fn is_ready(txs: &[Transaction], done: &Vec<u64>, x: u64) -> (r: bool)
    ensures
        r == ready(txs@, done@, x),
{
    let mut i: usize = 0;
    while i < txs.len()
        invariant
            i <= txs.len(),
            forall|a: int, j: int|
                0 <= a < i && txs@[a].id == x && 0 <= j < txs@[a].depends_on.len() ==> done@.contains(
                    #[trigger] txs@[a].depends_on[j],
                ),
        decreases txs.len() - i,
    {
        if txs[i].id == x {
            let deps = &txs[i].depends_on;
            let mut j: usize = 0;
            while j < deps.len()
                invariant
                    i < txs.len(),
                    deps == &txs@[i as int].depends_on,
                    txs@[i as int].id == x,
                    j <= deps.len(),
                    forall|a: int, b: int|
                        0 <= a < i && txs@[a].id == x && 0 <= b < txs@[a].depends_on.len() ==> done@.contains(
                            #[trigger] txs@[a].depends_on[b],
                        ),
                    forall|b: int| 0 <= b < j ==> done@.contains(#[trigger] deps@[b]),
                decreases deps.len() - j,
            {
                if !contains_id(done, deps[j]) {
                    assert(!done@.contains(txs@[i as int].depends_on[j as int]));
                    return false;
                }
                j = j + 1;
            }
        }
        i = i + 1;
    }
    true
}

fn distinct_ids(txs: &[Transaction]) -> (ids: Vec<u64>)
    ensures
        ids@.no_duplicates(),
        forall|x: u64| #[trigger] ids@.contains(x) <==> has_id(txs@, x),
{
    let mut ids: Vec<u64> = Vec::new();
    let mut i: usize = 0;
    while i < txs.len()
        invariant
            i <= txs.len(),
            ids@.no_duplicates(),
            forall|x: u64| #[trigger] ids@.contains(x) <==> exists|a: int| 0 <= a < i && txs@[a].id == x,
        decreases txs.len() - i,
    {
        let x = txs[i].id;
        let ghost old_ids = ids@;
        if !contains_id(&ids, x) {
            ids.push(x);
            proof {
                assert forall|y: u64| #[trigger] ids@.contains(y) <==> exists|a: int| 0 <= a < i + 1 && txs@[a].id == y by {
                    if ids@.contains(y) {
                        let k = choose|k: int| 0 <= k < ids@.len() && ids@[k] == y;
                        if k < old_ids.len() {
                            assert(old_ids[k] == y);
                            assert(old_ids.contains(y));
                            let a = choose|a: int| 0 <= a < i && txs@[a].id == y;
                            assert(0 <= a < i + 1 && txs@[a].id == y);
                        } else {
                            assert(txs@[i as int].id == y);
                        }
                    }
                    if exists|a: int| 0 <= a < i + 1 && txs@[a].id == y {
                        let a = choose|a: int| 0 <= a < i + 1 && txs@[a].id == y;
                        if a < i {
                            assert(old_ids.contains(y));
                            let k = choose|k: int| 0 <= k < old_ids.len() && old_ids[k] == y;
                            assert(ids@[k] == y);
                        } else {
                            assert(ids@[ids@.len() - 1] == y);
                        }
                    }
                }
            }
        } else {
            proof {
                assert forall|y: u64| #[trigger] ids@.contains(y) <==> exists|a: int| 0 <= a < i + 1 && txs@[a].id == y by {
                    if exists|a: int| 0 <= a < i + 1 && txs@[a].id == y {
                        let a = choose|a: int| 0 <= a < i + 1 && txs@[a].id == y;
                        if a < i {
                            assert(exists|b: int| 0 <= b < i && txs@[b].id == y);
                        }
                    }
                    if ids@.contains(y) {
                        assert(exists|a: int| 0 <= a < i && txs@[a].id == y);
                        let a = choose|a: int| 0 <= a < i && txs@[a].id == y;
                        assert(0 <= a < i + 1 && txs@[a].id == y);
                    }
                }
            }
        }
        i = i + 1;
    }
    ids
}

/// The first position of `o` whose id is missing from `done`.
proof fn first_missing(o: Seq<u64>, done: Seq<u64>, q: int) -> (m: int)
    requires
        0 <= q < o.len(),
        !done.contains(o[q]),
    ensures
        0 <= m <= q,
        !done.contains(o[m]),
        forall|p: int| 0 <= p < m ==> done.contains(#[trigger] o[p]),
    decreases q,
{
    if exists|p: int| 0 <= p < q && !done.contains(o[p]) {
        let p = choose|p: int| 0 <= p < q && !done.contains(o[p]);
        first_missing(o, done, p)
    } else {
        q
    }
}

/// When no missing transaction is ready, no order exists.
proof fn lemma_stuck_unschedulable(txs: Seq<Transaction>, ids: Seq<u64>, done: Seq<u64>, x: u64)
    requires
        forall|y: u64| #[trigger] ids.contains(y) <==> has_id(txs, y),
        ids.contains(x),
        !done.contains(x),
        forall|y: u64| ids.contains(y) && !done.contains(y) ==> !#[trigger] ready(txs, done, y),
    ensures
        !schedulable(txs),
{
    if schedulable(txs) {
        let o = choose|o: Seq<u64>| valid_order(txs, o);
        assert(has_id(txs, x));
        assert(o.contains(x));
        let q = choose|q: int| 0 <= q < o.len() && o[q] == x;
        let m = first_missing(o, done, q);
        let y = o[m];
        assert(o.contains(y));
        assert(has_id(txs, y));
        assert(ids.contains(y));
        assert(!ready(txs, done, y));
        let (i, j) = choose|i: int, j: int|
            0 <= i < txs.len() && txs[i].id == y && 0 <= j < txs[i].depends_on.len() && !done.contains(
                txs[i].depends_on[j],
            );
        let d = txs[i].depends_on[j];
        assert(precedes(o, d, txs[i].id));
        let (a, b) = choose|a: int, b: int| 0 <= a < b < o.len() && o[a] == d && o[b] == y;
        assert(b == m) by {
            if b != m {
                assert(o[b] == o[m]);
            }
        }
        assert(done.contains(o[a]));
    }
}

/// A valid execution order (every transaction once, each after all of its
/// dependencies), or `None` when none exists: a dependency cycle, or a
/// dependency on a transaction that is not in the list.
pub fn schedule(transactions: &[Transaction]) -> (r: Option<Vec<u64>>)
    ensures
        match r {
            Some(o) => valid_order(transactions@, o@),
            None => !schedulable(transactions@),
        },
{
    let ghost txs = transactions@;
    let ids = distinct_ids(transactions);
    let mut order: Vec<u64> = Vec::new();
    loop
        invariant
            txs == transactions@,
            ids@.no_duplicates(),
            forall|x: u64| #[trigger] ids@.contains(x) <==> has_id(txs, x),
            order@.no_duplicates(),
            forall|x: u64| order@.contains(x) ==> #[trigger] ids@.contains(x),
            forall|k: int, i: int, j: int|
                0 <= k < order@.len() && 0 <= i < txs.len() && txs[i].id == order@[k] && 0 <= j
                    < txs[i].depends_on.len() ==> #[trigger] occurs_before(order@, txs[i].depends_on[j], k)
                    && order@[k] == #[trigger] txs[i].id,
        ensures
            forall|q: int|
                0 <= q < ids@.len() ==> order@.contains(#[trigger] ids@[q]) || !ready(txs, order@, ids@[q]),
        decreases count_missing(ids@, order@),
    {
        let mut found: Option<u64> = None;
        let mut p: usize = 0;
        while p < ids.len() && found.is_none()
            invariant
                txs == transactions@,
                p <= ids.len(),
                found is None ==> forall|q: int|
                    0 <= q < p ==> order@.contains(#[trigger] ids@[q]) || !ready(txs, order@, ids@[q]),
                found matches Some(x) ==> ids@.contains(x) && !order@.contains(x) && ready(txs, order@, x),
            decreases ids.len() - p,
        {
            let x = ids[p];
            if !contains_id(&order, x) && is_ready(transactions, &order, x) {
                found = Some(x);
                assert(ids@[p as int] == x);
            }
            p = p + 1;
        }
        match found {
            Some(x) => {
                assert(ids@.contains(x) && !order@.contains(x) && ready(txs, order@, x));
                let ghost old_order = order@;
                proof {
                    lemma_count_missing_push(ids@, old_order, x);
                }
                order.push(x);
                proof {
                    assert forall|y: u64| order@.contains(y) implies #[trigger] ids@.contains(y) by {
                        let k = choose|k: int| 0 <= k < order@.len() && order@[k] == y;
                        if k < old_order.len() {
                            assert(old_order[k] == y);
                            assert(old_order.contains(y));
                        }
                    }
                    assert forall|k: int, i: int, j: int|
                        0 <= k < order@.len() && 0 <= i < txs.len() && txs[i].id == order@[k] && 0 <= j
                            < txs[i].depends_on.len() implies #[trigger] occurs_before(
                            order@,
                            txs[i].depends_on[j],
                            k,
                        ) && order@[k] == #[trigger] txs[i].id by {
                        let d = txs[i].depends_on[j];
                        if k < old_order.len() {
                            assert(old_order[k] == order@[k]);
                            assert(occurs_before(old_order, d, k));
                            let a = choose|a: int| 0 <= a < k && old_order[a] == d;
                            assert(order@[a] == d);
                        } else {
                            assert(order@[k] == x);
                            assert(old_order.contains(d));
                            let a = choose|a: int| 0 <= a < old_order.len() && old_order[a] == d;
                            assert(order@[a] == d);
                        }
                    }
                }
            },
            None => {
                break ;
            },
        }
    }
    match first_absent(&ids, &order) {
        Some(p) => {
            proof {
                let x = ids@[p as int];
                assert(ids@.contains(x));
                assert forall|y: u64| ids@.contains(y) && !order@.contains(y) implies !#[trigger] ready(
                    txs,
                    order@,
                    y,
                ) by {
                    let q = choose|q: int| 0 <= q < ids@.len() && ids@[q] == y;
                    assert(order@.contains(ids@[q]) || !ready(txs, order@, ids@[q]));
                }
                lemma_stuck_unschedulable(txs, ids@, order@, x);
            }
            None
        },
        None => {
            proof {
                assert forall|x: u64| #[trigger] order@.contains(x) <==> has_id(txs, x) by {
                    if order@.contains(x) {
                        assert(ids@.contains(x));
                    }
                    if has_id(txs, x) {
                        assert(ids@.contains(x));
                        let q = choose|q: int| 0 <= q < ids@.len() && ids@[q] == x;
                        assert(order@.contains(ids@[q]));
                    }
                }
                assert forall|i: int, j: int|
                    0 <= i < txs.len() && 0 <= j < txs[i].depends_on.len() implies #[trigger] precedes(
                        order@,
                        txs[i].depends_on[j],
                        txs[i].id,
                    ) by {
                    let y = txs[i].id;
                    assert(has_id(txs, y));
                    assert(order@.contains(y));
                    let k = choose|k: int| 0 <= k < order@.len() && order@[k] == y;
                    assert(occurs_before(order@, txs[i].depends_on[j], k) && order@[k] == txs[i].id);
                    let a = choose|a: int| 0 <= a < k && order@[a] == txs[i].depends_on[j];
                    assert(0 <= a < k < order@.len() && order@[a] == txs[i].depends_on[j] && order@[k] == y);
                }
            }
            Some(order)
        },
    }
}

/// The first position of `ids` whose id is missing from `order`.
fn first_absent(ids: &Vec<u64>, order: &Vec<u64>) -> (r: Option<usize>)
    ensures
        match r {
            Some(p) => p < ids@.len() && !order@.contains(ids@[p as int]),
            None => forall|q: int| 0 <= q < ids@.len() ==> order@.contains(#[trigger] ids@[q]),
        },
{
    let mut p: usize = 0;
    while p < ids.len()
        invariant
            p <= ids.len(),
            forall|q: int| 0 <= q < p ==> order@.contains(#[trigger] ids@[q]),
        decreases ids.len() - p,
    {
        if !contains_id(order, ids[p]) {
            return Some(p);
        }
        p = p + 1;
    }
    None
}

/// Whether the transactions cannot all be run: `schedule` finds no order.
pub fn has_deadlock(transactions: &[Transaction]) -> (r: bool)
    ensures
        r == !schedulable(transactions@),
{
    match schedule(transactions) {
        Some(o) => {
            assert(valid_order(transactions@, o@));
            false
        },
        None => true,
    }
}

} // verus!
