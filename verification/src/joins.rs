//! SQL operators over rows of strings: hash join and nested-loop join on
//! equal columns, GROUP BY with counts, and stable sorting by a column.
use vstd::prelude::*;
use vstd::seq_lib::lemma_multiset_commutative;
use crate::executor::copy_row;
use crate::strmap::StrMap;
use crate::text::{lemma_str_lt_order, str_le, str_less, str_lt};

verus! {

pub type Value = String;

pub type Row = Vec<Value>;

/// A row as character sequences.
pub type Cells = Seq<Seq<char>>;

pub open spec fn cells(r: Row) -> Cells {
    r@.map_values(|v: Value| v@)
}

pub open spec fn table(rs: Seq<Row>) -> Seq<Cells> {
    rs.map_values(|r: Row| cells(r))
}

/// Every row has more than `col` columns.
pub open spec fn wide(rows: Seq<Cells>, col: int) -> bool {
    forall|i: int| 0 <= i < rows.len() ==> col < (#[trigger] rows[i]).len()
}

/// `l` followed by `r`, when they agree on the join columns.
pub open spec fn joined(l: Cells, r: Cells, lc: int, rc: int) -> Seq<Cells> {
    if l[lc] == r[rc] {
        seq![l + r]
    } else {
        Seq::empty()
    }
}

/// `l` joined with each right row in turn.
pub open spec fn left_matches(l: Cells, right: Seq<Cells>, lc: int, rc: int) -> Seq<Cells>
    decreases right.len(),
{
    if right.len() == 0 {
        Seq::empty()
    } else {
        left_matches(l, right.drop_last(), lc, rc) + joined(l, right.last(), lc, rc)
    }
}

/// The nested-loop join: for each left row, its matches in right order.
pub open spec fn nested_join(left: Seq<Cells>, right: Seq<Cells>, lc: int, rc: int) -> Seq<Cells>
    decreases left.len(),
{
    if left.len() == 0 {
        Seq::empty()
    } else {
        nested_join(left.drop_last(), right, lc, rc) + left_matches(left.last(), right, lc, rc)
    }
}

/// Each left row joined with `r`, in left order.
pub open spec fn right_matches(left: Seq<Cells>, r: Cells, lc: int, rc: int) -> Seq<Cells>
    decreases left.len(),
{
    if left.len() == 0 {
        Seq::empty()
    } else {
        right_matches(left.drop_last(), r, lc, rc) + joined(left.last(), r, lc, rc)
    }
}

/// The hash join: for each right row, its matches in left order.
pub open spec fn probe_join(left: Seq<Cells>, right: Seq<Cells>, lc: int, rc: int) -> Seq<Cells>
    decreases right.len(),
{
    if right.len() == 0 {
        Seq::empty()
    } else {
        probe_join(left, right.drop_last(), lc, rc) + right_matches(left, right.last(), lc, rc)
    }
}

/// The rows whose column `col` is `k`, in order.
pub open spec fn with_key(rows: Seq<Cells>, col: int, k: Seq<char>) -> Seq<Cells>
    decreases rows.len(),
{
    if rows.len() == 0 {
        Seq::empty()
    } else if rows.last()[col] == k {
        with_key(rows.drop_last(), col, k).push(rows.last())
    } else {
        with_key(rows.drop_last(), col, k)
    }
}

proof fn lemma_with_key_add(a: Seq<Cells>, b: Seq<Cells>, col: int, k: Seq<char>)
    ensures
        with_key(a + b, col, k) == with_key(a, col, k) + with_key(b, col, k),
    decreases b.len(),
{
    if b.len() == 0 {
        assert(a + b =~= a);
        assert(with_key(a, col, k) + with_key(b, col, k) =~= with_key(a, col, k));
    } else {
        assert((a + b).drop_last() =~= a + b.drop_last());
        assert((a + b).last() == b.last());
        lemma_with_key_add(a, b.drop_last(), col, k);
        if b.last()[col] == k {
            assert(with_key(a, col, k) + with_key(b.drop_last(), col, k).push(b.last()) =~= (with_key(a, col, k)
                + with_key(b.drop_last(), col, k)).push(b.last()));
        }
    }
}

/// Joining `r` with the left rows: the left rows with `r`'s key, each
/// followed by `r`.
proof fn lemma_right_matches(left: Seq<Cells>, r: Cells, lc: int, rc: int)
    ensures
        right_matches(left, r, lc, rc) == with_key(left, lc, r[rc]).map_values(|l: Cells| l + r),
    decreases left.len(),
{
    if left.len() > 0 {
        lemma_right_matches(left.drop_last(), r, lc, rc);
        let w = with_key(left.drop_last(), lc, r[rc]);
        if left.last()[lc] == r[rc] {
            assert(w.push(left.last()).map_values(|l: Cells| l + r) =~= w.map_values(|l: Cells| l + r) + seq![
                left.last() + r,
            ]);
        } else {
            assert(w.map_values(|l: Cells| l + r) + Seq::<Cells>::empty() =~= w.map_values(|l: Cells| l + r));
        }
    } else {
        assert(with_key(left, lc, r[rc]).map_values(|l: Cells| l + r) =~= Seq::<Cells>::empty());
    }
}

proof fn lemma_probe_push_left(left: Seq<Cells>, l: Cells, right: Seq<Cells>, lc: int, rc: int)
    ensures
        probe_join(left.push(l), right, lc, rc).to_multiset() == probe_join(left, right, lc, rc).to_multiset().add(
            left_matches(l, right, lc, rc).to_multiset(),
        ),
    decreases right.len(),
{
    if right.len() == 0 {
        assert(probe_join(left.push(l), right, lc, rc) =~= Seq::<Cells>::empty());
        assert(Seq::<Cells>::empty().to_multiset() =~= vstd::multiset::Multiset::empty()) by {
            broadcast use vstd::seq_lib::group_to_multiset_ensures;
        }
        assert(probe_join(left, right, lc, rc) =~= Seq::<Cells>::empty());
        assert(left_matches(l, right, lc, rc) =~= Seq::<Cells>::empty());
        assert(vstd::multiset::Multiset::<Cells>::empty().add(vstd::multiset::Multiset::empty()) =~= vstd::multiset::Multiset::empty());
    } else {
        let r = right.last();
        let rs = right.drop_last();
        lemma_probe_push_left(left, l, rs, lc, rc);
        assert(left.push(l).drop_last() =~= left);
        assert(right_matches(left.push(l), r, lc, rc) == right_matches(left, r, lc, rc) + joined(l, r, lc, rc));
        lemma_multiset_commutative(probe_join(left.push(l), rs, lc, rc), right_matches(left.push(l), r, lc, rc));
        lemma_multiset_commutative(right_matches(left, r, lc, rc), joined(l, r, lc, rc));
        lemma_multiset_commutative(probe_join(left, rs, lc, rc), right_matches(left, r, lc, rc));
        lemma_multiset_commutative(left_matches(l, rs, lc, rc), joined(l, r, lc, rc));
        let a = probe_join(left, rs, lc, rc).to_multiset();
        let b = left_matches(l, rs, lc, rc).to_multiset();
        let c = right_matches(left, r, lc, rc).to_multiset();
        let d = joined(l, r, lc, rc).to_multiset();
        assert(a.add(b).add(c.add(d)) =~= a.add(c).add(b.add(d)));
    }
}

/// The hash join and the nested-loop join produce the same rows, each as
/// often, in different orders.
pub proof fn lemma_joins_agree(left: Seq<Cells>, right: Seq<Cells>, lc: int, rc: int)
    ensures
        probe_join(left, right, lc, rc).to_multiset() == nested_join(left, right, lc, rc).to_multiset(),
    decreases left.len(),
{
    if left.len() == 0 {
        assert(probe_join(left, right, lc, rc).to_multiset() =~= nested_join(left, right, lc, rc).to_multiset()) by {
            lemma_probe_empty_left(left, right, lc, rc);
        }
    } else {
        let init = left.drop_last();
        lemma_joins_agree(init, right, lc, rc);
        assert(init.push(left.last()) =~= left);
        lemma_probe_push_left(init, left.last(), right, lc, rc);
        lemma_multiset_commutative(nested_join(init, right, lc, rc), left_matches(left.last(), right, lc, rc));
    }
}

proof fn lemma_probe_empty_left(left: Seq<Cells>, right: Seq<Cells>, lc: int, rc: int)
    requires
        left.len() == 0,
    ensures
        probe_join(left, right, lc, rc) == Seq::<Cells>::empty(),
    decreases right.len(),
{
    if right.len() > 0 {
        lemma_probe_empty_left(left, right.drop_last(), lc, rc);
        assert(right_matches(left, right.last(), lc, rc) =~= Seq::<Cells>::empty());
        assert(Seq::<Cells>::empty() + Seq::<Cells>::empty() =~= Seq::<Cells>::empty());
    }
}

/// `l` followed by the cells of `r`.
fn concat_row(l: &Row, r: &Row) -> (c: Row)
    ensures
        cells(c) == cells(*l) + cells(*r),
{
    let mut c = copy_row(l);
    let mut i: usize = 0;
    while i < r.len()
        invariant
            i <= r@.len(),
            cells(c) == cells(*l) + cells(*r).take(i as int),
        decreases r@.len() - i,
    {
        let ghost before = cells(c);
        c.push(r[i].clone());
        proof {
            assert(cells(c) =~= before.push(r@[i as int]@));
            assert(cells(*r).take(i + 1) =~= cells(*r).take(i as int).push(r@[i as int]@));
            assert(cells(c) =~= cells(*l) + cells(*r).take(i + 1));
        }
        i = i + 1;
    }
    proof {
        assert(cells(*r).take(i as int) =~= cells(*r));
    }
    c
}

/// Hash join: index the left rows by their join column, then, for each
/// right row in order, emit each left row with the same key followed by
/// the right row.
pub fn hash_join(left: Vec<Row>, right: Vec<Row>, left_col: usize, right_col: usize) -> (out: Vec<Row>)
    requires
        wide(table(left@), left_col as int),
        wide(table(right@), right_col as int),
    ensures
        table(out@) == probe_join(table(left@), table(right@), left_col as int, right_col as int),
{
    let ghost lt = table(left@);
    let ghost rt = table(right@);
    let mut index: StrMap<Vec<Row>> = StrMap::new();
    let mut i: usize = 0;
    while i < left.len()
        invariant
            i <= left@.len(),
            lt == table(left@),
            wide(lt, left_col as int),
            index.wf(),
            forall|k: Seq<char>|
                #![trigger with_key(lt.take(i as int), left_col as int, k)]
                (if index@.contains_key(k) {
                    table(index@[k]@)
                } else {
                    Seq::<Cells>::empty()
                }) == with_key(lt.take(i as int), left_col as int, k),
        decreases left@.len() - i,
    {
        let row = &left[i];
        proof {
            assert(left_col < lt[i as int].len());
        }
        let key = row[left_col].clone();
        let ghost kv = key@;
        let ghost m0 = index@;
        let mut list = match index.remove(key.as_str()) {
            Some(l) => l,
            None => Vec::new(),
        };
        let ghost before = table(list@);
        list.push(copy_row(row));
        proof {
            assert(table(list@) =~= before.push(lt[i as int]));
        }
        index.insert(key, list);
        proof {
            assert(lt.take(i + 1).drop_last() =~= lt.take(i as int));
            assert(lt.take(i + 1).last() == lt[i as int]);
            assert(lt[i as int][left_col as int] == kv);
            assert forall|k: Seq<char>|
                #![trigger with_key(lt.take(i + 1), left_col as int, k)]
                (if index@.contains_key(k) {
                    table(index@[k]@)
                } else {
                    Seq::<Cells>::empty()
                }) == with_key(lt.take(i + 1), left_col as int, k) by {
                assert(with_key(lt.take(i as int), left_col as int, k) == (if m0.contains_key(k) {
                    table(m0[k]@)
                } else {
                    Seq::<Cells>::empty()
                }));
                if k != kv {
                    assert(index@.contains_key(k) == m0.contains_key(k));
                }
            }
        }
        i = i + 1;
    }
    proof {
        assert(lt.take(i as int) =~= lt);
    }
    let mut out: Vec<Row> = Vec::new();
    let mut j: usize = 0;
    while j < right.len()
        invariant
            j <= right@.len(),
            lt == table(left@),
            rt == table(right@),
            wide(rt, right_col as int),
            index.wf(),
            forall|k: Seq<char>|
                #![trigger with_key(lt, left_col as int, k)]
                (if index@.contains_key(k) {
                    table(index@[k]@)
                } else {
                    Seq::<Cells>::empty()
                }) == with_key(lt, left_col as int, k),
            table(out@) == probe_join(lt, rt.take(j as int), left_col as int, right_col as int),
        decreases right@.len() - j,
    {
        let rrow = &right[j];
        proof {
            assert(right_col < rt[j as int].len());
        }
        let ghost r = rt[j as int];
        let ghost done = table(out@);
        let ghost ms = with_key(lt, left_col as int, r[right_col as int]);
        proof {
            lemma_right_matches(lt, r, left_col as int, right_col as int);
            assert(rt.take(j + 1).drop_last() =~= rt.take(j as int));
            assert(rt.take(j + 1).last() == r);
        }
        match index.get(rrow[right_col].as_str()) {
            Some(lrows) => {
                let mut a: usize = 0;
                while a < lrows.len()
                    invariant
                        a <= lrows@.len(),
                        table(lrows@) == ms,
                        cells(*rrow) == r,
                        table(out@) == done + ms.map_values(|l: Cells| l + r).take(a as int),
                    decreases lrows@.len() - a,
                {
                    let c = concat_row(&lrows[a], rrow);
                    let ghost before = table(out@);
                    out.push(c);
                    proof {
                        assert(ms.map_values(|l: Cells| l + r).take(a + 1) =~= ms.map_values(|l: Cells| l + r).take(
                            a as int,
                        ).push(ms[a as int] + r));
                        assert(table(out@) =~= before.push(ms[a as int] + r));
                    }
                    a = a + 1;
                }
                proof {
                    assert(ms.map_values(|l: Cells| l + r).take(a as int) =~= ms.map_values(|l: Cells| l + r));
                }
            },
            None => {
                proof {
                    assert(ms.map_values(|l: Cells| l + r) =~= Seq::<Cells>::empty());
                    assert(done + Seq::<Cells>::empty() =~= done);
                }
            },
        }
        j = j + 1;
    }
    proof {
        assert(rt.take(j as int) =~= rt);
    }
    out
}

/// Nested-loop join: for each left row, for each right row in order, emit
/// the two joined when their columns are equal.
pub fn nested_loop_join(left: Vec<Row>, right: Vec<Row>, left_col: usize, right_col: usize) -> (out: Vec<Row>)
    requires
        right@.len() > 0 ==> wide(table(left@), left_col as int),
        left@.len() > 0 ==> wide(table(right@), right_col as int),
    ensures
        table(out@) == nested_join(table(left@), table(right@), left_col as int, right_col as int),
{
    let ghost lt = table(left@);
    let ghost rt = table(right@);
    let mut out: Vec<Row> = Vec::new();
    let mut i: usize = 0;
    while i < left.len()
        invariant
            i <= left@.len(),
            lt == table(left@),
            rt == table(right@),
            rt.len() > 0 ==> wide(lt, left_col as int),
            lt.len() > 0 ==> wide(rt, right_col as int),
            table(out@) == nested_join(lt.take(i as int), rt, left_col as int, right_col as int),
        decreases left@.len() - i,
    {
        let lrow = &left[i];
        let ghost l = lt[i as int];
        let ghost done = table(out@);
        let mut j: usize = 0;
        while j < right.len()
            invariant
                i < left@.len(),
                j <= right@.len(),
                lt == table(left@),
                rt == table(right@),
                cells(*lrow) == l,
                l == lt[i as int],
                rt.len() > 0 ==> wide(lt, left_col as int),
                wide(rt, right_col as int),
                table(out@) == done + left_matches(l, rt.take(j as int), left_col as int, right_col as int),
            decreases right@.len() - j,
        {
            let rrow = &right[j];
            proof {
                assert(left_col < lt[i as int].len());
                assert(right_col < rt[j as int].len());
                assert(rt.take(j + 1).drop_last() =~= rt.take(j as int));
                assert(rt.take(j + 1).last() == rt[j as int]);
            }
            let ghost before = table(out@);
            if lrow[left_col] == rrow[right_col] {
                let c = concat_row(lrow, rrow);
                out.push(c);
                proof {
                    assert(table(out@) =~= before.push(l + rt[j as int]));
                    assert(done + left_matches(l, rt.take(j + 1), left_col as int, right_col as int) =~= before.push(
                        l + rt[j as int],
                    ));
                }
            } else {
                proof {
                    assert(done + left_matches(l, rt.take(j + 1), left_col as int, right_col as int) =~= before);
                }
            }
            j = j + 1;
        }
        proof {
            assert(rt.take(j as int) =~= rt);
            assert(lt.take(i + 1).drop_last() =~= lt.take(i as int));
            assert(lt.take(i + 1).last() == l);
        }
        i = i + 1;
    }
    proof {
        assert(lt.take(i as int) =~= lt);
    }
    out
}

/// Keys strictly increase along the groups.
pub open spec fn keys_ascending(groups: Seq<(Seq<char>, nat)>) -> bool {
    forall|i: int, j: int| 0 <= i < j < groups.len() ==> str_lt(groups[i].0, groups[j].0)
}

pub open spec fn groups_view(v: Seq<(String, usize)>) -> Seq<(Seq<char>, nat)> {
    v.map_values(|g: (String, usize)| (g.0@, g.1 as nat))
}

/// `groups` lists each value of column `col` once, in ascending order, with
/// the number of rows holding it.
pub open spec fn counted(rows: Seq<Cells>, col: int, groups: Seq<(Seq<char>, nat)>) -> bool {
    &&& keys_ascending(groups)
    &&& forall|i: int| 0 <= i < groups.len() ==> (#[trigger] groups[i]).1 == with_key(rows, col, groups[i].0).len()
    &&& forall|k: Seq<char>|
        #![trigger with_key(rows, col, k)]
        (exists|i: int| 0 <= i < groups.len() && groups[i].0 == k) <==> with_key(rows, col, k).len() > 0
}

proof fn lemma_with_key_len(rows: Seq<Cells>, col: int, k: Seq<char>)
    ensures
        with_key(rows, col, k).len() <= rows.len(),
    decreases rows.len(),
{
    if rows.len() > 0 {
        lemma_with_key_len(rows.drop_last(), col, k);
    }
}

proof fn lemma_with_key_none(rows: Seq<Cells>, col: int, k: Seq<char>)
    requires
        forall|i: int| 0 <= i < rows.len() ==> (#[trigger] rows[i])[col] != k,
    ensures
        with_key(rows, col, k) == Seq::<Cells>::empty(),
    decreases rows.len(),
{
    if rows.len() > 0 {
        assert(rows[rows.len() - 1] == rows.last());
        assert forall|i: int| 0 <= i < rows.drop_last().len() implies (#[trigger] rows.drop_last()[i])[col] != k by {
            assert(rows.drop_last()[i] == rows[i]);
        }
        lemma_with_key_none(rows.drop_last(), col, k);
    }
}

/// Counts the rows per value of column `group_col`; the groups come sorted
/// by value.
pub fn group_by_count(rows: Vec<Row>, group_col: usize) -> (out: Vec<(String, usize)>)
    requires
        wide(table(rows@), group_col as int),
    ensures
        counted(table(rows@), group_col as int, groups_view(out@)),
{
    let ghost t = table(rows@);
    let ghost col = group_col as int;
    let mut out: Vec<(String, usize)> = Vec::new();
    let mut i: usize = 0;
    proof {
        assert(t.take(0) =~= Seq::<Cells>::empty());
    }
    while i < rows.len()
        invariant
            i <= rows@.len(),
            t == table(rows@),
            col == group_col,
            wide(t, col),
            counted(t.take(i as int), col, groups_view(out@)),
        decreases rows@.len() - i,
    {
        proof {
            assert(group_col < t[i as int].len());
        }
        let key = &rows[i][group_col];
        let ghost kv = key@;
        let ghost g0 = groups_view(out@);
        let ghost t0 = t.take(i as int);
        let ghost t1 = t.take(i + 1);
        proof {
            assert(t1.drop_last() =~= t0);
            assert(t1.last() == t[i as int]);
            assert(t[i as int][col] == kv);
            assert forall|k: Seq<char>| with_key(t1, col, k) == if k == kv {
                with_key(t0, col, k).push(t[i as int])
            } else {
                with_key(t0, col, k)
            } by {}
            lemma_with_key_len(t0, col, kv);
        }
        let mut p: usize = 0;
        while p < out.len() && str_less(out[p].0.as_str(), key.as_str())
            invariant
                p <= out@.len(),
                g0 == groups_view(out@),
                kv == key@,
                keys_ascending(g0),
                forall|j: int| 0 <= j < p ==> str_lt(g0[j].0, kv),
            decreases out@.len() - p,
        {
            p = p + 1;
        }
        proof {
            assert forall|j: int| p <= j < g0.len() implies str_le(kv, g0[j].0) by {
                lemma_str_lt_order(g0[p as int].0, kv, g0[j].0);
                lemma_str_lt_order(kv, g0[p as int].0, g0[j].0);
            }
        }
        if p < out.len() && out[p].0 == *key {
            let c = out[p].1;
            proof {
                assert(g0[p as int].1 == with_key(t0, col, kv).len());
            }
            let name = out[p].0.clone();
            out.set(p, (name, c + 1));
            proof {
                let g1 = groups_view(out@);
                assert(g1 =~= g0.update(p as int, (kv, (c + 1) as nat)));
                assert forall|k: Seq<char>|
                    #![trigger with_key(t1, col, k)]
                    (exists|j: int| 0 <= j < g1.len() && g1[j].0 == k) <==> with_key(t1, col, k).len() > 0 by {
                    if exists|j: int| 0 <= j < g1.len() && g1[j].0 == k {
                        let j = choose|j: int| 0 <= j < g1.len() && g1[j].0 == k;
                        assert(g0[j].0 == k);
                    }
                    if with_key(t1, col, k).len() > 0 && k != kv {
                        assert(with_key(t0, col, k).len() > 0);
                        let j = choose|j: int| 0 <= j < g0.len() && g0[j].0 == k;
                        assert(g1[j].0 == k);
                    }
                    if k == kv {
                        assert(g1[p as int].0 == k);
                    }
                }
                assert forall|j: int| 0 <= j < g1.len() implies (#[trigger] g1[j]).1 == with_key(t1, col, g1[j].0).len() by {
                    if j != p {
                        assert(g1[j] == g0[j]);
                        if g0[j].0 == kv {
                            lemma_str_lt_order(g0[j].0, g0[p as int].0, g0[p as int].0);
                            lemma_str_lt_order(g0[p as int].0, g0[j].0, g0[j].0);
                        }
                    }
                }
            }
        } else {
            out.insert(p, (key.clone(), 1));
            proof {
                let g1 = groups_view(out@);
                assert(g1 =~= g0.insert(p as int, (kv, 1nat)));
                if with_key(t0, col, kv).len() > 0 {
                    let j = choose|j: int| 0 <= j < g0.len() && g0[j].0 == kv;
                    if j < p {
                        lemma_str_lt_order(kv, kv, kv);
                    } else if j > p {
                        assert(str_le(kv, g0[p as int].0));
                        assert(kv != g0[p as int].0);
                        lemma_str_lt_order(kv, g0[p as int].0, g0[j].0);
                        lemma_str_lt_order(g0[j].0, g0[j].0, g0[j].0);
                    }
                }
                assert(with_key(t0, col, kv).len() == 0);
                assert forall|a: int, b: int| 0 <= a < b < g1.len() implies str_lt(g1[a].0, g1[b].0) by {
                    if a < p && b > p {
                        lemma_str_lt_order(g0[a].0, kv, g0[b - 1].0);
                    } else if a > p {
                        assert(g1[a] == g0[a - 1] && g1[b] == g0[b - 1]);
                    } else if b < p {
                        assert(g1[a] == g0[a] && g1[b] == g0[b]);
                    } else if a == p {
                        assert(g1[b] == g0[b - 1]);
                        assert(str_le(kv, g0[b - 1].0));
                    }
                }
                assert forall|j: int| 0 <= j < g1.len() implies (#[trigger] g1[j]).1 == with_key(t1, col, g1[j].0).len() by {
                    if j < p {
                        assert(g1[j] == g0[j]);
                        assert(g0[j].0 != kv);
                    } else if j > p {
                        assert(g1[j] == g0[j - 1]);
                        assert(g0[j - 1].0 != kv);
                    }
                }
                assert forall|k: Seq<char>|
                    #![trigger with_key(t1, col, k)]
                    (exists|j: int| 0 <= j < g1.len() && g1[j].0 == k) <==> with_key(t1, col, k).len() > 0 by {
                    if exists|j: int| 0 <= j < g1.len() && g1[j].0 == k {
                        let j = choose|j: int| 0 <= j < g1.len() && g1[j].0 == k;
                        if j < p {
                            assert(g0[j].0 == k);
                        } else if j > p {
                            assert(g0[j - 1].0 == k);
                        }
                    }
                    if with_key(t1, col, k).len() > 0 {
                        if k == kv {
                            assert(g1[p as int].0 == k);
                        } else {
                            let j = choose|j: int| 0 <= j < g0.len() && g0[j].0 == k;
                            if j < p {
                                assert(g1[j].0 == k);
                            } else {
                                assert(g1[j + 1].0 == k);
                            }
                        }
                    }
                }
            }
        }
        i = i + 1;
    }
    proof {
        assert(t.take(i as int) =~= t);
    }
    out
}

/// `a` may stand before `b`: its column `col` is not greater (ascending) or
/// not smaller (descending).
pub open spec fn in_order(a: Cells, b: Cells, col: int, ascending: bool) -> bool {
    if ascending {
        str_le(a[col], b[col])
    } else {
        str_le(b[col], a[col])
    }
}

pub open spec fn sorted_on(rows: Seq<Cells>, col: int, ascending: bool) -> bool {
    forall|i: int, j: int| 0 <= i < j < rows.len() ==> in_order(rows[i], rows[j], col, ascending)
}

/// `b` must stand after `a`: strictly greater (ascending) or strictly
/// smaller (descending) in column `col`.
pub open spec fn strictly_after(a: Cells, b: Cells, col: int, ascending: bool) -> bool {
    if ascending {
        str_lt(a[col], b[col])
    } else {
        str_lt(b[col], a[col])
    }
}

/// Inserting `x` at `p` where every later row must stand after it.
proof fn lemma_insert_keeps_classes(res: Seq<Cells>, p: int, x: Cells, col: int, k: Seq<char>)
    requires
        0 <= p <= res.len(),
        forall|j: int| p <= j < res.len() ==> (#[trigger] res[j])[col] != x[col],
    ensures
        with_key(res.insert(p, x), col, k) == if x[col] == k {
            with_key(res, col, k).push(x)
        } else {
            with_key(res, col, k)
        },
{
    let a = res.take(p);
    let b = res.skip(p);
    assert(res.insert(p, x) =~= a + seq![x] + b);
    assert(res =~= a + b);
    lemma_with_key_add(a + seq![x], b, col, k);
    lemma_with_key_add(a, seq![x], col, k);
    lemma_with_key_add(a, b, col, k);
    assert(seq![x].drop_last() =~= Seq::<Cells>::empty());
    assert(with_key(seq![x], col, k) == if x[col] == k {
        seq![x]
    } else {
        Seq::<Cells>::empty()
    }) by {
        assert(with_key(Seq::<Cells>::empty(), col, k) == Seq::<Cells>::empty());
        assert(Seq::<Cells>::empty().push(x) =~= seq![x]);
    }
    if x[col] == k {
        assert forall|j: int| 0 <= j < b.len() implies (#[trigger] b[j])[col] != k by {
            assert(b[j] == res[p + j]);
        }
        lemma_with_key_none(b, col, k);
        assert(with_key(a, col, k) + seq![x] + Seq::<Cells>::empty() =~= with_key(a, col, k).push(x));
        assert(with_key(a, col, k) + Seq::<Cells>::empty() =~= with_key(a, col, k));
    } else {
        assert(with_key(a, col, k) + Seq::<Cells>::empty() =~= with_key(a, col, k));
    }
}

/// Whether `b` must stand after `a`.
fn stands_after(a: &Row, b: &Row, col: usize, ascending: bool) -> (r: bool)
    requires
        col < cells(*a).len(),
        col < cells(*b).len(),
    ensures
        r == strictly_after(cells(*a), cells(*b), col as int, ascending),
{
    if ascending {
        str_less(a[col].as_str(), b[col].as_str())
    } else {
        str_less(b[col].as_str(), a[col].as_str())
    }
}

/// The rows sorted by column `col`, ascending or descending; rows with
/// equal values keep their order (a stable sort).
pub fn sort_rows(rows: Vec<Row>, col: usize, ascending: bool) -> (out: Vec<Row>)
    requires
        rows@.len() > 1 ==> wide(table(rows@), col as int),
    ensures
        out@.len() == rows@.len(),
        sorted_on(table(out@), col as int, ascending),
        forall|k: Seq<char>| #[trigger] with_key(table(out@), col as int, k) == with_key(table(rows@), col as int, k),
{
    let ghost t = table(rows@);
    let ghost c = col as int;
    let mut out: Vec<Row> = Vec::new();
    let mut i: usize = 0;
    proof {
        assert(t.take(0) =~= Seq::<Cells>::empty());
        assert(table(out@) =~= Seq::<Cells>::empty());
    }
    while i < rows.len()
        invariant
            i <= rows@.len(),
            t == table(rows@),
            c == col,
            rows@.len() > 1 ==> wide(t, c),
            out@.len() == i,
            rows@.len() > 1 ==> wide(table(out@), c),
            sorted_on(table(out@), c, ascending),
            forall|k: Seq<char>| #[trigger] with_key(table(out@), c, k) == with_key(t.take(i as int), c, k),
        decreases rows@.len() - i,
    {
        let x = copy_row(&rows[i]);
        let ghost xv = t[i as int];
        let ghost r0 = table(out@);
        let mut p: usize = 0;
        if out.len() > 0 {
            proof {
                assert(rows@.len() > 1);
                assert(col < xv.len());
                assert forall|j: int| 0 <= j < out@.len() implies col < (#[trigger] cells(out@[j])).len() by {
                    assert(r0[j] == cells(out@[j]));
                }
            }
            while p < out.len() && !stands_after(&x, &out[p], col, ascending)
                invariant
                    p <= out@.len(),
                    r0 == table(out@),
                    cells(x) == xv,
                    c == col,
                    col < xv.len(),
                    wide(r0, c),
                    sorted_on(r0, c, ascending),
                    forall|j: int| 0 <= j < out@.len() ==> col < (#[trigger] cells(out@[j])).len(),
                    forall|j: int| 0 <= j < p ==> !strictly_after(xv, #[trigger] r0[j], c, ascending),
                decreases out@.len() - p,
            {
                proof {
                    assert(r0[p as int] == cells(out@[p as int]));
                }
                p = p + 1;
            }
        }
        proof {
            assert forall|j: int| p <= j < r0.len() implies strictly_after(xv, #[trigger] r0[j], c, ascending) by {
                assert(strictly_after(xv, r0[p as int], c, ascending));
                assert(in_order(r0[p as int], r0[j], c, ascending));
                if ascending {
                    lemma_str_lt_order(xv[c], r0[p as int][c], r0[j][c]);
                } else {
                    lemma_str_lt_order(r0[j][c], r0[p as int][c], xv[c]);
                }
            }
            assert forall|j: int| 0 <= j < p implies in_order(#[trigger] r0[j], xv, c, ascending) by {
                lemma_str_lt_order(r0[j][c], xv[c], xv[c]);
                lemma_str_lt_order(xv[c], r0[j][c], r0[j][c]);
            }
            assert forall|j: int| p <= j < r0.len() implies (#[trigger] r0[j])[c] != xv[c] by {
                assert(strictly_after(xv, r0[j], c, ascending));
                lemma_str_lt_order(xv[c], r0[j][c], r0[j][c]);
                lemma_str_lt_order(r0[j][c], xv[c], xv[c]);
            }
        }
        out.insert(p, x);
        proof {
            let r1 = table(out@);
            assert(r1 =~= r0.insert(p as int, xv));
            assert(t.take(i + 1).drop_last() =~= t.take(i as int));
            assert(t.take(i + 1).last() == xv);
            assert forall|a: int, b: int| 0 <= a < b < r1.len() implies in_order(r1[a], r1[b], c, ascending) by {
                if b < p {
                    assert(r1[a] == r0[a] && r1[b] == r0[b]);
                } else if a < p && b == p {
                } else if a < p && b > p {
                    assert(r1[a] == r0[a] && r1[b] == r0[b - 1]);
                } else if a == p {
                    assert(r1[b] == r0[b - 1]);
                    assert(strictly_after(xv, r0[b - 1], c, ascending));
                } else {
                    assert(r1[a] == r0[a - 1] && r1[b] == r0[b - 1]);
                }
            }
            assert forall|k: Seq<char>| #[trigger] with_key(r1, c, k) == with_key(t.take(i + 1), c, k) by {
                lemma_insert_keeps_classes(r0, p as int, xv, c, k);
            }
            if rows@.len() > 1 {
                assert forall|j: int| 0 <= j < r1.len() implies c < (#[trigger] r1[j]).len() by {
                    if j < p {
                        assert(r1[j] == r0[j]);
                    } else if j > p {
                        assert(r1[j] == r0[j - 1]);
                    }
                }
            }
        }
        i = i + 1;
    }
    proof {
        assert(t.take(i as int) =~= t);
    }
    out
}

} // verus!
