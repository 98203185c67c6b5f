//! Pull-based query executors (the Volcano model): each `next` call yields
//! one row; scans, filters and projections stack into a pipeline.
use vstd::prelude::*;

verus! {

pub type Value = String;

pub type Row = Vec<Value>;

/// A row as character sequences.
pub open spec fn row_view(r: Row) -> Seq<Seq<char>> {
    r@.map_values(|v: Value| v@)
}

pub open spec fn rows_view(rs: Seq<Row>) -> Seq<Seq<Seq<char>>> {
    rs.map_values(|r: Row| row_view(r))
}

/// A pull-based executor.
pub trait Executor {
    /// The rows still to come, in order.
    spec fn rest(&self) -> Seq<Seq<Seq<char>>>;

    /// The executor's own consistency condition.
    spec fn inv(&self) -> bool;

    /// The next row, or `None` when there are no more.
    fn next(&mut self) -> (r: Option<Row>)
        requires
            old(self).inv(),
        ensures
            final(self).inv(),
            match r {
                Some(row) => old(self).rest().len() > 0 && row_view(row) == old(self).rest()[0]
                    && final(self).rest() == old(self).rest().drop_first(),
                None => old(self).rest().len() == 0 && final(self).rest() == old(self).rest(),
            },
    ;

    /// All remaining rows.
    fn collect_all(&mut self) -> (rows: Vec<Row>)
        requires
            old(self).inv(),
        ensures
            final(self).inv(),
            rows_view(rows@) == old(self).rest(),
            final(self).rest().len() == 0,
    {
        let ghost all = self.rest();
        let mut rows: Vec<Row> = Vec::new();
        proof {
            assert(rows_view(rows@) + self.rest() =~= all);
        }
        loop
            invariant
                self.inv(),
                all == old(self).rest(),
                rows_view(rows@) + self.rest() == all,
            decreases self.rest().len(),
        {
            let ghost before = rows_view(rows@);
            let ghost rest = self.rest();
            match self.next() {
                Some(row) => {
                    let ghost rv = row_view(row);
                    rows.push(row);
                    proof {
                        assert(rows_view(rows@) =~= before.push(rv));
                        assert(rows_view(rows@) + self.rest() =~= before + rest);
                    }
                },
                None => {
                    proof {
                        assert(before + rest =~= before);
                    }
                    return rows;
                },
            }
        }
    }
}

/// A boxed executor runs as the executor inside it.
impl<E: Executor> Executor for Box<E> {
    open spec fn rest(&self) -> Seq<Seq<Seq<char>>> {
        (**self).rest()
    }

    open spec fn inv(&self) -> bool {
        (**self).inv()
    }

    fn next(&mut self) -> (r: Option<Row>) {
        (**self).next()
    }
}

pub(crate) fn copy_row(r: &Row) -> (c: Row)
    ensures
        row_view(c) == row_view(*r),
{
    let mut c: Row = Vec::new();
    let mut i: usize = 0;
    while i < r.len()
        invariant
            i <= r@.len(),
            row_view(c) == row_view(*r).take(i as int),
        decreases r@.len() - i,
    {
        c.push(r[i].clone());
        proof {
            assert(row_view(*r).take(i + 1) =~= row_view(*r).take(i as int).push(r@[i as int]@));
            assert(row_view(c) =~= row_view(*r).take(i + 1));
        }
        i = i + 1;
    }
    proof {
        assert(row_view(*r).take(i as int) =~= row_view(*r));
    }
    c
}

/// Yields stored rows in order.
pub struct ScanExecutor {
    rows: Vec<Row>,
    pos: usize,
}

impl ScanExecutor {
    /// A scan over `rows`.
    pub fn new(rows: Vec<Row>) -> (s: ScanExecutor)
        ensures
            s.inv(),
            s.rest() == rows_view(rows@),
    {
        let s = ScanExecutor { rows, pos: 0 };
        proof {
            assert(rows_view(s.rows@).skip(0) =~= rows_view(rows@));
        }
        s
    }
}

impl Executor for ScanExecutor {
    closed spec fn rest(&self) -> Seq<Seq<Seq<char>>> {
        rows_view(self.rows@).skip(self.pos as int)
    }

    closed spec fn inv(&self) -> bool {
        self.pos <= self.rows@.len()
    }

    fn next(&mut self) -> (r: Option<Row>) {
        if self.pos < self.rows.len() {
            let r = copy_row(&self.rows[self.pos]);
            proof {
                assert(rows_view(self.rows@).skip(self.pos as int)[0] == row_view(self.rows@[self.pos as int]));
                assert(rows_view(self.rows@).skip(self.pos + 1) =~= rows_view(self.rows@).skip(
                    self.pos as int,
                ).drop_first());
            }
            self.pos = self.pos + 1;
            Some(r)
        } else {
            None
        }
    }
}

/// `row[col]` equals `value`.
pub open spec fn row_matches(row: Seq<Seq<char>>, col: int, value: Seq<char>) -> bool {
    row[col] == value
}

/// Filtering a sequence: its first element, if kept, then the filtered rest.
proof fn lemma_filter_first<A>(s: Seq<A>, p: spec_fn(A) -> bool)
    requires
        s.len() > 0,
    ensures
        s.filter(p) == if p(s[0]) {
            seq![s[0]] + s.drop_first().filter(p)
        } else {
            s.drop_first().filter(p)
        },
{
    broadcast use vstd::seq_lib::group_filter_ensures;

    assert(s =~= seq![s[0]] + s.drop_first());
    Seq::filter_distributes_over_add(seq![s[0]], s.drop_first(), p);
    reveal_with_fuel(Seq::<_>::filter, 2);
    assert(seq![s[0]].drop_last() =~= Seq::<A>::empty());
    if p(s[0]) {
        assert(seq![s[0]].filter(p) =~= seq![s[0]]);
    } else {
        assert(seq![s[0]].filter(p) =~= Seq::<A>::empty());
        assert(Seq::<A>::empty() + s.drop_first().filter(p) =~= s.drop_first().filter(p));
    }
}

/// Passes on the rows whose column `column_idx` equals `value`.
pub struct FilterExecutor<S: Executor> {
    source: S,
    column_idx: usize,
    value: Value,
}

/// Every row has more than `col` columns.
pub open spec fn wide_enough(rows: Seq<Seq<Seq<char>>>, col: int) -> bool {
    forall|i: int| 0 <= i < rows.len() ==> col < (#[trigger] rows[i]).len()
}

impl<S: Executor> FilterExecutor<S> {
    /// A filter over `source` keeping rows with `row[column_idx] == value`.
    pub fn new(source: S, column_idx: usize, value: Value) -> (f: FilterExecutor<S>)
        requires
            source.inv(),
            wide_enough(source.rest(), column_idx as int),
        ensures
            f.inv(),
            f.rest() == source.rest().filter(|row: Seq<Seq<char>>| row_matches(row, column_idx as int, value@)),
    {
        FilterExecutor { source, column_idx, value }
    }
}

impl<S: Executor> Executor for FilterExecutor<S> {
    closed spec fn rest(&self) -> Seq<Seq<Seq<char>>> {
        self.source.rest().filter(|row: Seq<Seq<char>>| row_matches(row, self.column_idx as int, self.value@))
    }

    closed spec fn inv(&self) -> bool {
        self.source.inv() && wide_enough(self.source.rest(), self.column_idx as int)
    }

    fn next(&mut self) -> (r: Option<Row>) {
        let ghost p = |row: Seq<Seq<char>>| row_matches(row, self.column_idx as int, self.value@);
        loop
            invariant
                self.inv(),
                p == (|row: Seq<Seq<char>>| row_matches(row, self.column_idx as int, self.value@)),
                self.column_idx == old(self).column_idx,
                self.value == old(self).value,
                self.rest() == old(self).rest(),
            decreases self.source.rest().len(),
        {
            let ghost src = self.source.rest();
            let row = match self.source.next() {
                Some(row) => row,
                None => {
                    return None;
                },
            };
            proof {
                lemma_filter_first(src, p);
                assert forall|i: int| 0 <= i < self.source.rest().len() implies self.column_idx < (
                #[trigger] self.source.rest()[i]).len() by {
                    assert(self.source.rest()[i] == src[i + 1]);
                }
            }
            if row[self.column_idx] == self.value {
                return Some(row);
            }
        }
    }
}

/// The row's columns at `indices`, in that order.
pub open spec fn project(row: Seq<Seq<char>>, indices: Seq<usize>) -> Seq<Seq<char>> {
    indices.map_values(|i: usize| row[i as int])
}

/// Every index is a column of every row.
pub open spec fn indices_fit(rows: Seq<Seq<Seq<char>>>, indices: Seq<usize>) -> bool {
    forall|i: int, k: int| 0 <= i < rows.len() && 0 <= k < indices.len() ==> indices[k] < (#[trigger] rows[i]).len()
        && #[trigger] indices[k] == indices[k]
}

/// Keeps the columns at the given indices.
pub struct ProjectExecutor<S: Executor> {
    source: S,
    column_indices: Vec<usize>,
}

impl<S: Executor> ProjectExecutor<S> {
    /// A projection of `source` onto `column_indices`.
    pub fn new(source: S, column_indices: Vec<usize>) -> (p: ProjectExecutor<S>)
        requires
            source.inv(),
            indices_fit(source.rest(), column_indices@),
        ensures
            p.inv(),
            p.rest() == source.rest().map_values(|row: Seq<Seq<char>>| project(row, column_indices@)),
    {
        ProjectExecutor { source, column_indices }
    }
}

impl<S: Executor> Executor for ProjectExecutor<S> {
    closed spec fn rest(&self) -> Seq<Seq<Seq<char>>> {
        self.source.rest().map_values(|row: Seq<Seq<char>>| project(row, self.column_indices@))
    }

    closed spec fn inv(&self) -> bool {
        self.source.inv() && indices_fit(self.source.rest(), self.column_indices@)
    }

    fn next(&mut self) -> (r: Option<Row>) {
        let ghost src = self.source.rest();
        let row = match self.source.next() {
            Some(row) => row,
            None => {
                return None;
            },
        };
        let ghost rv = row_view(row);
        let mut out: Row = Vec::new();
        let mut k: usize = 0;
        while k < self.column_indices.len()
            invariant
                k <= self.column_indices@.len(),
                row_view(row) == rv,
                rv == src[0],
                src.len() > 0,
                indices_fit(src, self.column_indices@),
                row_view(out) == project(rv, self.column_indices@).take(k as int),
            decreases self.column_indices@.len() - k,
        {
            let i = self.column_indices[k];
            proof {
                assert(i < src[0].len());
            }
            out.push(row[i].clone());
            proof {
                assert(project(rv, self.column_indices@).take(k + 1) =~= project(rv, self.column_indices@).take(
                    k as int,
                ).push(rv[i as int]));
                assert(row_view(out) =~= project(rv, self.column_indices@).take(k + 1));
            }
            k = k + 1;
        }
        proof {
            assert(project(rv, self.column_indices@).take(k as int) =~= project(rv, self.column_indices@));
            assert forall|i: int, j: int| 0 <= i < self.source.rest().len() && 0 <= j < self.column_indices@.len()
                implies self.column_indices@[j] < (#[trigger] self.source.rest()[i]).len()
                && #[trigger] self.column_indices@[j] == self.column_indices@[j] by {
                assert(self.source.rest()[i] == src[i + 1]);
            }
            assert(self.rest() =~= old(self).rest().drop_first());
        }
        Some(out)
    }
}

} // verus!
