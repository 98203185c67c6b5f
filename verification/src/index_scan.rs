//! Scan strategies over a table: which index, if any, a strategy reads
//! through.
use vstd::prelude::*;

verus! {

/// A table and its statistics.
pub struct Table {
    pub name: String,
    pub rows: Vec<Vec<String>>,
    pub columns: Vec<String>,
    pub row_count: usize,
}

/// An index on one column, with the number of distinct values in it.
pub struct Index {
    pub column: String,
    pub distinct_values: usize,
}

/// How a table is read.
#[derive(Debug, Clone, PartialEq)]
pub enum ScanStrategy {
    FullScan,
    IndexScan { column: String },
}

/// The position of the first index on `column` at or after `from`, if any.
pub open spec fn first_index_from(indexes: Seq<Index>, column: Seq<char>, from: int) -> Option<int>
    decreases indexes.len() - from,
{
    if from < 0 || from >= indexes.len() {
        None
    } else if indexes[from].column@ == column {
        Some(from)
    } else {
        first_index_from(indexes, column, from + 1)
    }
}

/// The position of the index a strategy reads through: none for a full
/// scan; for an index scan, the first index on its column, if any.
pub open spec fn scan_index_of(strategy: ScanStrategy, indexes: Seq<Index>) -> Option<int> {
    match strategy {
        ScanStrategy::FullScan => None,
        ScanStrategy::IndexScan { column } => first_index_from(indexes, column@, 0),
    }
}

/// Finds the index a strategy reads through. A full scan reads none, and
/// an index scan on a column without an index reads the whole table.
pub fn scan_index_position(strategy: &ScanStrategy, indexes: &[Index]) -> (r: Option<usize>)
    ensures
        r matches Some(i) ==> scan_index_of(*strategy, indexes@) == Some(i as int),
        r is None ==> scan_index_of(*strategy, indexes@) is None,
{
    match strategy {
        ScanStrategy::FullScan => None,
        ScanStrategy::IndexScan { column } => {
            let mut i: usize = 0;
            while i < indexes.len() && indexes[i].column != *column
                invariant
                    i <= indexes@.len(),
                    first_index_from(indexes@, column@, 0) == first_index_from(indexes@, column@, i as int),
                decreases indexes@.len() - i,
            {
                i = i + 1;
            }
            if i == indexes.len() {
                None
            } else {
                Some(i)
            }
        },
    }
}

} // verus!
