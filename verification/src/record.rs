//! A row of named columns.
use vstd::prelude::*;
use crate::text::same_chars;

verus! {

/// A row: column names and the values under them, position by position.
#[derive(Debug, Clone, PartialEq)]
pub struct Row<V> {
    pub columns: Vec<String>,
    pub values: Vec<V>,
}

/// The position of the first column named `c`, or `names.len()`.
pub open spec fn column_position(names: Seq<String>, c: Seq<char>) -> int
    decreases names.len(),
{
    if names.len() == 0 {
        0
    } else if names[0]@ == c {
        0
    } else {
        1 + column_position(names.drop_first(), c)
    }
}

proof fn lemma_column_position_at(names: Seq<String>, c: Seq<char>, i: int)
    requires
        0 <= i <= names.len(),
        i < names.len() ==> names[i]@ == c,
        forall|j: int| 0 <= j < i ==> names[j]@ != c,
    ensures
        column_position(names, c) == i,
    decreases names.len(),
{
    if names.len() > 0 && i > 0 {
        assert forall|j: int| 0 <= j < i - 1 implies names.drop_first()[j]@ != c by {
            assert(names.drop_first()[j] == names[j + 1]);
        }
        lemma_column_position_at(names.drop_first(), c, i - 1);
    }
}

impl<V> Row<V> {
    /// A row with these columns and values.
    pub fn new(columns: Vec<String>, values: Vec<V>) -> (r: Row<V>)
        ensures
            r.columns == columns,
            r.values == values,
    {
        Row { columns, values }
    }

    /// The value under the first column named `column`, if there is one.
    pub fn get(&self, column: &str) -> (r: Option<&V>)
        requires
            column_position(self.columns@, column@) < self.columns@.len() ==> column_position(
                self.columns@,
                column@,
            ) < self.values@.len(),
        ensures
            r == (if column_position(self.columns@, column@) < self.columns@.len() {
                Some(&self.values@[column_position(self.columns@, column@)])
            } else {
                None::<&V>
            }),
    {
        let mut i: usize = 0;
        while i < self.columns.len() && !same_chars(self.columns[i].as_str(), column)
            invariant
                i <= self.columns@.len(),
                forall|j: int| 0 <= j < i ==> self.columns@[j]@ != column@,
            decreases self.columns@.len() - i,
        {
            i = i + 1;
        }
        proof {
            lemma_column_position_at(self.columns@, column@, i as int);
        }
        if i < self.columns.len() {
            Some(&self.values[i])
        } else {
            None
        }
    }
}

} // verus!
