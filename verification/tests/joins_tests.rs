use toydb::joins::{group_by_count, hash_join, nested_loop_join, sort_rows, Row};

fn users() -> Vec<Row> {
    vec![vec!["1".into(), "Alice".into()], vec!["2".into(), "Bob".into()]]
}

fn orders() -> Vec<Row> {
    vec![vec!["1".into(), "Book".into()], vec!["1".into(), "Pen".into()], vec!["2".into(), "Notebook".into()]]
}

fn hash_join_count() {
    assert_eq!(hash_join(users(), orders(), 0, 0).len(), 3);
}

fn nested_loop_join_count() {
    assert_eq!(nested_loop_join(users(), orders(), 0, 0).len(), 3);
}

fn joins_match() {
    let mut hj = hash_join(users(), orders(), 0, 0);
    hj.sort();
    let mut nlj = nested_loop_join(users(), orders(), 0, 0);
    nlj.sort();
    assert_eq!(hj, nlj);
}

fn group_counts() {
    let rows: Vec<Row> = vec![vec!["A".into()], vec!["B".into()], vec!["A".into()], vec!["A".into()], vec!["B".into()]];
    let mut r = group_by_count(rows, 0);
    r.sort();
    assert_eq!(r, vec![("A".into(), 3), ("B".into(), 2)]);
}

fn sort_ascending() {
    let rows: Vec<Row> = vec![vec!["banana".into()], vec!["apple".into()], vec!["cherry".into()]];
    let s = sort_rows(rows, 0, true);
    assert_eq!(s[0][0], "apple");
    assert_eq!(s[2][0], "cherry");
}

#[test]
fn main_test_hash_join() {
    hash_join_count();
}

#[test]
fn solution_test_hash_join() {
    hash_join_count();
}

#[test]
fn main_test_nested_loop_join() {
    nested_loop_join_count();
}

#[test]
fn solution_test_nested_loop_join() {
    nested_loop_join_count();
}

#[test]
fn main_test_joins_match() {
    joins_match();
}

#[test]
fn solution_test_joins_match() {
    joins_match();
}

#[test]
fn main_test_group_by_count() {
    group_counts();
}

#[test]
fn solution_test_group_by_count() {
    group_counts();
}

#[test]
fn main_test_sort() {
    sort_ascending();
}

#[test]
fn solution_test_sort() {
    sort_ascending();
}

fn row(cells: &[&str]) -> Row {
    cells.iter().map(|c| c.to_string()).collect()
}

#[test]
fn join_orders_differ_but_rows_agree() {
    let hj = hash_join(users(), orders(), 0, 0);
    assert_eq!(hj[0], row(&["1", "Alice", "1", "Book"]));
    assert_eq!(hj[2], row(&["2", "Bob", "2", "Notebook"]));
    let left = vec![row(&["x", "1"]), row(&["y", "1"])];
    let right = vec![row(&["1", "p"]), row(&["1", "q"])];
    let h = hash_join(left.clone(), right.clone(), 1, 0);
    let n = nested_loop_join(left, right, 1, 0);
    assert_eq!(h, vec![row(&["x", "1", "1", "p"]), row(&["y", "1", "1", "p"]), row(&["x", "1", "1", "q"]), row(&["y", "1", "1", "q"])]);
    assert_eq!(n, vec![row(&["x", "1", "1", "p"]), row(&["x", "1", "1", "q"]), row(&["y", "1", "1", "p"]), row(&["y", "1", "1", "q"])]);
    assert!(hash_join(vec![], orders(), 0, 0).is_empty());
    assert!(nested_loop_join(vec![row(&[])], vec![], 5, 0).is_empty());
}

#[test]
fn group_keys_come_sorted() {
    let rows = vec![row(&["b", "1"]), row(&["a", "2"]), row(&["c", "3"]), row(&["a", "4"])];
    assert_eq!(group_by_count(rows, 0), vec![("a".to_string(), 2), ("b".to_string(), 1), ("c".to_string(), 1)]);
    assert!(group_by_count(vec![], 3).is_empty());
}

#[test]
fn sort_is_stable_both_ways() {
    let rows = vec![row(&["2", "a"]), row(&["1", "b"]), row(&["2", "c"]), row(&["1", "d"])];
    let up = sort_rows(rows.clone(), 0, true);
    assert_eq!(up, vec![row(&["1", "b"]), row(&["1", "d"]), row(&["2", "a"]), row(&["2", "c"])]);
    let down = sort_rows(rows, 0, false);
    assert_eq!(down, vec![row(&["2", "a"]), row(&["2", "c"]), row(&["1", "b"]), row(&["1", "d"])]);
    assert_eq!(sort_rows(vec![row(&[])], 9, true), vec![row(&[])]);
}
