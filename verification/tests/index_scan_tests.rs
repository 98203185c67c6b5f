use toydb::index_scan::{scan_index_position, Index, ScanStrategy};

fn index(column: &str, distinct_values: usize) -> Index {
    Index { column: column.into(), distinct_values }
}

#[test]
fn full_scan_reads_no_index() {
    let indexes = vec![index("id", 10000)];
    assert_eq!(scan_index_position(&ScanStrategy::FullScan, &indexes), None);
}

#[test]
fn index_scan_reads_the_index_on_its_column() {
    let indexes = vec![index("name", 50), index("id", 10000)];
    let strategy = ScanStrategy::IndexScan { column: "id".into() };
    assert_eq!(scan_index_position(&strategy, &indexes), Some(1));
}

#[test]
fn index_scan_without_an_index_reads_none() {
    let indexes = vec![index("c", 0)];
    let strategy = ScanStrategy::IndexScan { column: "d".into() };
    assert_eq!(scan_index_position(&strategy, &indexes), None);
    assert_eq!(scan_index_position(&strategy, &[]), None);
}

#[test]
fn first_matching_index_decides() {
    let indexes = vec![index("x", 5), index("c", 100), index("c", 10)];
    let strategy = ScanStrategy::IndexScan { column: "c".into() };
    assert_eq!(scan_index_position(&strategy, &indexes), Some(1));
}
