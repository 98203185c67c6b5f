use toydb::executor::{Executor, FilterExecutor, ProjectExecutor, Row, ScanExecutor};

fn sample_data() -> Vec<Row> {
    vec![
        vec!["1".into(), "Alice".into(), "25".into()],
        vec!["2".into(), "Bob".into(), "30".into()],
        vec!["3".into(), "Carol".into(), "25".into()],
    ]
}

fn scan() {
    assert_eq!(ScanExecutor::new(sample_data()).collect_all().len(), 3);
}

fn filter() {
    let mut f = FilterExecutor::new(Box::new(ScanExecutor::new(sample_data())), 2, "25".into());
    assert_eq!(f.collect_all().len(), 2);
}

fn project() {
    let mut p = ProjectExecutor::new(Box::new(ScanExecutor::new(sample_data())), vec![1]);
    assert_eq!(p.collect_all()[0], vec!["Alice".to_string()]);
}

fn pipeline() {
    let scan = Box::new(ScanExecutor::new(sample_data()));
    let filter = Box::new(FilterExecutor::new(scan, 2, "25".into()));
    let mut project = ProjectExecutor::new(filter, vec![1]);
    assert_eq!(project.collect_all(), vec![vec!["Alice".to_string()], vec!["Carol".to_string()]]);
}

#[test]
fn test_scan() {
    scan();
}

#[test]
fn solution_test_scan() {
    scan();
}

#[test]
fn main_test_filter() {
    filter();
}

#[test]
fn solution_test_filter() {
    filter();
}

#[test]
fn main_test_project() {
    project();
}

#[test]
fn solution_test_project() {
    project();
}

#[test]
fn main_test_pipeline() {
    pipeline();
}

#[test]
fn solution_test_pipeline() {
    pipeline();
}

#[test]
fn next_yields_rows_one_at_a_time_then_none() {
    let mut s = ScanExecutor::new(sample_data());
    assert_eq!(s.next().unwrap()[1], "Alice");
    assert_eq!(s.collect_all().len(), 2);
    assert!(s.next().is_none());
    assert!(s.next().is_none());
    let mut p = ProjectExecutor::new(ScanExecutor::new(sample_data()), vec![2, 0, 2]);
    assert_eq!(p.next(), Some(vec!["25".to_string(), "1".to_string(), "25".to_string()]));
    let mut f = FilterExecutor::new(ScanExecutor::new(sample_data()), 1, "Nobody".into());
    assert!(f.next().is_none());
}
