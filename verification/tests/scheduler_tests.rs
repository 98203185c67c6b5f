use toydb::scheduler::{has_deadlock, schedule, Transaction};

fn txn(id: u64, depends_on: Vec<u64>) -> Transaction {
    Transaction { id, depends_on }
}

fn position(order: &[u64], id: u64) -> usize {
    order.iter().position(|&x| x == id).unwrap()
}

#[test]
fn test_simple_order() {
    let txns = vec![txn(1, vec![]), txn(2, vec![1]), txn(3, vec![1]), txn(4, vec![2, 3])];
    let order = schedule(&txns).unwrap();
    assert_eq!(order[0], 1);
    assert_eq!(*order.last().unwrap(), 4);
    assert_eq!(order.len(), 4);
}

#[test]
fn test_cycle_detection() {
    let txns = vec![txn(1, vec![3]), txn(2, vec![1]), txn(3, vec![2])];
    assert!(has_deadlock(&txns));
    assert!(schedule(&txns).is_none());
}

#[test]
fn test_independent() {
    let txns = vec![txn(1, vec![]), txn(2, vec![]), txn(3, vec![])];
    let order = schedule(&txns).unwrap();
    assert_eq!(order.len(), 3);
}

#[test]
fn test_order() {
    let t = vec![txn(1, vec![]), txn(2, vec![1]), txn(3, vec![1]), txn(4, vec![2, 3])];
    let o = schedule(&t).unwrap();
    assert_eq!(o[0], 1);
    assert_eq!(*o.last().unwrap(), 4);
}

#[test]
fn c4_transaction_scheduler_solution_test_cycle() {
    let t = vec![txn(1, vec![3]), txn(2, vec![1]), txn(3, vec![2])];
    assert!(has_deadlock(&t));
}

#[test]
fn dependency_on_a_missing_transaction_blocks_the_schedule() {
    let t = vec![txn(1, vec![]), txn(2, vec![9])];
    assert!(schedule(&t).is_none());
    assert!(has_deadlock(&t));
}

#[test]
fn self_dependency_is_a_deadlock() {
    assert!(has_deadlock(&[txn(5, vec![5])]));
}

#[test]
fn every_dependency_comes_first_and_ids_appear_once() {
    let t = vec![txn(3, vec![2, 2]), txn(2, vec![1]), txn(1, vec![]), txn(3, vec![1])];
    let o = schedule(&t).unwrap();
    assert_eq!(o.len(), 3);
    assert!(position(&o, 1) < position(&o, 2));
    assert!(position(&o, 2) < position(&o, 3));
    assert!(!has_deadlock(&t));
}

#[test]
fn no_transactions_schedule_trivially() {
    assert_eq!(schedule(&[]), Some(vec![]));
}
