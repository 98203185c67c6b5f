use toydb::deadlock::WaitForGraph;

#[test]
fn c7_deadlock_detector_test_no_cycle() {
    let mut g = WaitForGraph::new();
    g.add_wait(1, 2);
    g.add_wait(2, 3);
    assert!(!g.has_cycle());
}

#[test]
fn test_simple_cycle() {
    let mut g = WaitForGraph::new();
    g.add_wait(1, 2);
    g.add_wait(2, 3);
    g.add_wait(3, 1);
    assert!(g.has_cycle());
}

#[test]
fn test_cycle_members() {
    let mut g = WaitForGraph::new();
    g.add_wait(1, 2);
    g.add_wait(2, 3);
    g.add_wait(3, 1);
    g.add_wait(4, 1);
    let members = g.find_cycle_members();
    assert!(members.contains(&1));
    assert!(members.contains(&2));
    assert!(members.contains(&3));
}

#[test]
fn test_break_deadlock() {
    let mut g = WaitForGraph::new();
    g.add_wait(1, 2);
    g.add_wait(2, 3);
    g.add_wait(3, 1);
    assert!(g.has_cycle());
    g.remove_transaction(2);
    assert!(!g.has_cycle());
}

#[test]
fn c7_deadlock_detector_solution_test_no_cycle() {
    let mut g = WaitForGraph::new();
    g.add_wait(1, 2);
    g.add_wait(2, 3);
    assert!(!g.has_cycle());
}

#[test]
fn c7_deadlock_detector_solution_test_cycle() {
    let mut g = WaitForGraph::new();
    g.add_wait(1, 2);
    g.add_wait(2, 3);
    g.add_wait(3, 1);
    assert!(g.has_cycle());
}

#[test]
fn test_members() {
    let mut g = WaitForGraph::new();
    g.add_wait(1, 2);
    g.add_wait(2, 3);
    g.add_wait(3, 1);
    g.add_wait(4, 1);
    let m = g.find_cycle_members();
    assert!(m.contains(&1) && m.contains(&2) && m.contains(&3));
}

#[test]
fn test_break() {
    let mut g = WaitForGraph::new();
    g.add_wait(1, 2);
    g.add_wait(2, 3);
    g.add_wait(3, 1);
    g.remove_transaction(2);
    assert!(!g.has_cycle());
}

#[test]
fn members_exclude_nodes_off_the_cycle() {
    let mut g = WaitForGraph::new();
    g.add_wait(1, 2);
    g.add_wait(2, 3);
    g.add_wait(3, 1);
    g.add_wait(4, 1);
    let mut m = g.find_cycle_members();
    m.sort();
    assert_eq!(m, vec![1, 2, 3]);
}

#[test]
fn every_node_of_a_cycle_is_found_whatever_the_edge_order() {
    // 1 -> 3 and 1 -> 2 -> 3 -> 1: node 2 lies on the longer cycle.
    let mut g = WaitForGraph::new();
    g.add_wait(1, 3);
    g.add_wait(1, 2);
    g.add_wait(2, 3);
    g.add_wait(3, 1);
    let mut m = g.find_cycle_members();
    m.sort();
    assert_eq!(m, vec![1, 2, 3]);
}

#[test]
fn self_wait_is_a_cycle() {
    let mut g = WaitForGraph::new();
    g.add_wait(7, 7);
    assert!(g.has_cycle());
    assert_eq!(g.find_cycle_members(), vec![7]);
    g.remove_transaction(7);
    assert!(!g.has_cycle());
    assert!(g.find_cycle_members().is_empty());
}
