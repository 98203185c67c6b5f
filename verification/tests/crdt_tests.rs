use toydb::crdt::{GCounter, PNCounter};

#[test]
fn test_gcounter_basic() {
    let mut c = GCounter::new("node1");
    c.increment();
    c.increment();
    c.increment();
    assert_eq!(c.value(), 3);
}

#[test]
fn test_gcounter_merge() {
    let mut c1 = GCounter::new("node1");
    let mut c2 = GCounter::new("node2");
    c1.increment();
    c1.increment();
    c2.increment();
    c2.increment();
    c2.increment();
    c1.merge(&c2);
    assert_eq!(c1.value(), 5);
}

#[test]
fn test_gcounter_merge_idempotent() {
    let mut c1 = GCounter::new("node1");
    let mut c2 = GCounter::new("node2");
    c1.increment();
    c2.increment();
    c1.merge(&c2);
    c1.merge(&c2);
    assert_eq!(c1.value(), 2);
}

#[test]
fn test_pncounter() {
    let mut c = PNCounter::new("node1");
    c.increment();
    c.increment();
    c.decrement();
    assert_eq!(c.value(), 1);
}

#[test]
fn test_pncounter_merge() {
    let mut c1 = PNCounter::new("node1");
    let mut c2 = PNCounter::new("node2");
    c1.increment();
    c1.increment();
    c2.increment();
    c2.decrement();
    c1.merge(&c2);
    assert_eq!(c1.value(), 2);
}

#[test]
fn test_g_basic() {
    let mut c = GCounter::new("n1");
    c.increment();
    c.increment();
    assert_eq!(c.value(), 2);
}

#[test]
fn test_g_merge() {
    let mut c1 = GCounter::new("n1");
    let mut c2 = GCounter::new("n2");
    c1.increment();
    c1.increment();
    c2.increment();
    c2.increment();
    c2.increment();
    c1.merge(&c2);
    assert_eq!(c1.value(), 5);
}

#[test]
fn test_idempotent() {
    let mut c1 = GCounter::new("n1");
    let mut c2 = GCounter::new("n2");
    c1.increment();
    c2.increment();
    c1.merge(&c2);
    c1.merge(&c2);
    assert_eq!(c1.value(), 2);
}

#[test]
fn test_pn() {
    let mut c = PNCounter::new("n1");
    c.increment();
    c.increment();
    c.decrement();
    assert_eq!(c.value(), 1);
}

#[test]
fn test_pn_merge() {
    let mut c1 = PNCounter::new("n1");
    let mut c2 = PNCounter::new("n2");
    c1.increment();
    c1.increment();
    c2.increment();
    c2.decrement();
    c1.merge(&c2);
    assert_eq!(c1.value(), 2);
}

#[test]
fn merge_takes_the_larger_count_per_node() {
    let mut a = GCounter::new("n1");
    let mut b = GCounter::new("n1");
    a.increment();
    b.increment();
    b.increment();
    b.increment();
    a.merge(&b);
    assert_eq!(a.value(), 3);
    assert_eq!(a.counters().len(), 1);
    b.merge(&a);
    assert_eq!(b.value(), 3);
}

#[test]
fn merge_in_either_order_agrees() {
    let mut a = GCounter::new("a");
    let mut b = GCounter::new("b");
    a.increment();
    b.increment();
    b.increment();
    let mut ab = a.clone();
    ab.merge(&b);
    let mut ba = b.clone();
    ba.merge(&a);
    assert_eq!(ab.value(), ba.value());
    assert_eq!(ab.value(), 3);
}

#[test]
fn counters_lists_every_node() {
    let mut a = GCounter::new("a");
    a.increment();
    let b = GCounter::new("b");
    a.merge(&b);
    let names: Vec<&str> = a.counters().iter().map(|(n, _)| n.as_str()).collect();
    assert_eq!(names, vec!["a", "b"]);
    assert_eq!(a.counters()[0].1, 1);
    assert_eq!(a.counters()[1].1, 0);
}

#[test]
fn pn_counter_goes_negative() {
    let mut c = PNCounter::new("n");
    c.decrement();
    c.decrement();
    c.increment();
    assert_eq!(c.value(), -1);
}

#[test]
fn merge_never_lowers_either_value() {
    let mut a = GCounter::new("a");
    let mut b = GCounter::new("b");
    a.increment();
    a.increment();
    b.increment();
    let (va, vb) = (a.value(), b.value());
    let mut ab = a.clone();
    ab.merge(&b);
    assert!(ab.value() >= va && ab.value() >= vb);
    assert_eq!(ab.value(), 3);
    let mut again = ab.clone();
    again.merge(&b);
    assert_eq!(again.value(), ab.value());
}
