use toydb::query_plan::PlanNode;

fn sample_plan() -> PlanNode {
    PlanNode::Limit {
        count: 10,
        child: Box::new(PlanNode::Sort {
            key: "age".into(),
            child: Box::new(PlanNode::Project {
                columns: vec!["name".into(), "age".into()],
                child: Box::new(PlanNode::Filter {
                    predicate: "age > 21".into(),
                    child: Box::new(PlanNode::Scan { table: "users".into() }),
                }),
            }),
        }),
    }
}

#[test]
fn test_node_count() {
    assert_eq!(sample_plan().node_count(), 5);
}

#[test]
fn c3_query_plan_builder_test_depth() {
    assert_eq!(sample_plan().depth(), 5);
}

#[test]
fn c3_query_plan_builder_test_tables() {
    let plan = PlanNode::Join {
        left: Box::new(PlanNode::Scan { table: "users".into() }),
        right: Box::new(PlanNode::Scan { table: "orders".into() }),
        on: "user_id".into(),
    };
    let mut tables = plan.tables();
    tables.sort();
    assert_eq!(tables, vec!["orders", "users"]);
}

#[test]
fn test_push_filter_down() {
    let plan = PlanNode::Filter {
        predicate: "age > 21".into(),
        child: Box::new(PlanNode::Project {
            columns: vec!["name".into()],
            child: Box::new(PlanNode::Scan { table: "users".into() }),
        }),
    };
    let optimized = plan.push_filter_down();
    match optimized {
        PlanNode::Project { child, .. } => {
            assert!(matches!(*child, PlanNode::Filter { .. }));
        }
        _ => panic!("Expected Project at top after pushdown"),
    }
}

fn sample() -> PlanNode {
    PlanNode::Limit {
        count: 10,
        child: Box::new(PlanNode::Sort {
            key: "age".into(),
            child: Box::new(PlanNode::Project {
                columns: vec!["name".into()],
                child: Box::new(PlanNode::Filter {
                    predicate: "age > 21".into(),
                    child: Box::new(PlanNode::Scan { table: "users".into() }),
                }),
            }),
        }),
    }
}

#[test]
fn test_count() {
    assert_eq!(sample().node_count(), 5);
}

#[test]
fn c3_query_plan_builder_solution_test_depth() {
    assert_eq!(sample().depth(), 5);
}

#[test]
fn c3_query_plan_builder_solution_test_tables() {
    let p = PlanNode::Join {
        left: Box::new(PlanNode::Scan { table: "a".into() }),
        right: Box::new(PlanNode::Scan { table: "b".into() }),
        on: "id".into(),
    };
    assert_eq!(p.tables().len(), 2);
}

#[test]
fn join_depth_takes_the_deeper_side_and_tables_keep_order() {
    let p = PlanNode::Join {
        left: Box::new(PlanNode::Scan { table: "a".into() }),
        right: Box::new(PlanNode::Sort {
            key: "k".into(),
            child: Box::new(PlanNode::Scan { table: "b".into() }),
        }),
        on: "id".into(),
    };
    assert_eq!(p.depth(), 3);
    assert_eq!(p.node_count(), 4);
    assert_eq!(p.tables(), vec!["a".to_string(), "b".to_string()]);
}

#[test]
fn pushdown_leaves_other_plans_alone() {
    let p = PlanNode::Filter {
        predicate: "x".into(),
        child: Box::new(PlanNode::Scan { table: "t".into() }),
    };
    match p.push_filter_down() {
        PlanNode::Filter { child, .. } => assert!(matches!(*child, PlanNode::Scan { .. })),
        _ => panic!("filter over a scan stays"),
    }
    let q = PlanNode::Scan { table: "t".into() };
    assert!(matches!(q.push_filter_down(), PlanNode::Scan { .. }));
}

#[test]
fn pushdown_keeps_counts() {
    let plan = PlanNode::Filter {
        predicate: "p".into(),
        child: Box::new(PlanNode::Project {
            columns: vec!["c".into()],
            child: Box::new(PlanNode::Scan { table: "t".into() }),
        }),
    };
    let before = (plan.node_count(), plan.depth());
    let after = plan.push_filter_down();
    assert_eq!((after.node_count(), after.depth()), before);
    assert_eq!(after.tables(), vec!["t".to_string()]);
}
