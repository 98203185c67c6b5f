use toydb::optimizer::{FilterPushdown, OptimizerRule, Plan as OptPlan};
use toydb::planner::{Plan, Planner, Statement};

/// The expression type of the SQL layer.
#[derive(Debug, Clone, PartialEq)]
enum Expression {
    Number(f64),
    String(String),
    Column(String),
    BinaryOp { left: Box<Expression>, op: String, right: Box<Expression> },
}

fn select_plan() {
    let stmt: Statement<Expression> = Statement::Select { columns: vec!["name".into()], from: "users".into(), filter: None };
    match Planner::plan(stmt) {
        Plan::Project { columns, source } => {
            assert_eq!(columns, vec!["name"]);
            match *source {
                Plan::Scan { table } => assert_eq!(table, "users"),
                _ => panic!(),
            }
        }
        _ => panic!(),
    }
}

fn select_with_filter() {
    let stmt = Statement::Select {
        columns: vec!["name".into()],
        from: "users".into(),
        filter: Some(Expression::BinaryOp {
            left: Box::new(Expression::Column("age".into())),
            op: ">".into(),
            right: Box::new(Expression::Number(21.0)),
        }),
    };
    match Planner::plan(stmt) {
        Plan::Project { source, .. } => match *source {
            Plan::Filter { source, .. } => match *source {
                Plan::Scan { .. } => {}
                _ => panic!(),
            },
            _ => panic!(),
        },
        _ => panic!(),
    }
}

#[test]
fn main_test_select_plan() {
    select_plan();
}

#[test]
fn solution_test_select_plan() {
    select_plan();
}

#[test]
fn main_test_select_with_filter() {
    select_with_filter();
}

#[test]
fn solution_test_select_with_filter() {
    select_with_filter();
}

#[test]
fn insert_and_create_plan_to_themselves() {
    match Planner::plan(Statement::Insert { table: "t".into(), values: vec![Expression::String("x".into())] }) {
        Plan::Insert { table, values } => {
            assert_eq!(table, "t");
            assert_eq!(values, vec![Expression::String("x".into())]);
        }
        _ => panic!(),
    }
    match Planner::plan::<Expression>(Statement::CreateTable { name: "t".into(), columns: vec![("id".into(), "INT".into())] }) {
        Plan::CreateTable { name, columns } => {
            assert_eq!(name, "t");
            assert_eq!(columns, vec![("id".to_string(), "INT".to_string())]);
        }
        _ => panic!(),
    }
}

fn scan(t: &str) -> OptPlan<&'static str> {
    OptPlan::Scan { table: t.into() }
}

#[test]
fn pushdown_moves_a_filter_above_the_projection() {
    let plan = OptPlan::Project {
        columns: vec!["a".into()],
        source: Box::new(OptPlan::Filter { predicate: "a > 1", source: Box::new(scan("t")) }),
    };
    match FilterPushdown.optimize(plan) {
        OptPlan::Filter { predicate, source } => {
            assert_eq!(predicate, "a > 1");
            match *source {
                OptPlan::Project { columns, source } => {
                    assert_eq!(columns, vec!["a".to_string()]);
                    assert!(matches!(*source, OptPlan::Scan { ref table } if table == "t"));
                }
                _ => panic!(),
            }
        }
        _ => panic!(),
    }
}

#[test]
fn pushdown_descends_under_filters_and_leaves_scans() {
    let plan = OptPlan::Filter {
        predicate: "outer",
        source: Box::new(OptPlan::Project {
            columns: vec!["b".into()],
            source: Box::new(OptPlan::Filter { predicate: "inner", source: Box::new(scan("u")) }),
        }),
    };
    let rule: &dyn OptimizerRule<&'static str> = &FilterPushdown;
    assert_eq!(rule.name(), "FilterPushdown");
    match rule.optimize(plan) {
        OptPlan::Filter { predicate: "outer", source } => match *source {
            OptPlan::Filter { predicate: "inner", source } => {
                assert!(matches!(*source, OptPlan::Project { .. }))
            }
            _ => panic!(),
        },
        _ => panic!(),
    }
    assert!(matches!(FilterPushdown.optimize(scan("v")), OptPlan::Scan { .. }));
}
