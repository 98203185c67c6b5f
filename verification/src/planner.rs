//! Query planning: a parsed statement becomes a plan tree (scan, then an
//! optional filter, then a projection for `SELECT`). The expression type is
//! a parameter.
use vstd::prelude::*;

verus! {

/// A statement over expressions of type `E`.
#[derive(Debug)]
pub enum Statement<E> {
    Select { columns: Vec<String>, from: String, filter: Option<E> },
    Insert { table: String, values: Vec<E> },
    CreateTable { name: String, columns: Vec<(String, String)> },
}

/// A plan tree over expressions of type `E`.
#[derive(Debug)]
pub enum Plan<E> {
    Scan { table: String },
    Filter { predicate: E, source: Box<Plan<E>> },
    Project { columns: Vec<String>, source: Box<Plan<E>> },
    Insert { table: String, values: Vec<E> },
    CreateTable { name: String, columns: Vec<(String, String)> },
}

/// The plan of a statement: `SELECT` scans its table, filters by its
/// condition if it has one, and projects its columns; `INSERT` and
/// `CREATE TABLE` plan to themselves.
pub open spec fn planned<E>(stmt: Statement<E>) -> Plan<E> {
    match stmt {
        Statement::Select { columns, from, filter } => {
            let scan = Plan::Scan { table: from };
            let source = match filter {
                Some(pred) => Plan::Filter { predicate: pred, source: Box::new(scan) },
                None => scan,
            };
            Plan::Project { columns, source: Box::new(source) }
        },
        Statement::Insert { table, values } => Plan::Insert { table, values },
        Statement::CreateTable { name, columns } => Plan::CreateTable { name, columns },
    }
}

/// Turns statements into plans.
pub struct Planner;

impl Planner {
    /// The plan of `stmt`.
    pub fn plan<E>(stmt: Statement<E>) -> (p: Plan<E>)
        ensures
            p == planned(stmt),
    {
        match stmt {
            Statement::Select { columns, from, filter } => {
                let mut plan = Plan::Scan { table: from };
                if let Some(pred) = filter {
                    plan = Plan::Filter { predicate: pred, source: Box::new(plan) };
                }
                Plan::Project { columns, source: Box::new(plan) }
            },
            Statement::Insert { table, values } => Plan::Insert { table, values },
            Statement::CreateTable { name, columns } => Plan::CreateTable { name, columns },
        }
    }
}

} // verus!
