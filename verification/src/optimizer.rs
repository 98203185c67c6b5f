//! Plan rewriting rules. Filter pushdown moves a filter that sits directly
//! under a projection above it, so that rows are filtered before they are
//! projected; elsewhere it descends into the plan. The expression type is a
//! parameter.
use vstd::prelude::*;

verus! {

/// A plan tree over predicates of type `E`.
#[derive(Debug)]
pub enum Plan<E> {
    Scan { table: String },
    Filter { predicate: E, source: Box<Plan<E>> },
    Project { columns: Vec<String>, source: Box<Plan<E>> },
}

/// A rewriting rule on plans.
pub trait OptimizerRule<E> {
    /// The rule's name.
    fn name(&self) -> &str;

    /// The rewritten plan.
    fn optimize(&self, plan: Plan<E>) -> Plan<E>;
}

/// The plan after filter pushdown.
pub open spec fn pushed_down<E>(p: Plan<E>) -> Plan<E>
    decreases p,
{
    match p {
        Plan::Project { columns, source } => match *source {
            Plan::Filter { predicate, source: inner } => Plan::Filter {
                predicate,
                source: Box::new(Plan::Project { columns, source: inner }),
            },
            other => Plan::Project { columns, source: Box::new(pushed_down(other)) },
        },
        Plan::Filter { predicate, source } => Plan::Filter { predicate, source: Box::new(pushed_down(*source)) },
        other => other,
    }
}

/// The number of nodes of a plan.
pub open spec fn size<E>(p: Plan<E>) -> nat
    decreases p,
{
    match p {
        Plan::Scan { .. } => 1,
        Plan::Filter { source, .. } => 1 + size(*source),
        Plan::Project { source, .. } => 1 + size(*source),
    }
}

/// The table the plan reads.
pub open spec fn scanned<E>(p: Plan<E>) -> Seq<char>
    decreases p,
{
    match p {
        Plan::Scan { table } => table@,
        Plan::Filter { source, .. } => scanned(*source),
        Plan::Project { source, .. } => scanned(*source),
    }
}

/// The filter predicates from the top of the plan down.
pub open spec fn predicates<E>(p: Plan<E>) -> Seq<E>
    decreases p,
{
    match p {
        Plan::Scan { .. } => Seq::empty(),
        Plan::Filter { predicate, source } => seq![predicate] + predicates(*source),
        Plan::Project { source, .. } => predicates(*source),
    }
}

/// Filter pushdown.
pub struct FilterPushdown;

impl FilterPushdown {
    /// The rule's name.
    pub fn name(&self) -> (s: &str)
        ensures
            s@ == "FilterPushdown"@,
    {
        "FilterPushdown"
    }

    /// The plan with each filter directly under a projection moved above it.
    pub fn optimize<E>(&self, plan: Plan<E>) -> (p: Plan<E>)
        ensures
            p == pushed_down(plan),
        decreases plan,
    {
        match plan {
            Plan::Project { columns, source } => match *source {
                Plan::Filter { predicate, source: inner } => Plan::Filter {
                    predicate,
                    source: Box::new(Plan::Project { columns, source: inner }),
                },
                other => Plan::Project { columns, source: Box::new(self.optimize(other)) },
            },
            Plan::Filter { predicate, source } => Plan::Filter {
                predicate,
                source: Box::new(self.optimize(*source)),
            },
            other => other,
        }
    }
}

impl<E> OptimizerRule<E> for FilterPushdown {
    fn name(&self) -> (s: &str)
        ensures
            s@ == "FilterPushdown"@,
    {
        FilterPushdown::name(self)
    }

    fn optimize(&self, plan: Plan<E>) -> (p: Plan<E>)
        ensures
            p == pushed_down(plan),
    {
        FilterPushdown::optimize(self, plan)
    }
}

/// Filter pushdown keeps every node, the table read, and the filter
/// predicates in their order.
pub proof fn lemma_pushdown_preserves<E>(p: Plan<E>)
    ensures
        size(pushed_down(p)) == size(p),
        scanned(pushed_down(p)) == scanned(p),
        predicates(pushed_down(p)) == predicates(p),
    decreases p,
{
    match p {
        Plan::Project { columns, source } => match *source {
            Plan::Filter { predicate, source: inner } => {
                let moved = Plan::<E>::Project { columns, source: inner };
                assert(pushed_down(p) == Plan::Filter { predicate, source: Box::new(moved) });
                assert(size(moved) == 1 + size(*inner));
                assert(size(*source) == 1 + size(*inner));
                assert(scanned(moved) == scanned(*inner));
                assert(scanned(*source) == scanned(*inner));
                assert(predicates(moved) == predicates(*inner));
                assert(predicates(*source) == seq![predicate] + predicates(*inner));
            },
            other => {
                lemma_pushdown_preserves(other);
                assert(pushed_down(p) == Plan::Project { columns, source: Box::new(pushed_down(other)) });
            },
        },
        Plan::Filter { predicate, source } => {
            lemma_pushdown_preserves(*source);
        },
        _ => {},
    }
}

} // verus!
