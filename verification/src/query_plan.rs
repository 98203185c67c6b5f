//! Query plan trees: counting, depth, the tables they read, and pushing a
//! filter below a projection.
use vstd::prelude::*;

verus! {

/// A node of a query plan.
#[derive(Debug)]
pub enum PlanNode {
    Scan { table: String },
    Filter { predicate: String, child: Box<PlanNode> },
    Project { columns: Vec<String>, child: Box<PlanNode> },
    Join { left: Box<PlanNode>, right: Box<PlanNode>, on: String },
    Sort { key: String, child: Box<PlanNode> },
    Limit { count: usize, child: Box<PlanNode> },
}

pub open spec fn max_nat(a: nat, b: nat) -> nat {
    if a >= b {
        a
    } else {
        b
    }
}

impl PlanNode {
    /// The number of nodes in the tree.
    pub open spec fn size(&self) -> nat
        decreases self,
    {
        match self {
            PlanNode::Scan { .. } => 1,
            PlanNode::Filter { child, .. } => 1 + child.size(),
            PlanNode::Project { child, .. } => 1 + child.size(),
            PlanNode::Sort { child, .. } => 1 + child.size(),
            PlanNode::Limit { child, .. } => 1 + child.size(),
            PlanNode::Join { left, right, .. } => 1 + left.size() + right.size(),
        }
    }

    /// The number of nodes on the longest path from the root to a leaf.
    pub open spec fn height(&self) -> nat
        decreases self,
    {
        match self {
            PlanNode::Scan { .. } => 1,
            PlanNode::Filter { child, .. } => 1 + child.height(),
            PlanNode::Project { child, .. } => 1 + child.height(),
            PlanNode::Sort { child, .. } => 1 + child.height(),
            PlanNode::Limit { child, .. } => 1 + child.height(),
            PlanNode::Join { left, right, .. } => 1 + max_nat(left.height(), right.height()),
        }
    }

    /// The tables of the `Scan` nodes, left to right.
    pub open spec fn table_names(&self) -> Seq<Seq<char>>
        decreases self,
    {
        match self {
            PlanNode::Scan { table } => seq![table@],
            PlanNode::Filter { child, .. } => child.table_names(),
            PlanNode::Project { child, .. } => child.table_names(),
            PlanNode::Sort { child, .. } => child.table_names(),
            PlanNode::Limit { child, .. } => child.table_names(),
            PlanNode::Join { left, right, .. } => left.table_names() + right.table_names(),
        }
    }

    /// The plan after one pushdown step: a filter directly over a projection
    /// moves below it; any other plan is unchanged.
    pub open spec fn pushed_down(self) -> PlanNode {
        match self {
            PlanNode::Filter { predicate, child } => match *child {
                PlanNode::Project { columns, child: inner } => PlanNode::Project {
                    columns,
                    child: Box::new(PlanNode::Filter { predicate, child: inner }),
                },
                other => PlanNode::Filter { predicate, child: Box::new(other) },
            },
            other => other,
        }
    }

    /// Counts the nodes of the tree.
    pub fn node_count(&self) -> (n: usize)
        requires
            self.size() <= usize::MAX,
        ensures
            n == self.size(),
        decreases self,
    {
        match self {
            PlanNode::Scan { .. } => 1,
            PlanNode::Filter { child, .. } => 1 + child.node_count(),
            PlanNode::Project { child, .. } => 1 + child.node_count(),
            PlanNode::Sort { child, .. } => 1 + child.node_count(),
            PlanNode::Limit { child, .. } => 1 + child.node_count(),
            PlanNode::Join { left, right, .. } => 1 + left.node_count() + right.node_count(),
        }
    }

    /// The depth (height) of the tree.
    pub fn depth(&self) -> (d: usize)
        requires
            self.size() <= usize::MAX,
        ensures
            d == self.height(),
            self.height() <= self.size(),
        decreases self,
    {
        match self {
            PlanNode::Scan { .. } => 1,
            PlanNode::Filter { child, .. } => 1 + child.depth(),
            PlanNode::Project { child, .. } => 1 + child.depth(),
            PlanNode::Sort { child, .. } => 1 + child.depth(),
            PlanNode::Limit { child, .. } => 1 + child.depth(),
            PlanNode::Join { left, right, .. } => {
                let l = left.depth();
                let r = right.depth();
                1 + if l >= r {
                    l
                } else {
                    r
                }
            },
        }
    }

    /// The tables read by the `Scan` nodes, left to right.
    pub fn tables(&self) -> (t: Vec<String>)
        ensures
            t@.map_values(|s: String| s@) == self.table_names(),
        decreases self,
    {
        match self {
            PlanNode::Scan { table } => {
                let mut v: Vec<String> = Vec::new();
                v.push(table.clone());
                proof {
                    assert(v@.map_values(|s: String| s@) =~= seq![table@]);
                }
                v
            },
            PlanNode::Filter { child, .. } => child.tables(),
            PlanNode::Project { child, .. } => child.tables(),
            PlanNode::Sort { child, .. } => child.tables(),
            PlanNode::Limit { child, .. } => child.tables(),
            PlanNode::Join { left, right, .. } => {
                let mut t = left.tables();
                let mut r = right.tables();
                let ghost t0 = t@;
                let ghost r0 = r@;
                t.append(&mut r);
                proof {
                    assert(t@.map_values(|s: String| s@) =~= t0.map_values(|s: String| s@)
                        + r0.map_values(|s: String| s@));
                }
                t
            },
        }
    }

    /// Moves a filter below a projection directly under it:
    /// `Filter(p, Project(cols, x))` becomes `Project(cols, Filter(p, x))`;
    /// any other plan is returned unchanged.
    pub fn push_filter_down(self) -> (p: PlanNode)
        ensures
            p == self.pushed_down(),
            p.size() == self.size(),
            p.height() == self.height(),
            p.table_names() == self.table_names(),
    {
        let ghost orig = self;
        match self {
            PlanNode::Filter { predicate, child } => match *child {
                PlanNode::Project { columns, child: inner } => {
                    let ghost x = *inner;
                    let f = PlanNode::Filter { predicate, child: inner };
                    proof {
                        assert(f.size() == 1 + x.size());
                        assert(f.height() == 1 + x.height());
                        assert(f.table_names() == x.table_names());
                    }
                    let p = PlanNode::Project { columns, child: Box::new(f) };
                    proof {
                        let c = PlanNode::Project { columns: columns, child: Box::new(x) };
                        assert(orig == PlanNode::Filter { predicate: predicate, child: Box::new(c) });
                        assert(c.size() == 1 + x.size());
                        assert(c.height() == 1 + x.height());
                        assert(c.table_names() == x.table_names());
                    }
                    p
                },
                other => PlanNode::Filter { predicate, child: Box::new(other) },
            },
            other => other,
        }
    }
}

} // verus!
