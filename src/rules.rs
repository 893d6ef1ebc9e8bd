use vstd::prelude::*;

use crate::types::{security_class_of, Edge, Node, NodeId, SecurityClass};

verus! {

/// Extra cost of entering a system, by its security class.
#[derive(Clone, Copy, Debug, PartialEq, Eq, Structural)]
pub struct PenaltyTable {
    pub high: u64,
    pub low: u64,
    pub null: u64,
}

/// How a conjunction of two rules combines their costs.
#[derive(Clone, Copy, Debug, PartialEq, Eq, Structural)]
pub enum Combinator {
    Sum,
    Max,
}

/// A traversal policy: for an edge from one node to another, either a cost
/// or a rejection.
#[derive(Debug)]
pub enum Rule {
    /// Every edge is admissible at cost 1: fewest hops.
    UnitCost,
    /// Cost 1 plus the penalty of the destination's security class.
    SecurityWeighted(PenaltyTable),
    /// Rejects an edge that leaves or enters a listed node; otherwise the
    /// inner rule decides.
    AvoidSet(Vec<NodeId>, Box<Rule>),
    /// Rejects an edge that either rule rejects; otherwise combines both
    /// costs.
    All(Box<Rule>, Box<Rule>, Combinator),
}

/// `a + b`, held at `u64::MAX`.
pub open spec fn saturating_sum(a: u64, b: u64) -> u64 {
    if a + b > u64::MAX {
        u64::MAX
    } else {
        (a + b) as u64
    }
}

pub open spec fn penalty_of(t: PenaltyTable, c: SecurityClass) -> u64 {
    match c {
        SecurityClass::High => t.high,
        SecurityClass::Low => t.low,
        SecurityClass::Null => t.null,
    }
}

/// What a rule makes of the traversal of `e` from `from` to `to`.
pub open spec fn rule_cost(r: Rule, from: Node, to: Node, e: Edge) -> Option<u64>
    decreases r,
{
    match r {
        Rule::UnitCost => Some(1),
        Rule::SecurityWeighted(t) => Some(saturating_sum(1, penalty_of(t, security_class_of(to.security as int)))),
        Rule::AvoidSet(avoid, inner) => if avoid@.contains(from.id) || avoid@.contains(to.id) {
            None
        } else {
            rule_cost(*inner, from, to, e)
        },
        Rule::All(a, b, c) => match (rule_cost(*a, from, to, e), rule_cost(*b, from, to, e)) {
            (Some(x), Some(y)) => Some(
                match c {
                    Combinator::Sum => saturating_sum(x, y),
                    Combinator::Max => if x >= y { x } else { y },
                },
            ),
            _ => None,
        },
    }
}

fn contains_id(ids: &Vec<NodeId>, id: NodeId) -> (r: bool)
    ensures
        r == ids@.contains(id),
{
    let mut i: usize = 0;
    while i < ids.len()
        invariant
            i <= ids.len(),
            forall|j: int| 0 <= j < i ==> ids@[j] != id,
        decreases ids.len() - i,
    {
        if ids[i] == id {
            assert(ids@[i as int] == id);
            return true;
        }
        i = i + 1;
    }
    false
}

impl Rule {
    /// The cost of traversing `edge` from `from` to `to`, or `None` where the
    /// rule rejects it.
    pub fn cost(&self, from: &Node, to: &Node, edge: &Edge) -> (r: Option<u64>)
        ensures
            r == rule_cost(*self, *from, *to, *edge),
        decreases self,
    {
        match self {
            Rule::UnitCost => Some(1),
            Rule::SecurityWeighted(t) => {
                let p = match to.security_class() {
                    SecurityClass::High => t.high,
                    SecurityClass::Low => t.low,
                    SecurityClass::Null => t.null,
                };
                Some(p.saturating_add(1))
            },
            Rule::AvoidSet(avoid, inner) => {
                if contains_id(avoid, from.id) || contains_id(avoid, to.id) {
                    None
                } else {
                    inner.cost(from, to, edge)
                }
            },
            Rule::All(a, b, c) => {
                let x = a.cost(from, to, edge);
                match x {
                    None => None,
                    Some(x) => match b.cost(from, to, edge) {
                        None => None,
                        Some(y) => Some(
                            match c {
                                Combinator::Sum => x.saturating_add(y),
                                Combinator::Max => if x >= y {
                                    x
                                } else {
                                    y
                                },
                            },
                        ),
                    },
                }
            },
        }
    }

    /// Whether the rule admits the traversal at all.
    pub fn admits(&self, from: &Node, to: &Node, edge: &Edge) -> (r: bool)
        ensures
            r == rule_cost(*self, *from, *to, *edge) is Some,
    {
        self.cost(from, to, edge).is_some()
    }
}

} // verus!
