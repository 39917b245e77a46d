//! The cost of growing a history.

use vstd::prelude::*;

verus! {

/// What it costs to record one more event at some place of a history: how
/// many leaves have to be opened into nodes, and how many nodes lie on the
/// way down. Opening a leaf weighs more than any depth.
#[derive(Debug, Clone, Copy, PartialEq, Eq, Structural)]
pub struct Cost {
    pub expansions: u64,
    pub depth: u64,
}

/// A cost as a pair of unbounded numbers: leaves opened, then depth.
pub type CostModel = (nat, nat);

/// The cost of one more leaf opened.
pub open spec fn shifted(c: CostModel) -> CostModel {
    (c.0 + 1, c.1)
}

/// The cost of one more node on the way.
pub open spec fn stepped(c: CostModel) -> CostModel {
    (c.0, c.1 + 1)
}

/// Whether `a` is the lesser cost: fewer leaves opened, or as many and less
/// depth.
pub open spec fn cheaper(a: CostModel, b: CostModel) -> bool {
    a.0 < b.0 || (a.0 == b.0 && a.1 < b.1)
}

impl View for Cost {
    type V = CostModel;

    open spec fn view(&self) -> CostModel {
        (self.expansions as nat, self.depth as nat)
    }
}

impl Cost {
    /// The greatest number that either part of a cost can hold.
    pub open spec fn limit() -> nat {
        u64::MAX as nat
    }

    /// No cost at all.
    pub fn zero() -> (r: Cost)
        ensures
            r@ == (0nat, 0nat),
    {
        Cost { expansions: 0, depth: 0 }
    }

    /// One more leaf opened.
    pub fn shift(self) -> (r: Cost)
        requires
            self@.0 < Cost::limit(),
        ensures
            r@ == shifted(self@),
    {
        Cost { expansions: self.expansions + 1, depth: self.depth }
    }

    /// One more node on the way.
    pub fn step(self) -> (r: Cost)
        requires
            self@.1 < Cost::limit(),
        ensures
            r@ == stepped(self@),
    {
        Cost { expansions: self.expansions, depth: self.depth + 1 }
    }

    /// Whether `self` is the lesser cost.
    pub fn less_than(&self, other: &Cost) -> (b: bool)
        ensures
            b == cheaper(self@, other@),
    {
        self.expansions < other.expansions || (self.expansions == other.expansions && self.depth
            < other.depth)
    }
}

} // verus!
