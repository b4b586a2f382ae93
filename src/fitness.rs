//! Fitness scores. A candidate's fitness is `FITNESS_NUMERATOR / cost` for a
//! non-negative cost (for a tour, its length): higher is better, and a zero
//! cost stands for the greatest score of all, so no division is ever made.

use vstd::prelude::*;

verus! {

/// The score of a candidate is `FITNESS_NUMERATOR / cost`.
pub const FITNESS_NUMERATOR: u64 = 1_000_000;

/// A fitness, held as the cost that it is the reciprocal of.
#[derive(Clone, Copy, Debug, PartialEq, Eq, Structural)]
pub struct Fitness {
    pub cost: u128,
}

impl Fitness {
    /// This fitness is strictly higher than `other`.
    pub open spec fn beats(self, other: Fitness) -> bool {
        self.cost < other.cost
    }

    /// This fitness is at least as high as `other`.
    pub open spec fn at_least(self, other: Fitness) -> bool {
        self.cost <= other.cost
    }

    /// The fitness whose cost is `cost`.
    pub fn from_cost(cost: u128) -> (r: Fitness)
        ensures
            r.cost == cost,
    {
        Fitness { cost }
    }

    /// Whether this fitness is strictly higher than `other`.
    pub fn exceeds(&self, other: &Fitness) -> (r: bool)
        ensures
            r == self.beats(*other),
    {
        self.cost < other.cost
    }

    /// The weight of this fitness in fitness-proportional selection:
    /// `scale / cost`, rounded down, and `scale` itself for a zero cost.
    pub fn selection_weight(&self, scale: u64) -> (r: u64)
        ensures
            r == if self.cost == 0 {
                scale as int
            } else {
                scale as int / self.cost as int
            },
            r <= scale,
    {
        if self.cost == 0 {
            scale
        } else if self.cost > scale as u128 {
            assert(scale as int / self.cost as int == 0) by (nonlinear_arith)
                requires 0 <= scale < self.cost;
            0
        } else {
            scale / (self.cost as u64)
        }
    }
}

} // verus!
