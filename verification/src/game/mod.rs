//! The simulation proper: the grid, the agents, the distance fields and the
//! tick.

use std::cmp::Ordering;
use vstd::prelude::*;
use vstd::std_specs::cmp::PartialOrdSpecImpl;

pub mod agent;
pub mod breadth_first;
pub mod chance;
pub mod cost_field;
pub mod frontier;
pub mod game;
pub mod grid;
pub mod occupancy;
pub mod policy;
pub mod reach;
mod random;
pub mod tally;
pub mod world;

verus! {

/// A cell on the frontier of the weighted search, with the cost at which it
/// was reached.
///
/// States are ordered by cost alone, the cheaper state being the greater, so
/// that a collection that hands out its greatest entry hands out a cheapest
/// state.
#[derive(PartialEq, Eq, Clone, Copy, Debug, Structural)]
pub struct State {
    pub cost: u32,
    pub x: u32,
    pub y: u32,
}

impl State {
    /// How `self` compares with `other`: greater where it is cheaper.
    pub open spec fn cost_ranking(&self, other: &Self) -> Ordering {
        if other.cost < self.cost {
            Ordering::Less
        } else if other.cost == self.cost {
            Ordering::Equal
        } else {
            Ordering::Greater
        }
    }

    /// Compares by cost, the cheaper state being the greater.
    pub fn cmp(&self, other: &Self) -> (o: Ordering)
        ensures
            o == self.cost_ranking(other),
    {
        if other.cost < self.cost {
            Ordering::Less
        } else if other.cost == self.cost {
            Ordering::Equal
        } else {
            Ordering::Greater
        }
    }
}

impl PartialOrd for State {
    fn partial_cmp(&self, other: &Self) -> (o: Option<Ordering>) {
        Some(self.cmp(other))
    }
}

impl PartialOrdSpecImpl for State {
    open spec fn obeys_partial_cmp_spec() -> bool {
        true
    }

    open spec fn partial_cmp_spec(&self, other: &Self) -> Option<Ordering> {
        Some(self.cost_ranking(other))
    }
}

} // verus!
