//! What a tick changes, as plain values, and what committing a move does to
//! it.

use crate::game::agent::{Agent, AgentType};
use crate::game::game::Move;
use crate::game::grid::{Grid, Terrain};
use crate::game::occupancy::coherent;
use vstd::prelude::*;

verus! {

/// What a tick changes, as plain values: the agents, the occupant list of
/// every cell (`occupancy[y][x]`) and the agents admitted to each shelter.
pub struct World {
    pub agents: Seq<Agent>,
    pub occupancy: Seq<Seq<Seq<usize>>>,
    pub registry: Map<u32, Seq<(usize, AgentType)>>,
}

/// `m` with the entry of cell `(x, y)` replaced by `v`.
pub open spec fn set_cell<T>(m: Seq<Seq<T>>, x: int, y: int, v: T) -> Seq<Seq<T>> {
    m.update(y, m[y].update(x, v))
}

/// The agents that `registry` lists for `shelter_id`, oldest first.
pub open spec fn listed_in(
    registry: Map<u32, Seq<(usize, AgentType)>>,
    shelter_id: u32,
) -> Seq<(usize, AgentType)> {
    if registry.contains_key(shelter_id) {
        registry[shelter_id]
    } else {
        Seq::empty()
    }
}

/// The budget left after a move: one unit less, or two less after a fallback
/// move, and never below zero.
pub open spec fn budget_after(remaining: u32, fallback: bool) -> u32 {
    if fallback {
        if remaining >= 2 {
            (remaining - 2) as u32
        } else {
            0
        }
    } else {
        (remaining - 1) as u32
    }
}

/// Agent `a` after move `mv` onto a cell of terrain `dest`.
pub open spec fn moved_agent(a: Agent, mv: Move, dest: Terrain) -> Agent {
    Agent {
        x: mv.x,
        y: mv.y,
        is_on_road: dest == Terrain::Road,
        remaining_steps: budget_after(a.remaining_steps, mv.fallback),
        ..a
    }
}

/// The world after move `mv` is committed: the agent leaves the occupant list
/// of its cell, takes its new position and pays for the move; then it is
/// admitted to the shelter if the new cell is one, and listed on the new cell
/// if not.
pub open spec fn apply_move(w: World, terrain: Seq<Vec<Terrain>>, mv: Move) -> World {
    let a = w.agents[mv.agent as int];
    let dest = terrain[mv.y as int]@[mv.x as int];
    let vacated = set_cell(
        w.occupancy,
        a.x as int,
        a.y as int,
        w.occupancy[a.y as int][a.x as int].remove_value(a.id),
    );
    World {
        agents: w.agents.update(mv.agent as int, moved_agent(a, mv, dest)),
        occupancy: if dest is Shelter {
            vacated
        } else {
            set_cell(
                vacated,
                mv.x as int,
                mv.y as int,
                vacated[mv.y as int][mv.x as int].push(a.id),
            )
        },
        registry: match dest {
            Terrain::Shelter(shelter_id) => w.registry.insert(
                shelter_id,
                listed_in(w.registry, shelter_id).push((a.id, a.agent_type)),
            ),
            _ => w.registry,
        },
    }
}

/// The world after `moves` are committed one after the other.
pub open spec fn apply_moves(w: World, terrain: Seq<Vec<Terrain>>, moves: Seq<Move>) -> World
    decreases moves.len(),
{
    if moves.len() == 0 {
        w
    } else {
        apply_move(apply_moves(w, terrain, moves.drop_last()), terrain, moves.last())
    }
}

impl Grid {
    /// The agents admitted to each shelter, as a map from shelter
    /// identifiers.
    pub open spec fn registry(&self) -> Map<u32, Seq<(usize, AgentType)>> {
        Map::new(
            |shelter_id: u32| self.shelter_agents@.contains_key(shelter_id),
            |shelter_id: u32| self.shelter_agents@[shelter_id]@,
        )
    }
}

/// The part of a grid and its agents that a tick changes.
pub open spec fn world_of(grid: &Grid, agents: Seq<Agent>) -> World {
    World { agents, occupancy: grid.occupancy(), registry: grid.registry() }
}

/// The grid is well formed and every agent stands on it.
pub open spec fn settled(grid: &Grid, agents: Seq<Agent>) -> bool {
    &&& grid.wf()
    &&& forall|i: int|
        0 <= i < agents.len() ==> grid.in_bounds((#[trigger] agents[i]).x as int, agents[i].y as int)
}

/// The agents are settled on the grid and the bookkeeping of the grid agrees
/// with them.
pub open spec fn in_order(grid: &Grid, agents: Seq<Agent>) -> bool {
    &&& settled(grid, agents)
    &&& coherent(world_of(grid, agents), grid.terrain@, grid.width as int, grid.height as int)
}

} // verus!
