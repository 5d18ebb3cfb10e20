//! How an agent chooses its move: by the distance fields where they offer a
//! candidate, at random among the free neighbours where they do not.

use crate::game::agent::Agent;
use crate::game::game::Model;
use crate::game::grid::{
    direction_count, neighbor, neighbor_count, rectangular, step_target, Grid, Terrain,
};
use crate::game::chance::{Chance, ThreadChance};
use vstd::prelude::*;

verus! {

/// The cells that `flags` marks.
pub open spec fn marked(flags: Seq<Vec<bool>>) -> Set<(int, int)> {
    Set::new(
        |c: (int, int)| 0 <= c.1 < flags.len() && 0 <= c.0 < flags[c.1]@.len() && flags[c.1]@[c.0],
    )
}

/// Cell `c` exists, is not reserved and has no occupant.
pub open spec fn cell_free(grid: &Grid, reserved: Set<(int, int)>, c: (int, int)) -> bool {
    &&& grid.in_bounds(c.0, c.1)
    &&& !reserved.contains(c)
    &&& grid.occupants(c.0, c.1).len() == 0
}

/// Whether the neighbour of `(x, y)` in direction `k` is a candidate of the
/// distance policy. Off the road (`on_road` false) a candidate is a free
/// neighbour whose distance to the road is known and no larger than that of
/// `(x, y)`. On the road a candidate is a free road or shelter neighbour
/// whose distance to a shelter is known.
pub open spec fn candidate(
    grid: &Grid,
    reserved: Set<(int, int)>,
    x: int,
    y: int,
    on_road: bool,
    k: int,
) -> bool {
    let c = step_target(x, y, k);
    &&& cell_free(grid, reserved, c)
    &&& if on_road {
        &&& (grid.terrain_at(c.0, c.1) == Terrain::Road || grid.terrain_at(c.0, c.1) is Shelter)
        &&& grid.distance_to_shelter@[c.1]@[c.0] is Some
    } else {
        &&& grid.distance_to_road@[y]@[x] is Some
        &&& grid.distance_to_road@[c.1]@[c.0] is Some
        &&& grid.distance_to_road@[c.1]@[c.0]->0 <= grid.distance_to_road@[y]@[x]->0
    }
}

/// The distance by which the policy ranks the neighbour in direction `k`.
pub open spec fn rank(grid: &Grid, x: int, y: int, on_road: bool, k: int) -> int {
    let c = step_target(x, y, k);
    if on_road {
        grid.distance_to_shelter@[c.1]@[c.0]->0 as int
    } else {
        grid.distance_to_road@[c.1]@[c.0]->0 as int
    }
}

/// Direction `k` leads to the best candidate: none of the `n` directions has a
/// candidate of smaller distance, and none before `k` has one of equal
/// distance.
pub open spec fn best_candidate(
    grid: &Grid,
    reserved: Set<(int, int)>,
    x: int,
    y: int,
    on_road: bool,
    n: int,
    k: int,
) -> bool {
    &&& 0 <= k < n
    &&& candidate(grid, reserved, x, y, on_road, k)
    &&& forall|j: int|
        0 <= j < n && #[trigger] candidate(grid, reserved, x, y, on_road, j) ==> {
            ||| rank(grid, x, y, on_road, k) < rank(grid, x, y, on_road, j)
            ||| (rank(grid, x, y, on_road, k) == rank(grid, x, y, on_road, j) && k <= j)
        }
}

/// The neighbour in direction `k` is a shelter cell that nobody has reserved.
pub open spec fn shelter_step(grid: &Grid, reserved: Set<(int, int)>, x: int, y: int, k: int) -> bool {
    let c = step_target(x, y, k);
    &&& grid.in_bounds(c.0, c.1)
    &&& grid.terrain_at(c.0, c.1) is Shelter
    &&& !reserved.contains(c)
}

/// Direction `k` is the one that the policy takes from `(x, y)`.
///
/// From a road cell the first unreserved shelter neighbour wins outright;
/// failing that, and from any other cell, the best candidate wins.
pub open spec fn preferred_direction(
    grid: &Grid,
    reserved: Set<(int, int)>,
    x: int,
    y: int,
    k: int,
) -> bool {
    let n = direction_count(grid.config.allow_diagonal);
    let on_road = grid.terrain_at(x, y) == Terrain::Road;
    &&& 0 <= k < n
    &&& if on_road && exists|j: int| 0 <= j < n && shelter_step(grid, reserved, x, y, j) {
        &&& shelter_step(grid, reserved, x, y, k)
        &&& forall|j: int| 0 <= j < k ==> !shelter_step(grid, reserved, x, y, j)
    } else {
        best_candidate(grid, reserved, x, y, on_road, n, k)
    }
}

/// The policy has a move from `(x, y)`.
pub open spec fn has_preferred(grid: &Grid, reserved: Set<(int, int)>, x: int, y: int) -> bool {
    exists|k: int| preferred_direction(grid, reserved, x, y, k)
}

/// The neighbour in direction `k` can be the target of a fallback move: it is
/// free and not blocked.
pub open spec fn fallback_ok(grid: &Grid, reserved: Set<(int, int)>, x: int, y: int, k: int) -> bool {
    let c = step_target(x, y, k);
    &&& cell_free(grid, reserved, c)
    &&& grid.terrain_at(c.0, c.1) != Terrain::Blocked
}

/// The targets of fallback moves among the first `k` directions, in the order
/// of the directions.
pub open spec fn fallback_targets(
    grid: &Grid,
    reserved: Set<(int, int)>,
    x: int,
    y: int,
    k: int,
) -> Seq<(u32, u32)>
    decreases k,
{
    if k <= 0 {
        Seq::empty()
    } else {
        let before = fallback_targets(grid, reserved, x, y, k - 1);
        if fallback_ok(grid, reserved, x, y, k - 1) {
            let c = step_target(x, y, k - 1);
            before.push((c.0 as u32, c.1 as u32))
        } else {
            before
        }
    }
}

/// `outcome` is what an agent on `(x, y)` may decide: the policy's move where
/// it has one; else any of the fallback targets, as a fallback move; and no
/// move only where there is neither.
pub open spec fn decision_allowed(
    grid: &Grid,
    reserved: Set<(int, int)>,
    x: int,
    y: int,
    outcome: Option<(u32, u32, bool)>,
) -> bool {
    let n = direction_count(grid.config.allow_diagonal);
    match outcome {
        Some((nx, ny, false)) => exists|k: int|
            #[trigger] preferred_direction(grid, reserved, x, y, k) && step_target(x, y, k) == (
                nx as int,
                ny as int,
            ),
        Some((nx, ny, true)) => !has_preferred(grid, reserved, x, y) && fallback_targets(
            grid,
            reserved,
            x,
            y,
            n,
        ).contains((nx, ny)),
        None => !has_preferred(grid, reserved, x, y) && fallback_targets(
            grid,
            reserved,
            x,
            y,
            n,
        ).len() == 0,
    }
}

/// Cell `c` is open to a move from `(x, y)`: it is a neighbour of `(x, y)` in
/// one of the directions that the configuration has, lies on the grid, is not
/// reserved, and is a shelter cell or has no occupant.
pub open spec fn open_step(grid: &Grid, reserved: Set<(int, int)>, x: int, y: int, c: (int, int)) -> bool {
    &&& grid.in_bounds(c.0, c.1)
    &&& !reserved.contains(c)
    &&& (grid.terrain_at(c.0, c.1) is Shelter || grid.occupants(c.0, c.1).len() == 0)
    &&& exists|k: int|
        0 <= k < direction_count(grid.config.allow_diagonal) && #[trigger] step_target(x, y, k) == c
}

/// Every fallback target is the neighbour in a direction that a fallback move
/// can take.
pub proof fn lemma_fallback_targets(
    grid: &Grid,
    reserved: Set<(int, int)>,
    x: int,
    y: int,
    n: int,
    j: int,
)
    requires
        grid.width <= u32::MAX,
        0 <= j < fallback_targets(grid, reserved, x, y, n).len(),
    ensures
        exists|k: int|
            0 <= k < n && fallback_ok(grid, reserved, x, y, k) && #[trigger] step_target(x, y, k) == (
                fallback_targets(grid, reserved, x, y, n)[j].0 as int,
                fallback_targets(grid, reserved, x, y, n)[j].1 as int,
            ),
    decreases n,
{
    if n > 0 {
        let before = fallback_targets(grid, reserved, x, y, n - 1);
        if j < before.len() {
            lemma_fallback_targets(grid, reserved, x, y, n - 1, j);
            let k = choose|k: int|
                0 <= k < n - 1 && fallback_ok(grid, reserved, x, y, k) && #[trigger] step_target(
                    x,
                    y,
                    k,
                ) == (before[j].0 as int, before[j].1 as int);
            assert(fallback_targets(grid, reserved, x, y, n)[j] == before[j]);
            assert(0 <= k < n && fallback_ok(grid, reserved, x, y, k) && step_target(x, y, k) == (
                fallback_targets(grid, reserved, x, y, n)[j].0 as int,
                fallback_targets(grid, reserved, x, y, n)[j].1 as int,
            ));
        } else {
            assert(fallback_ok(grid, reserved, x, y, n - 1));
            let c = step_target(x, y, n - 1);
            assert(fallback_targets(grid, reserved, x, y, n)[j] == (c.0 as u32, c.1 as u32));
            assert(step_target(x, y, n - 1) == (c.0 as u32 as int, c.1 as u32 as int));
        }
    }
}

/// Whatever move an agent may decide leads to a cell that is open to it.
pub proof fn lemma_decision_is_open(
    grid: &Grid,
    reserved: Set<(int, int)>,
    x: int,
    y: int,
    outcome: Option<(u32, u32, bool)>,
)
    requires
        grid.width <= u32::MAX,
        decision_allowed(grid, reserved, x, y, outcome),
        outcome is Some,
    ensures
        outcome matches Some(m) ==> open_step(grid, reserved, x, y, (m.0 as int, m.1 as int)),
{
    let n = direction_count(grid.config.allow_diagonal);
    let m = outcome->0;
    let c = (m.0 as int, m.1 as int);
    if m.2 {
        let list = fallback_targets(grid, reserved, x, y, n);
        let j = choose|j: int| 0 <= j < list.len() && list[j] == (m.0, m.1);
        lemma_fallback_targets(grid, reserved, x, y, n, j);
        let k = choose|k: int|
            0 <= k < n && fallback_ok(grid, reserved, x, y, k) && #[trigger] step_target(x, y, k) == (
                list[j].0 as int,
                list[j].1 as int,
            );
        assert(step_target(x, y, k) == c);
    } else {
        let k = choose|k: int|
            #[trigger] preferred_direction(grid, reserved, x, y, k) && step_target(x, y, k) == c;
        if shelter_step(grid, reserved, x, y, k) {
        } else {
            assert(candidate(grid, reserved, x, y, grid.terrain_at(x, y) == Terrain::Road, k));
        }
        assert(0 <= k < n && step_target(x, y, k) == c);
    }
}

impl Model {
    /// The move that the distance policy gives an agent on `(x, y)`, if any.
    pub fn preferred_move(&self, x: u32, y: u32, reserved: &Vec<Vec<bool>>) -> (target: Option<
        (u32, u32),
    >)
        requires
            self.grid.wf(),
            self.grid.in_bounds(x as int, y as int),
            rectangular(reserved@, self.grid.width as int, self.grid.height as int),
        ensures
            match target {
                Some(c) => exists|k: int|
                    #[trigger] preferred_direction(&self.grid, marked(reserved@), x as int, y as int, k)
                        && step_target(x as int, y as int, k) == (c.0 as int, c.1 as int),
                None => !has_preferred(&self.grid, marked(reserved@), x as int, y as int),
            },
            target matches Some(c) ==> self.grid.in_bounds(c.0 as int, c.1 as int) && !marked(
                reserved@,
            ).contains((c.0 as int, c.1 as int)),
    {
        let n = neighbor_count(self.grid.config.allow_diagonal);
        let on_road = self.grid.terrain[y as usize][x as usize] == Terrain::Road;
        let ghost res = marked(reserved@);
        let ghost gx = x as int;
        let ghost gy = y as int;
        let mut best: Option<(u32, u32)> = None;
        let mut best_rank: u32 = 0;
        let ghost mut best_k: int = 0;
        let mut k: usize = 0;
        while k < n
            invariant
                k <= n,
                n == direction_count(self.grid.config.allow_diagonal),
                self.grid.wf(),
                self.grid.in_bounds(gx, gy),
                gx == x,
                gy == y,
                rectangular(reserved@, self.grid.width as int, self.grid.height as int),
                res == marked(reserved@),
                on_road == (self.grid.terrain_at(gx, gy) == Terrain::Road),
                on_road ==> forall|j: int| 0 <= j < k ==> !shelter_step(&self.grid, res, gx, gy, j),
                match best {
                    Some(c) => {
                        &&& best_candidate(&self.grid, res, gx, gy, on_road, k as int, best_k)
                        &&& step_target(gx, gy, best_k) == (c.0 as int, c.1 as int)
                        &&& best_rank == rank(&self.grid, gx, gy, on_road, best_k)
                    },
                    None => forall|j: int|
                        0 <= j < k ==> !candidate(&self.grid, res, gx, gy, on_road, j),
                },
            decreases n - k,
        {
            if let Some((nx, ny)) = neighbor(x, y, k, self.grid.width, self.grid.height) {
                let taken = reserved[ny as usize][nx as usize];
                assert(taken == res.contains((nx as int, ny as int)));
                let terrain = self.grid.terrain[ny as usize][nx as usize];
                let is_shelter = matches!(terrain, Terrain::Shelter(_));
                if on_road && is_shelter && !taken {
                    assert(shelter_step(&self.grid, res, gx, gy, k as int));
                    assert(preferred_direction(&self.grid, res, gx, gy, k as int));
                    return Some((nx, ny));
                }
                let empty = self.grid.agents_in_cell[ny as usize][nx as usize].len() == 0;
                let found: Option<u32> = if taken || !empty {
                    None
                } else if on_road {
                    if terrain == Terrain::Road || is_shelter {
                        self.grid.distance_to_shelter[ny as usize][nx as usize]
                    } else {
                        None
                    }
                } else {
                    match (
                        self.grid.distance_to_road[y as usize][x as usize],
                        self.grid.distance_to_road[ny as usize][nx as usize],
                    ) {
                        (Some(here), Some(there)) => if there <= here {
                            Some(there)
                        } else {
                            None
                        },
                        _ => None,
                    }
                };
                assert(found is Some <==> candidate(&self.grid, res, gx, gy, on_road, k as int));
                if let Some(d) = found {
                    assert(d == rank(&self.grid, gx, gy, on_road, k as int));
                    let better = match best {
                        Some(_) => d < best_rank,
                        None => true,
                    };
                    if better {
                        best = Some((nx, ny));
                        best_rank = d;
                        proof {
                            best_k = k as int;
                        }
                    }
                }
            } else {
                assert(!candidate(&self.grid, res, gx, gy, on_road, k as int));
                assert(!shelter_step(&self.grid, res, gx, gy, k as int));
            }
            k = k + 1;
        }
        proof {
            if on_road {
                assert(!exists|j: int| 0 <= j < n && shelter_step(&self.grid, res, gx, gy, j));
            }
            match best {
                Some(c) => {
                    assert(preferred_direction(&self.grid, res, gx, gy, best_k));
                },
                None => {
                    assert forall|j: int| !preferred_direction(&self.grid, res, gx, gy, j) by {
                        if preferred_direction(&self.grid, res, gx, gy, j) {
                            assert(candidate(&self.grid, res, gx, gy, on_road, j));
                        }
                    }
                },
            }
        }
        best
    }

    /// The free, unblocked neighbours of `(x, y)`, in the order of the
    /// directions.
    pub fn fallback_moves(&self, x: u32, y: u32, reserved: &Vec<Vec<bool>>) -> (targets: Vec<
        (u32, u32),
    >)
        requires
            self.grid.wf(),
            self.grid.in_bounds(x as int, y as int),
            rectangular(reserved@, self.grid.width as int, self.grid.height as int),
        ensures
            targets@ == fallback_targets(
                &self.grid,
                marked(reserved@),
                x as int,
                y as int,
                direction_count(self.grid.config.allow_diagonal),
            ),
            forall|j: int|
                0 <= j < targets@.len() ==> self.grid.in_bounds(
                    (#[trigger] targets@[j]).0 as int,
                    targets@[j].1 as int,
                ) && !marked(reserved@).contains((targets@[j].0 as int, targets@[j].1 as int)),
    {
        let n = neighbor_count(self.grid.config.allow_diagonal);
        let mut targets: Vec<(u32, u32)> = Vec::new();
        let mut k: usize = 0;
        while k < n
            invariant
                k <= n,
                n == direction_count(self.grid.config.allow_diagonal),
                self.grid.wf(),
                self.grid.in_bounds(x as int, y as int),
                rectangular(reserved@, self.grid.width as int, self.grid.height as int),
                targets@ == fallback_targets(
                    &self.grid,
                    marked(reserved@),
                    x as int,
                    y as int,
                    k as int,
                ),
                forall|j: int|
                    0 <= j < targets@.len() ==> self.grid.in_bounds(
                        (#[trigger] targets@[j]).0 as int,
                        targets@[j].1 as int,
                    ) && !marked(reserved@).contains((targets@[j].0 as int, targets@[j].1 as int)),
            decreases n - k,
        {
            if let Some((nx, ny)) = neighbor(x, y, k, self.grid.width, self.grid.height) {
                let taken = reserved[ny as usize][nx as usize];
                assert(taken == marked(reserved@).contains((nx as int, ny as int)));
                if !taken && self.grid.agents_in_cell[ny as usize][nx as usize].len() == 0
                    && self.grid.terrain[ny as usize][nx as usize] != Terrain::Blocked {
                    targets.push((nx, ny));
                }
            }
            k = k + 1;
        }
        targets
    }

    /// Decides the move of `agent` given the cells reserved so far: the
    /// policy's move where there is one, else a fallback target that `chance`
    /// picks, else nothing. The third component tells a fallback move.
    pub fn find_best_move_with<C: Chance>(
        &self,
        agent: &Agent,
        reserved: &Vec<Vec<bool>>,
        chance: &mut C,
    ) -> (outcome: Option<(u32, u32, bool)>)
        requires
            self.grid.wf(),
            self.grid.in_bounds(agent.x as int, agent.y as int),
            rectangular(reserved@, self.grid.width as int, self.grid.height as int),
        ensures
            decision_allowed(
                &self.grid,
                marked(reserved@),
                agent.x as int,
                agent.y as int,
                outcome,
            ),
            outcome matches Some(m) ==> open_step(
                &self.grid,
                marked(reserved@),
                agent.x as int,
                agent.y as int,
                (m.0 as int, m.1 as int),
            ),
    {
        let outcome = match self.preferred_move(agent.x, agent.y, reserved) {
            Some((nx, ny)) => Some((nx, ny, false)),
            None => {
                let targets = self.fallback_moves(agent.x, agent.y, reserved);
                match chance.pick(&targets) {
                    Some((nx, ny)) => Some((nx, ny, true)),
                    None => None,
                }
            },
        };
        proof {
            if outcome is Some {
                lemma_decision_is_open(
                    &self.grid,
                    marked(reserved@),
                    agent.x as int,
                    agent.y as int,
                    outcome,
                );
            }
        }
        outcome
    }

    /// Decides the move of `agent` as `find_best_move_with` does, a fallback
    /// target being picked by the generator of the running thread.
    pub fn find_best_move(&self, agent: &Agent, reserved: &Vec<Vec<bool>>) -> (outcome: Option<
        (u32, u32, bool),
    >)
        requires
            self.grid.wf(),
            self.grid.in_bounds(agent.x as int, agent.y as int),
            rectangular(reserved@, self.grid.width as int, self.grid.height as int),
        ensures
            decision_allowed(
                &self.grid,
                marked(reserved@),
                agent.x as int,
                agent.y as int,
                outcome,
            ),
            outcome matches Some(m) ==> open_step(
                &self.grid,
                marked(reserved@),
                agent.x as int,
                agent.y as int,
                (m.0 as int, m.1 as int),
            ),
    {
        let mut chance = ThreadChance::new();
        self.find_best_move_with(agent, reserved, &mut chance)
    }
}

} // verus!
