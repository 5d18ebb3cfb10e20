//! The population on its grid: the hazard, the two phases of a sub-step and
//! the tick.

use crate::game::agent::{Agent, AgentType};
use crate::game::grid::{direction_count, rectangular, step_target, Grid, Terrain};
use crate::game::occupancy::{
    arrived, coherent, ids_below, lemma_arrival_keeps_coherence, lemma_death_keeps_coherence,
    lemma_absent_not_listed, lemma_death_keeps_room, lemma_move_keeps_coherence,
    lemma_move_keeps_room, lemma_refresh_keeps_coherence, lemma_sheltered_not_listed, on_shelter,
    registered, roomy, shaped, without_agent,
};
use crate::game::chance::{Chance, ThreadChance};
use vstd::prelude::*;

pub use crate::game::policy::{
    best_candidate, candidate, cell_free, decision_allowed, fallback_ok, fallback_targets,
    has_preferred, marked, open_step, preferred_direction, rank, shelter_step,
};
pub use crate::game::tally::{
    admitted_total, capped, class_count, classes_of, lemma_class_count_bound, one_more,
    ShelterAgentCounts, StepReport,
};
pub use crate::game::world::{
    apply_move, apply_moves, budget_after, in_order, listed_in, moved_agent, set_cell, settled,
    world_of, World,
};

verus! {

/// The population on its grid, with the death tally.
pub struct Model {
    pub grid: Grid,
    /// The living agents.
    pub agents: Vec<Agent>,
    /// How many agents the hazard has killed so far.
    pub dead_agents: usize,
    /// The age class of each agent killed so far, in the order of death.
    pub dead_agent_types: Vec<AgentType>,
}

/// A move decided in the first phase of a sub-step.
#[derive(Clone, Copy, Debug)]
pub struct Move {
    /// Index of the agent in `Model::agents`.
    pub agent: usize,
    /// The cell to move to.
    pub x: u32,
    pub y: u32,
    /// Whether this is a fallback move, which costs two units of budget.
    pub fallback: bool,
}

/// The cells that `moves` lead to.
pub open spec fn targets(moves: Seq<Move>) -> Set<(int, int)> {
    Set::new(
        |c: (int, int)|
            exists|j: int| 0 <= j < moves.len() && (#[trigger] moves[j]).x == c.0 && moves[j].y == c.1,
    )
}

/// No two of `moves` lead to the same cell.
pub open spec fn distinct_targets(moves: Seq<Move>) -> bool {
    forall|i: int, j: int|
        0 <= i < j < moves.len() ==> (#[trigger] moves[i]).x != (#[trigger] moves[j]).x
            || moves[i].y != moves[j].y
}

/// No agent makes two of `moves`.
pub open spec fn distinct_movers(moves: Seq<Move>) -> bool {
    forall|i: int, j: int|
        0 <= i < j < moves.len() ==> (#[trigger] moves[i]).agent != (#[trigger] moves[j]).agent
}

/// What a round of moves may do to the agents: each keeps its identity, its
/// speed and its age class and spends budget at most; and an agent that
/// stands on a shelter cell, or has no budget left, stays as it is.
pub open spec fn advanced(before: Seq<Agent>, after: Seq<Agent>, terrain: Seq<Vec<Terrain>>) -> bool {
    &&& after.len() == before.len()
    &&& forall|i: int|
        0 <= i < before.len() ==> {
            &&& (#[trigger] after[i]).id == before[i].id
            &&& after[i].speed == before[i].speed
            &&& after[i].agent_type == before[i].agent_type
            &&& after[i].is_alive == before[i].is_alive
            &&& after[i].remaining_steps <= before[i].remaining_steps
        }
    &&& forall|i: int|
        0 <= i < before.len() && (on_shelter(terrain, #[trigger] before[i])
            || before[i].remaining_steps == 0) ==> after[i] == before[i]
}

/// How far `a` and `b` lie apart.
pub open spec fn gap(a: int, b: int) -> int {
    if a >= b {
        a - b
    } else {
        b - a
    }
}

/// The number of steps from the cell of `from` to the cell of `to`: the sum of
/// the gaps in the two coordinates, or the larger of them where diagonal
/// steps exist.
pub open spec fn walked(from: Agent, to: Agent, diagonal: bool) -> int {
    let dx = gap(from.x as int, to.x as int);
    let dy = gap(from.y as int, to.y as int);
    if !diagonal {
        dx + dy
    } else if dx >= dy {
        dx
    } else {
        dy
    }
}

/// No agent has walked farther than the budget it has spent: the steps from
/// its cell in `before` to its cell in `after` are no more than its budget
/// has fallen.
pub open spec fn within_budget(before: Seq<Agent>, after: Seq<Agent>, diagonal: bool) -> bool {
    &&& after.len() == before.len()
    &&& forall|i: int|
        0 <= i < before.len() ==> walked(before[i], #[trigger] after[i], diagonal)
            + after[i].remaining_steps <= before[i].remaining_steps
}

/// Walking within the budget twice is walking within the budget.
pub proof fn lemma_budgets_add_up(a: Seq<Agent>, b: Seq<Agent>, c: Seq<Agent>, diagonal: bool)
    requires
        within_budget(a, b, diagonal),
        within_budget(b, c, diagonal),
    ensures
        within_budget(a, c, diagonal),
{
    assert forall|i: int| 0 <= i < a.len() implies walked(a[i], #[trigger] c[i], diagonal)
        + c[i].remaining_steps <= a[i].remaining_steps by {
        assert(walked(a[i], b[i], diagonal) + b[i].remaining_steps <= a[i].remaining_steps);
        assert(walked(b[i], c[i], diagonal) + c[i].remaining_steps <= b[i].remaining_steps);
        assert(walked(a[i], c[i], diagonal) <= walked(a[i], b[i], diagonal) + walked(
            b[i],
            c[i],
            diagonal,
        ));
    }
}

/// No two agents that have changed their cell between `before` and `after`
/// stand on the same cell in `after`.
pub open spec fn apart(before: Seq<Agent>, after: Seq<Agent>) -> bool {
    forall|i: int, j: int|
        0 <= i < j < after.len() && j < before.len() && ((#[trigger] after[i]).x != before[i].x
            || after[i].y != before[i].y) && ((#[trigger] after[j]).x != before[j].x || after[j].y
            != before[j].y) ==> after[i].x != after[j].x || after[i].y != after[j].y
}

/// `after` is `before` with `moves` carried out: the mover of each move stands
/// on the target of the move, and whoever made no move is as before.
pub open spec fn carried_out(before: Seq<Agent>, after: Seq<Agent>, moves: Seq<Move>) -> bool {
    &&& after.len() == before.len()
    &&& forall|j: int|
        0 <= j < moves.len() ==> after[(#[trigger] moves[j]).agent as int].x == moves[j].x
            && after[moves[j].agent as int].y == moves[j].y
    &&& forall|i: int|
        0 <= i < before.len() && (forall|j: int|
            0 <= j < moves.len() ==> (#[trigger] moves[j]).agent != i) ==> (#[trigger] after[i])
            == before[i]
}

/// Every shelter lists in `after` what it listed in `before`, in the same
/// order, and then whoever came later.
pub open spec fn extends(
    before: Map<u32, Seq<(usize, AgentType)>>,
    after: Map<u32, Seq<(usize, AgentType)>>,
) -> bool {
    forall|shelter_id: u32| #[trigger]
        listed_in(before, shelter_id).is_prefix_of(listed_in(after, shelter_id))
}

/// The hazard frame `frame` is lethal to agent `a`: the agent stands on no
/// shelter cell, and the frame has the agent's cell, with a height above
/// zero. An agent on a shelter cell is out of the hazard's reach.
pub open spec fn exposed(frame: Seq<Vec<u32>>, terrain: Seq<Vec<Terrain>>, a: Agent) -> bool {
    &&& !on_shelter(terrain, a)
    &&& a.y < frame.len()
    &&& a.x < frame[a.y as int]@.len()
    &&& frame[a.y as int]@[a.x as int] > 0
}

/// The agents that `frame` leaves alive, in their order.
pub open spec fn survivors(
    agents: Seq<Agent>,
    frame: Seq<Vec<u32>>,
    terrain: Seq<Vec<Terrain>>,
) -> Seq<Agent> {
    agents.filter(|a: Agent| !exposed(frame, terrain, a))
}

/// The age classes of the agents from index `from` on that `frame` kills,
/// the last agent first.
pub open spec fn casualties(
    agents: Seq<Agent>,
    frame: Seq<Vec<u32>>,
    terrain: Seq<Vec<Terrain>>,
    from: int,
) -> Seq<AgentType>
    decreases agents.len() - from,
{
    if from < 0 || from >= agents.len() {
        Seq::empty()
    } else {
        let later = casualties(agents, frame, terrain, from + 1);
        if exposed(frame, terrain, agents[from]) {
            later.push(agents[from].agent_type)
        } else {
            later
        }
    }
}

/// The world after `frame` has met the agents from index `from` on, the last
/// agent first: each agent that the frame kills leaves the agents and the
/// occupant list of its cell.
pub open spec fn exposed_world(
    w: World,
    frame: Seq<Vec<u32>>,
    terrain: Seq<Vec<Terrain>>,
    from: int,
) -> World
    decreases w.agents.len() - from,
{
    if from < 0 || from >= w.agents.len() {
        w
    } else {
        let later = exposed_world(w, frame, terrain, from + 1);
        if exposed(frame, terrain, w.agents[from]) {
            without_agent(later, from)
        } else {
            later
        }
    }
}

/// The height that a hazard frame shows for a cell once lethality has been
/// applied: every height above zero becomes this marker.
pub const HAZARD_MARKER: u32 = 10;

/// Frame `after` is frame `before` with every height above zero replaced by
/// the marker.
pub open spec fn flattened(before: Seq<Vec<u32>>, after: Seq<Vec<u32>>) -> bool {
    &&& after.len() == before.len()
    &&& forall|y: int|
        0 <= y < before.len() ==> (#[trigger] after[y])@.len() == before[y]@.len()
    &&& forall|y: int, x: int|
        0 <= y < before.len() && 0 <= x < before[y]@.len() ==> (#[trigger] after[y]@[x]) == if before[y]@[x]
            != 0 {
            HAZARD_MARKER
        } else {
            0u32
        }
}

/// `order` holds each index below `n` exactly once.
pub open spec fn is_ordering(order: Seq<usize>, n: int) -> bool {
    &&& order.len() == n
    &&& order.no_duplicates()
    &&& forall|k: int| 0 <= k < order.len() ==> (#[trigger] order[k]) < n
}

/// A rearrangement of an ordering is an ordering.
pub proof fn lemma_rearranged_ordering(before: Seq<usize>, after: Seq<usize>, n: int)
    requires
        is_ordering(before, n),
        before.to_multiset() == after.to_multiset(),
    ensures
        is_ordering(after, n),
{
    broadcast use vstd::seq_lib::group_to_multiset_ensures;

    before.lemma_multiset_has_no_duplicates();
    after.lemma_multiset_has_no_duplicates_conv();
    assert(after.len() == after.to_multiset().len());
    assert(before.len() == before.to_multiset().len());
    assert forall|k: int| 0 <= k < after.len() implies (#[trigger] after[k]) < n by {
        assert(after.contains(after[k]));
        assert(after.to_multiset().count(after[k]) > 0);
        assert(before.to_multiset().count(after[k]) > 0);
        assert(before.contains(after[k]));
        let m = choose|m: int| 0 <= m < before.len() && before[m] == after[k];
        assert(before[m] < n);
    }
}

/// The indices below `n`, in rising order.
pub fn index_order(n: usize) -> (order: Vec<usize>)
    ensures
        is_ordering(order@, n as int),
        forall|k: int| 0 <= k < n ==> (#[trigger] order@[k]) == k,
{
    let mut order: Vec<usize> = Vec::new();
    let mut k: usize = 0;
    while k < n
        invariant
            k <= n,
            order@.len() == k,
            forall|m: int| 0 <= m < k ==> (#[trigger] order@[m]) == m,
        decreases n - k,
    {
        order.push(k);
        k = k + 1;
    }
    order
}

/// No sub-step leaves the model as it is.
pub proof fn lemma_no_sub_step(model: &Model)
    ensures
        model.sub_stepped_times(model, 0),
{
    assert(model.sub_stepped_through(model, 0, seq![*model]));
}

/// A sub-step after `n` sub-steps makes `n + 1` sub-steps.
pub proof fn lemma_one_more_sub_step(after: &Model, between: &Model, before: &Model, n: int)
    requires
        between.sub_stepped_times(before, n),
        after.sub_stepped(between),
    ensures
        after.sub_stepped_times(before, n + 1),
{
    let states = choose|states: Seq<Model>| #[trigger] between.sub_stepped_through(before, n, states);
    let longer = states.push(*after);
    assert forall|i: int| 0 <= i < n + 1 implies (#[trigger] longer[i + 1]).sub_stepped(&longer[i]) by {
        if i < n {
            assert(longer[i + 1] == states[i + 1] && longer[i] == states[i]);
        } else {
            assert(longer[i] == *between);
        }
    }
    assert(after.sub_stepped_through(before, n + 1, longer));
}

/// `speed` is the largest speed among `agents`, or 1 where there are none.
pub open spec fn is_top_speed(agents: Seq<Agent>, speed: int) -> bool {
    &&& agents.len() == 0 ==> speed == 1
    &&& forall|i: int| 0 <= i < agents.len() ==> (#[trigger] agents[i]).speed <= speed
    &&& agents.len() > 0 ==> exists|i: int| 0 <= i < agents.len() && (#[trigger] agents[i]).speed == speed
}

/// Agent `a` with its budget for the tick restored.
pub open spec fn refreshed(a: Agent) -> Agent {
    Agent { remaining_steps: a.speed, ..a }
}

/// A matrix of `height` rows of `width` flags, none of them set.
pub fn blank_flags(width: u32, height: u32) -> (flags: Vec<Vec<bool>>)
    ensures
        rectangular(flags@, width as int, height as int),
        marked(flags@) == Set::<(int, int)>::empty(),
{
    let mut flags: Vec<Vec<bool>> = Vec::new();
    let mut y: u32 = 0;
    while y < height
        invariant
            y <= height,
            flags@.len() == y,
            forall|r: int| 0 <= r < y ==> (#[trigger] flags@[r])@.len() == width,
            forall|r: int, c: int| 0 <= r < y && 0 <= c < width ==> !(#[trigger] flags@[r]@[c]),
        decreases height - y,
    {
        let mut row: Vec<bool> = Vec::new();
        let mut x: u32 = 0;
        while x < width
            invariant
                x <= width,
                row@.len() == x,
                forall|c: int| 0 <= c < x ==> !(#[trigger] row@[c]),
            decreases width - x,
        {
            row.push(false);
            x = x + 1;
        }
        flags.push(row);
        y = y + 1;
    }
    assert(marked(flags@) =~= Set::<(int, int)>::empty());
    flags
}

/// Whether the grid is well formed and every agent stands on it.
pub fn are_settled(grid: &Grid, agents: &Vec<Agent>) -> (ok: bool)
    ensures
        ok == settled(grid, agents@),
{
    if !grid.is_well_formed() {
        return false;
    }
    let mut i: usize = 0;
    while i < agents.len()
        invariant
            i <= agents@.len(),
            forall|k: int|
                0 <= k < i ==> grid.in_bounds((#[trigger] agents@[k]).x as int, agents@[k].y as int),
        decreases agents@.len() - i,
    {
        if agents[i].x >= grid.width || agents[i].y >= grid.height {
            return false;
        }
        i = i + 1;
    }
    true
}

/// Lets `agent` arrive on `grid`: it joins `agents` as the last one, and is
/// admitted to the shelter if its cell is one, and listed on its cell if
/// not. Where grid and agents are in order and know no identifier as large
/// as that of the agent, they stay in order.
pub fn place_agent(grid: &mut Grid, agents: &mut Vec<Agent>, agent: Agent)
    requires
        settled(old(grid), old(agents)@),
        old(grid).in_bounds(agent.x as int, agent.y as int),
    ensures
        settled(final(grid), final(agents)@),
        *final(grid) == (Grid {
            agents_in_cell: final(grid).agents_in_cell,
            shelter_agents: final(grid).shelter_agents,
            ..*old(grid)
        }),
        world_of(final(grid), final(agents)@) == arrived(
            world_of(old(grid), old(agents)@),
            old(grid).terrain@,
            agent,
        ),
        in_order(old(grid), old(agents)@) && ids_below(
            world_of(old(grid), old(agents)@),
            agent.id as int,
        ) ==> in_order(final(grid), final(agents)@) && ids_below(
            world_of(final(grid), final(agents)@),
            agent.id + 1,
        ),
{
    let ghost before = world_of(grid, agents@);
    let ghost terrain = grid.terrain@;
    proof {
        if in_order(grid, agents@) && ids_below(before, agent.id as int) {
            lemma_arrival_keeps_coherence(
                before,
                terrain,
                grid.width as int,
                grid.height as int,
                agent,
            );
        }
    }
    assert(grid.occupants(agent.x as int, agent.y as int)
        == before.occupancy[agent.y as int][agent.x as int]);
    agents.push(agent);
    match grid.terrain[agent.y as usize][agent.x as usize] {
        Terrain::Shelter(shelter_id) => {
            grid.add_to_shelter(shelter_id, agent.id, agent.agent_type);
            assert(grid.registry() =~= before.registry.insert(
                shelter_id,
                listed_in(before.registry, shelter_id).push((agent.id, agent.agent_type)),
            )) by {
                assert forall|other: u32|
                    grid.registry().contains_key(other) implies #[trigger] grid.registry()[other]
                    == before.registry.insert(
                    shelter_id,
                    listed_in(before.registry, shelter_id).push((agent.id, agent.agent_type)),
                )[other] by {
                    assert(grid.admitted(other) == if other == shelter_id {
                        old(grid).admitted(shelter_id).push((agent.id, agent.agent_type))
                    } else {
                        old(grid).admitted(other)
                    });
                }
            }
        },
        _ => {
            grid.add_agent(agent.x, agent.y, agent.id);
            assert(grid.registry() =~= before.registry);
        },
    }
    let ghost after = arrived(before, terrain, agent);
    assert(world_of(grid, agents@).agents =~= after.agents);
    assert(world_of(grid, agents@).occupancy == after.occupancy);
    assert(world_of(grid, agents@).registry == after.registry);
}

impl Model {
    /// The grid is well formed, every agent stands on it, and the death
    /// counter has room for every agent.
    pub open spec fn safe(&self) -> bool {
        &&& self.grid.wf()
        &&& forall|i: int|
            0 <= i < self.agents@.len() ==> self.grid.in_bounds(
                (#[trigger] self.agents@[i]).x as int,
                self.agents@[i].y as int,
            )
        &&& self.dead_agents + self.agents@.len() <= usize::MAX
    }

    /// Lets `agent` arrive: it joins the agents as the last one, and is
    /// admitted to the shelter if its cell is one, and listed on its cell if
    /// not. In a coherent model that knows no identifier as large as that of
    /// the agent, the arrival keeps the model coherent.
    pub fn enroll(&mut self, agent: Agent)
        requires
            old(self).safe(),
            old(self).grid.in_bounds(agent.x as int, agent.y as int),
            old(self).dead_agents + old(self).agents@.len() < usize::MAX,
        ensures
            final(self).safe(),
            final(self).same_setting(old(self)),
            final(self).world() == arrived(old(self).world(), old(self).grid.terrain@, agent),
            old(self).consistent() && ids_below(old(self).world(), agent.id as int) ==> {
                &&& final(self).consistent()
                &&& ids_below(final(self).world(), agent.id + 1)
            },
    {
        place_agent(&mut self.grid, &mut self.agents, agent);
    }

    /// Whether the model is safe to run.
    pub fn is_safe(&self) -> (ok: bool)
        ensures
            ok == self.safe(),
    {
        are_settled(&self.grid, &self.agents) && self.dead_agents <= usize::MAX - self.agents.len()
    }

    /// Whether `(x, y)` is a shelter cell.
    pub fn is_in_shelter(&self, x: u32, y: u32) -> (sheltered: bool)
        requires
            self.grid.wf(),
            self.grid.in_bounds(x as int, y as int),
        ensures
            sheltered == (self.grid.terrain_at(x as int, y as int) is Shelter),
    {
        matches!(self.grid.terrain[y as usize][x as usize], Terrain::Shelter(_))
    }

    /// The part of the model that a tick changes.
    pub open spec fn world(&self) -> World {
        World {
            agents: self.agents@,
            occupancy: self.grid.occupancy(),
            registry: self.grid.registry(),
        }
    }

    /// Everything but the occupant lists, the shelter registry and the
    /// agents is as in `before`.
    pub open spec fn same_setting(&self, before: &Model) -> bool {
        &&& self.grid == (Grid {
            agents_in_cell: self.grid.agents_in_cell,
            shelter_agents: self.grid.shelter_agents,
            ..before.grid
        })
        &&& self.dead_agents == before.dead_agents
        &&& self.dead_agent_types == before.dead_agent_types
    }

    /// Admits the agent at index `agent_id` to the shelter on `(x, y)`.
    /// Nothing happens where `(x, y)` is no shelter cell.
    pub fn enter_shelter(&mut self, agent_id: usize, x: u32, y: u32)
        requires
            old(self).grid.wf(),
            old(self).grid.in_bounds(x as int, y as int),
            agent_id < old(self).agents@.len(),
        ensures
            final(self).agents == old(self).agents,
            final(self).same_setting(old(self)),
            final(self).grid.agents_in_cell == old(self).grid.agents_in_cell,
            final(self).grid.registry() == match old(self).grid.terrain_at(x as int, y as int) {
                Terrain::Shelter(shelter_id) => old(self).grid.registry().insert(
                    shelter_id,
                    listed_in(old(self).grid.registry(), shelter_id).push(
                        (
                            old(self).agents@[agent_id as int].id,
                            old(self).agents@[agent_id as int].agent_type,
                        ),
                    ),
                ),
                _ => old(self).grid.registry(),
            },
    {
        if let Terrain::Shelter(shelter_id) = self.grid.terrain[y as usize][x as usize] {
            let id = self.agents[agent_id].id;
            let agent_type = self.agents[agent_id].agent_type;
            self.grid.add_to_shelter(shelter_id, id, agent_type);
            assert(self.grid.registry() =~= old(self).grid.registry().insert(
                shelter_id,
                listed_in(old(self).grid.registry(), shelter_id).push((id, agent_type)),
            )) by {
                assert forall|other: u32|
                    self.grid.registry().contains_key(other) implies #[trigger] self.grid.registry()[other]
                    == old(self).grid.registry().insert(
                    shelter_id,
                    listed_in(old(self).grid.registry(), shelter_id).push((id, agent_type)),
                )[other] by {
                    assert(self.grid.admitted(other) == if other == shelter_id {
                        old(self).grid.admitted(shelter_id).push((id, agent_type))
                    } else {
                        old(self).grid.admitted(other)
                    });
                }
            }
        } else {
            assert(self.grid.registry() =~= old(self).grid.registry());
        }
    }

    /// Commits one move: the agent leaves its cell, takes the new position
    /// and pays for the move, and is then admitted to the shelter or listed
    /// on the new cell.
    pub fn commit_move(&mut self, mv: Move)
        requires
            old(self).safe(),
            mv.agent < old(self).agents@.len(),
            old(self).grid.in_bounds(mv.x as int, mv.y as int),
            mv.fallback || old(self).agents@[mv.agent as int].remaining_steps >= 1,
        ensures
            final(self).safe(),
            final(self).same_setting(old(self)),
            final(self).world() == apply_move(old(self).world(), old(self).grid.terrain@, mv),
    {
        let a = self.agents[mv.agent];
        let ghost before = self.world();
        assert(self.grid.occupants(a.x as int, a.y as int) == before.occupancy[a.y as int][a.x as int]);
        self.grid.remove_agent(a.x, a.y, a.id);
        let ghost vacated = self.grid.occupancy();
        assert(self.grid.occupants(mv.x as int, mv.y as int) == vacated[mv.y as int][mv.x as int]);
        let dest = self.grid.terrain[mv.y as usize][mv.x as usize];
        let left: u32 = if mv.fallback {
            if a.remaining_steps >= 2 {
                a.remaining_steps - 2
            } else {
                0
            }
        } else {
            a.remaining_steps - 1
        };
        self.agents[mv.agent] = Agent {
            x: mv.x,
            y: mv.y,
            is_on_road: dest == Terrain::Road,
            remaining_steps: left,
            ..a
        };
        if self.is_in_shelter(mv.x, mv.y) {
            self.enter_shelter(mv.agent, mv.x, mv.y);
        } else {
            self.grid.add_agent(mv.x, mv.y, a.id);
            assert(self.grid.registry() =~= old(self).grid.registry());
        }
        let ghost after = apply_move(before, old(self).grid.terrain@, mv);
        assert(self.world().agents =~= after.agents);
        assert(self.world().occupancy == after.occupancy);
        assert(self.world().registry == after.registry);
    }

    /// Agent `i` takes part in a sub-step: it has budget left and stands on
    /// no shelter cell.
    pub open spec fn eligible(&self, i: int) -> bool {
        self.agents@[i].remaining_steps > 0 && !on_shelter(self.grid.terrain@, self.agents@[i])
    }

    /// `moves` is a possible result of the first phase of a sub-step that
    /// asks the agents in the order `order`.
    ///
    /// Each agent that takes part decides in view of the cells that the moves
    /// before its turn lead to, and its decision is one that
    /// `decision_allowed` admits; `moves` holds the decisions that are moves,
    /// in the order in which they were made.
    pub open spec fn decided(&self, order: Seq<usize>, moves: Seq<Move>) -> bool
        decreases order.len(),
    {
        if order.len() == 0 {
            moves.len() == 0
        } else {
            let i = order.last();
            let a = self.agents@[i as int];
            let earlier = order.drop_last();
            if self.eligible(i as int) {
                ||| {
                    &&& moves.len() > 0
                    &&& moves.last().agent == i
                    &&& self.decided(earlier, moves.drop_last())
                    &&& decision_allowed(
                        &self.grid,
                        targets(moves.drop_last()),
                        a.x as int,
                        a.y as int,
                        Some((moves.last().x, moves.last().y, moves.last().fallback)),
                    )
                }
                ||| {
                    &&& self.decided(earlier, moves)
                    &&& decision_allowed(&self.grid, targets(moves), a.x as int, a.y as int, None)
                }
            } else {
                self.decided(earlier, moves)
            }
        }
    }

    /// `moves` can be committed one after the other: each is made by an
    /// agent of its own that takes part in the sub-step, and leads to a cell
    /// of the grid.
    pub open spec fn committable(&self, moves: Seq<Move>) -> bool {
        &&& distinct_movers(moves)
        &&& forall|j: int|
            0 <= j < moves.len() ==> {
                &&& (#[trigger] moves[j]).agent < self.agents@.len()
                &&& self.eligible(moves[j].agent as int)
                &&& self.grid.in_bounds(moves[j].x as int, moves[j].y as int)
            }
    }

    /// No cell lists more than one agent.
    pub open spec fn roomy(&self) -> bool {
        roomy(self.grid.occupancy(), self.grid.width as int, self.grid.height as int)
    }

    /// Each of `moves` leads its mover to a cell that is open to it: a
    /// neighbour of its cell that is a shelter or lists nobody.
    pub open spec fn takes_open_steps(&self, moves: Seq<Move>) -> bool {
        forall|j: int|
            0 <= j < moves.len() ==> open_step(
                &self.grid,
                Set::empty(),
                self.agents@[(#[trigger] moves[j]).agent as int].x as int,
                self.agents@[moves[j].agent as int].y as int,
                (moves[j].x as int, moves[j].y as int),
            )
    }

    /// What a sub-step keeps in order; `self` is the model after the
    /// sub-step that started from `before`.
    ///
    /// - No agent has walked farther than the budget it has spent.
    /// - No two agents that have moved stand on the same cell.
    /// - Where no cell listed more than one agent, none does now.
    pub open spec fn orderly(&self, before: &Model) -> bool {
        &&& within_budget(before.agents@, self.agents@, before.grid.config.allow_diagonal)
        &&& apart(before.agents@, self.agents@)
        &&& before.roomy() ==> self.roomy()
    }

    /// The model is safe to run and its bookkeeping is coherent.
    pub open spec fn consistent(&self) -> bool {
        &&& self.safe()
        &&& coherent(
            self.world(),
            self.grid.terrain@,
            self.grid.width as int,
            self.grid.height as int,
        )
    }

    /// The first phase of a sub-step: asks the agents in the order `order`
    /// and reserves the target of each move, so that no later agent can
    /// choose it. Fallback targets are picked by `chance`.
    pub fn decide_moves_with<C: Chance>(&self, order: &Vec<usize>, chance: &mut C) -> (moves: Vec<
        Move,
    >)
        requires
            self.safe(),
            order@.no_duplicates(),
            forall|k: int| 0 <= k < order@.len() ==> (#[trigger] order@[k]) < self.agents@.len(),
        ensures
            self.decided(order@, moves@),
            self.committable(moves@),
            distinct_targets(moves@),
            self.takes_open_steps(moves@),
    {
        let mut reserved = blank_flags(self.grid.width, self.grid.height);
        let mut moves: Vec<Move> = Vec::new();
        let mut k: usize = 0;
        assert(order@.take(0) =~= Seq::<usize>::empty());
        assert(marked(reserved@) =~= targets(moves@));
        while k < order.len()
            invariant
                k <= order@.len(),
                self.safe(),
                order@.no_duplicates(),
                forall|m: int| 0 <= m < order@.len() ==> (#[trigger] order@[m]) < self.agents@.len(),
                rectangular(reserved@, self.grid.width as int, self.grid.height as int),
                marked(reserved@) == targets(moves@),
                self.decided(order@.take(k as int), moves@),
                self.committable(moves@),
                distinct_targets(moves@),
                self.takes_open_steps(moves@),
                forall|j: int|
                    0 <= j < moves@.len() ==> exists|m: int|
                        0 <= m < k && order@[m] == (#[trigger] moves@[j]).agent,
            decreases order@.len() - k,
        {
            let i = order[k];
            let agent = self.agents[i];
            let ghost before = moves@;
            let ghost asked = order@.take(k as int);
            let ghost asking = order@.take(k as int + 1);
            assert(asking.last() == i && asking.drop_last() =~= asked);
            if agent.remaining_steps > 0 && !self.is_in_shelter(agent.x, agent.y) {
                assert(self.eligible(i as int));
                let outcome = self.find_best_move_with(&agent, &reserved, chance);
                match outcome {
                    Some((nx, ny, fallback)) => {
                        let mv = Move { agent: i, x: nx, y: ny, fallback };
                        let ghost flags = reserved@;
                        reserved[ny as usize][nx as usize] = true;
                        moves.push(mv);
                        assert(moves@.last() == mv && moves@.drop_last() =~= before);
                        assert(self.takes_open_steps(moves@)) by {
                            assert forall|j: int| 0 <= j < moves@.len() implies open_step(
                                &self.grid,
                                Set::empty(),
                                self.agents@[(#[trigger] moves@[j]).agent as int].x as int,
                                self.agents@[moves@[j].agent as int].y as int,
                                (moves@[j].x as int, moves@[j].y as int),
                            ) by {
                                if j < before.len() {
                                    assert(moves@[j] == before[j]);
                                } else {
                                    assert(open_step(
                                        &self.grid,
                                        marked(flags),
                                        agent.x as int,
                                        agent.y as int,
                                        (nx as int, ny as int),
                                    ));
                                }
                            }
                        }
                        assert(marked(reserved@) =~= targets(moves@)) by {
                            assert forall|c: (int, int)| targets(moves@).contains(c) implies marked(
                                reserved@,
                            ).contains(c) by {
                                let j = choose|j: int|
                                    0 <= j < moves@.len() && (#[trigger] moves@[j]).x == c.0
                                        && moves@[j].y == c.1;
                                if j < before.len() {
                                    assert(before[j].x == c.0 && before[j].y == c.1);
                                    assert(targets(before).contains(c));
                                    assert(marked(flags).contains(c));
                                }
                            }
                            assert forall|c: (int, int)| marked(reserved@).contains(c) implies targets(
                                moves@,
                            ).contains(c) by {
                                if c == (nx as int, ny as int) {
                                    assert(moves@[before.len() as int].x == c.0);
                                } else {
                                    assert(marked(flags).contains(c));
                                    assert(targets(before).contains(c));
                                    let j = choose|j: int|
                                        0 <= j < before.len() && (#[trigger] before[j]).x == c.0
                                            && before[j].y == c.1;
                                    assert(moves@[j] == before[j]);
                                }
                            }
                        }
                        assert(self.decided(asking, moves@));
                        assert(distinct_targets(moves@)) by {
                            assert forall|p: int, q: int| 0 <= p < q < moves@.len() implies (
                            #[trigger] moves@[p]).x != (#[trigger] moves@[q]).x || moves@[p].y
                                != moves@[q].y by {
                                if q == before.len() {
                                    assert(moves@[p] == before[p]);
                                    if before[p].x == nx && before[p].y == ny {
                                        assert(targets(before).contains((nx as int, ny as int)));
                                    }
                                }
                            }
                        }
                        assert(distinct_movers(moves@)) by {
                            assert forall|p: int, q: int| 0 <= p < q < moves@.len() implies (
                            #[trigger] moves@[p]).agent != (#[trigger] moves@[q]).agent by {
                                if q == before.len() {
                                    assert(moves@[p] == before[p]);
                                    let m = choose|m: int| 0 <= m < k && order@[m] == before[p].agent;
                                    assert(order@[m] != order@[k as int]);
                                }
                            }
                        }
                        assert forall|j: int| 0 <= j < moves@.len() implies exists|m: int|
                            0 <= m < k + 1 && order@[m] == (#[trigger] moves@[j]).agent by {
                            if j < before.len() {
                                assert(moves@[j] == before[j]);
                                let m = choose|m: int| 0 <= m < k && order@[m] == before[j].agent;
                                assert(order@[m] == moves@[j].agent);
                            } else {
                                assert(order@[k as int] == moves@[j].agent);
                            }
                        }
                    },
                    None => {
                        assert(self.decided(asking, moves@));
                    },
                }
            } else {
                assert(!self.eligible(i as int));
                assert(self.decided(asking, moves@));
            }
            k = k + 1;
        }
        assert(order@.take(k as int) =~= order@);
        moves
    }

    /// The first phase of a sub-step, as `decide_moves_with` runs it, with
    /// fallback targets picked by the generator of the running thread.
    pub fn decide_moves(&self, order: &Vec<usize>) -> (moves: Vec<Move>)
        requires
            self.safe(),
            order@.no_duplicates(),
            forall|k: int| 0 <= k < order@.len() ==> (#[trigger] order@[k]) < self.agents@.len(),
        ensures
            self.decided(order@, moves@),
            self.committable(moves@),
            distinct_targets(moves@),
            self.takes_open_steps(moves@),
    {
        let mut chance = ThreadChance::new();
        self.decide_moves_with(order, &mut chance)
    }

    /// The second phase of a sub-step: commits `moves` one after the other.
    pub fn commit_moves(&mut self, moves: &Vec<Move>)
        requires
            old(self).safe(),
            old(self).committable(moves@),
        ensures
            final(self).safe(),
            final(self).same_setting(old(self)),
            final(self).world() == apply_moves(old(self).world(), old(self).grid.terrain@, moves@),
            advanced(old(self).agents@, final(self).agents@, old(self).grid.terrain@),
            extends(old(self).grid.registry(), final(self).grid.registry()),
            old(self).consistent() ==> final(self).consistent(),
            moves@.len() == 0 ==> final(self).world() == old(self).world(),
            carried_out(old(self).agents@, final(self).agents@, moves@),
            old(self).takes_open_steps(moves@) ==> within_budget(
                old(self).agents@,
                final(self).agents@,
                old(self).grid.config.allow_diagonal,
            ),
            old(self).takes_open_steps(moves@) && distinct_targets(moves@) && old(self).roomy()
                ==> final(self).roomy(),
    {
        let ghost terrain = self.grid.terrain@;
        let ghost start = self.world();
        let ghost diagonal = self.grid.config.allow_diagonal;
        let ghost tidy = self.takes_open_steps(moves@) && distinct_targets(moves@) && self.roomy();
        let mut j: usize = 0;
        proof {
            assert forall|m: int| 0 <= m < moves@.len() && tidy implies terrain[(
            #[trigger] moves@[m]).y as int]@[moves@[m].x as int] is Shelter
                || self.world().occupancy[moves@[m].y as int][moves@[m].x as int].len() == 0 by {
                assert(self.grid.occupants(moves@[m].x as int, moves@[m].y as int)
                    == self.world().occupancy[moves@[m].y as int][moves@[m].x as int]);
            }
        }
        assert(moves@.take(0) =~= Seq::<Move>::empty());
        assert forall|shelter_id: u32| #[trigger]
            listed_in(start.registry, shelter_id).is_prefix_of(
                listed_in(self.grid.registry(), shelter_id),
            ) by {}
        while j < moves.len()
            invariant
                j <= moves@.len(),
                self.safe(),
                self.same_setting(old(self)),
                terrain == old(self).grid.terrain@,
                start == old(self).world(),
                old(self).safe(),
                old(self).committable(moves@),
                self.world() == apply_moves(start, terrain, moves@.take(j as int)),
                advanced(start.agents, self.agents@, terrain),
                extends(start.registry, self.grid.registry()),
                old(self).consistent() ==> self.consistent(),
                forall|m: int|
                    j <= m < moves@.len() ==> self.agents@[(#[trigger] moves@[m]).agent as int]
                        == start.agents[moves@[m].agent as int],
                diagonal == old(self).grid.config.allow_diagonal,
                tidy == (old(self).takes_open_steps(moves@) && distinct_targets(moves@) && old(
                    self,
                ).roomy()),
                self.agents@.len() == start.agents.len(),
                forall|m: int|
                    0 <= m < j ==> self.agents@[(#[trigger] moves@[m]).agent as int].x == moves@[m].x
                        && self.agents@[moves@[m].agent as int].y == moves@[m].y,
                forall|i: int|
                    0 <= i < start.agents.len() && (forall|m: int|
                        0 <= m < j ==> (#[trigger] moves@[m]).agent != i) ==> (
                    #[trigger] self.agents@[i]) == start.agents[i],
                old(self).takes_open_steps(moves@) ==> within_budget(
                    start.agents,
                    self.agents@,
                    diagonal,
                ),
                tidy ==> roomy(
                    self.world().occupancy,
                    self.grid.width as int,
                    self.grid.height as int,
                ),
                forall|m: int|
                    j <= m < moves@.len() && tidy ==> terrain[(#[trigger] moves@[m]).y as int]@[moves@[m].x as int] is Shelter
                        || self.world().occupancy[moves@[m].y as int][moves@[m].x as int].len()
                        == 0,
            decreases moves@.len() - j,
        {
            let mv = moves[j];
            let ghost w = self.world();
            let ghost a = self.agents@[mv.agent as int];
            assert(a == start.agents[mv.agent as int]);
            assert(old(self).eligible(mv.agent as int));
            let ghost before = self.agents@;
            proof {
                if old(self).consistent() {
                    lemma_move_keeps_coherence(
                        w,
                        terrain,
                        self.grid.width as int,
                        self.grid.height as int,
                        mv,
                    );
                }
                if tidy {
                    lemma_move_keeps_room(
                        w,
                        terrain,
                        self.grid.width as int,
                        self.grid.height as int,
                        mv,
                    );
                }
            }
            self.commit_move(mv);
            assert(moves@.take(j as int + 1).drop_last() =~= moves@.take(j as int));
            assert(moves@.take(j as int + 1).last() == mv);
            proof {
                let moved = self.agents@[mv.agent as int];
                assert(moved == moved_agent(a, mv, terrain[mv.y as int]@[mv.x as int]));
                assert forall|i: int| 0 <= i < before.len() && i != mv.agent implies (
                #[trigger] self.agents@[i]) == before[i] by {}
                if old(self).takes_open_steps(moves@) {
                    assert(open_step(
                        &old(self).grid,
                        Set::empty(),
                        a.x as int,
                        a.y as int,
                        (mv.x as int, mv.y as int),
                    ));
                    let k = choose|k: int|
                        0 <= k < direction_count(diagonal) && #[trigger] step_target(
                            a.x as int,
                            a.y as int,
                            k,
                        ) == (mv.x as int, mv.y as int);
                    assert(walked(a, moved, diagonal) <= 1);
                    assert(a.remaining_steps >= 1);
                    assert forall|i: int| 0 <= i < start.agents.len() implies walked(
                        start.agents[i],
                        #[trigger] self.agents@[i],
                        diagonal,
                    ) + self.agents@[i].remaining_steps <= start.agents[i].remaining_steps by {
                        if i != mv.agent {
                            assert(self.agents@[i] == before[i]);
                        }
                    }
                }
                assert forall|m: int|
                    j + 1 <= m < moves@.len() && tidy implies terrain[(#[trigger] moves@[m]).y as int]@[moves@[m].x as int] is Shelter
                    || self.world().occupancy[moves@[m].y as int][moves@[m].x as int].len() == 0 by {
                    assert(moves@[j as int].x != moves@[m].x || moves@[j as int].y != moves@[m].y);
                    assert(old(self).grid.in_bounds(moves@[m].x as int, moves@[m].y as int));
                }
                assert forall|i: int|
                    0 <= i < start.agents.len() && (forall|m: int|
                        0 <= m < j + 1 ==> (#[trigger] moves@[m]).agent != i) implies (
                #[trigger] self.agents@[i]) == start.agents[i] by {
                    assert(moves@[j as int].agent != i);
                    assert(self.agents@[i] == before[i]);
                }
                assert forall|m: int| 0 <= m < j + 1 implies self.agents@[(
                #[trigger] moves@[m]).agent as int].x == moves@[m].x
                    && self.agents@[moves@[m].agent as int].y == moves@[m].y by {
                    if m < j {
                        assert(moves@[m].agent != moves@[j as int].agent);
                        assert(self.agents@[moves@[m].agent as int] == before[moves@[m].agent as int]);
                    }
                }
            }
            assert(self.agents@ == w.agents.update(
                mv.agent as int,
                moved_agent(a, mv, terrain[mv.y as int]@[mv.x as int]),
            ));
            assert forall|m: int| j + 1 <= m < moves@.len() implies self.agents@[(
            #[trigger] moves@[m]).agent as int] == start.agents[moves@[m].agent as int] by {
                assert(moves@[m].agent != moves@[j as int].agent);
            }
            assert forall|shelter_id: u32| #[trigger]
                listed_in(start.registry, shelter_id).is_prefix_of(
                    listed_in(self.grid.registry(), shelter_id),
                ) by {
                assert(listed_in(start.registry, shelter_id).is_prefix_of(
                    listed_in(w.registry, shelter_id),
                ));
                assert(listed_in(w.registry, shelter_id).is_prefix_of(
                    listed_in(self.grid.registry(), shelter_id),
                ));
            }
            j = j + 1;
        }
        assert(moves@.take(j as int) =~= moves@);
    }

    /// One sub-step: every agent that has budget left and stands on no
    /// shelter decides, in the order `order`; then the moves are committed.
    /// `order` holds indices into `agents`, none of them twice; fallback
    /// targets are picked by `chance`.
    pub fn sub_step_with<C: Chance>(&mut self, order: &Vec<usize>, chance: &mut C)
        requires
            old(self).safe(),
            order@.no_duplicates(),
            forall|k: int| 0 <= k < order@.len() ==> (#[trigger] order@[k]) < old(self).agents@.len(),
        ensures
            final(self).safe(),
            final(self).same_setting(old(self)),
            exists|moves: Seq<Move>|
                {
                    &&& #[trigger] old(self).decided(order@, moves)
                    &&& distinct_targets(moves)
                    &&& final(self).world() == apply_moves(
                        old(self).world(),
                        old(self).grid.terrain@,
                        moves,
                    )
                },
            advanced(old(self).agents@, final(self).agents@, old(self).grid.terrain@),
            extends(old(self).grid.registry(), final(self).grid.registry()),
            old(self).consistent() ==> final(self).consistent(),
            (forall|i: int| 0 <= i < old(self).agents@.len() ==> !old(self).eligible(i))
                ==> final(self).world() == old(self).world(),
            final(self).orderly(old(self)),
    {
        let moves = self.decide_moves_with(order, chance);
        proof {
            if forall|i: int| 0 <= i < self.agents@.len() ==> !self.eligible(i) {
                if moves@.len() > 0 {
                    assert(self.eligible(moves@[0].agent as int));
                }
            }
        }
        self.commit_moves(&moves);
        proof {
            assert(apart(old(self).agents@, self.agents@)) by {
                assert forall|i: int, j: int|
                    0 <= i < j < self.agents@.len() && ((#[trigger] self.agents@[i]).x != old(
                        self,
                    ).agents@[i].x || self.agents@[i].y != old(self).agents@[i].y) && ((
                    #[trigger] self.agents@[j]).x != old(self).agents@[j].x || self.agents@[j].y
                        != old(self).agents@[j].y) implies self.agents@[i].x != self.agents@[j].x
                    || self.agents@[i].y != self.agents@[j].y by {
                    let m = choose|m: int| 0 <= m < moves@.len() && (#[trigger] moves@[m]).agent == i;
                    let n = choose|n: int| 0 <= n < moves@.len() && (#[trigger] moves@[n]).agent == j;
                    assert(m != n);
                    if m < n {
                        assert(moves@[m].x != moves@[n].x || moves@[m].y != moves@[n].y);
                    } else {
                        assert(moves@[n].x != moves@[m].x || moves@[n].y != moves@[m].y);
                    }
                }
            }
        }
    }

    /// One sub-step, as `sub_step_with` runs it, with fallback targets picked
    /// by the generator of the running thread.
    pub fn sub_step(&mut self, order: &Vec<usize>)
        requires
            old(self).safe(),
            order@.no_duplicates(),
            forall|k: int| 0 <= k < order@.len() ==> (#[trigger] order@[k]) < old(self).agents@.len(),
        ensures
            final(self).safe(),
            final(self).same_setting(old(self)),
            exists|moves: Seq<Move>|
                {
                    &&& #[trigger] old(self).decided(order@, moves)
                    &&& distinct_targets(moves)
                    &&& final(self).world() == apply_moves(
                        old(self).world(),
                        old(self).grid.terrain@,
                        moves,
                    )
                },
            advanced(old(self).agents@, final(self).agents@, old(self).grid.terrain@),
            extends(old(self).grid.registry(), final(self).grid.registry()),
            old(self).consistent() ==> final(self).consistent(),
            (forall|i: int| 0 <= i < old(self).agents@.len() ==> !old(self).eligible(i))
                ==> final(self).world() == old(self).world(),
            final(self).orderly(old(self)),
    {
        let mut chance = ThreadChance::new();
        self.sub_step_with(order, &mut chance);
    }

    /// Applies hazard frame `tsunami_number` to the agents, the last agent
    /// first: an agent that stands on no shelter cell and whose cell shows a
    /// height above zero dies. It leaves the agents and its cell, and its age
    /// class joins the death tally. An agent on a shelter cell is passed
    /// over. Returns the number of deaths.
    pub fn apply_lethality(&mut self, tsunami_number: usize) -> (deaths: usize)
        requires
            old(self).safe(),
            tsunami_number < old(self).grid.tsunami_data@.len(),
        ensures
            final(self).safe(),
            final(self).grid == (Grid {
                agents_in_cell: final(self).grid.agents_in_cell,
                ..old(self).grid
            }),
            final(self).agents@ == survivors(
                old(self).agents@,
                old(self).grid.tsunami_data@[tsunami_number as int]@,
                old(self).grid.terrain@,
            ),
            final(self).world() == exposed_world(
                old(self).world(),
                old(self).grid.tsunami_data@[tsunami_number as int]@,
                old(self).grid.terrain@,
                0,
            ),
            final(self).dead_agent_types@ == old(self).dead_agent_types@ + casualties(
                old(self).agents@,
                old(self).grid.tsunami_data@[tsunami_number as int]@,
                old(self).grid.terrain@,
                0,
            ),
            deaths == old(self).agents@.len() - final(self).agents@.len(),
            final(self).dead_agent_types@.len() == old(self).dead_agent_types@.len() + deaths,
            final(self).dead_agents == old(self).dead_agents + deaths,
            old(self).consistent() ==> final(self).consistent(),
            old(self).roomy() ==> final(self).roomy(),
    {
        let ghost start = self.world();
        let ghost frame = self.grid.tsunami_data@[tsunami_number as int]@;
        let ghost terrain = self.grid.terrain@;
        let ghost alive = |a: Agent| !exposed(frame, terrain, a);
        let n = self.agents.len();
        let mut deaths: usize = 0;
        let mut i: usize = n;
        assert(start.agents.skip(n as int) =~= Seq::<Agent>::empty());
        assert(Seq::<Agent>::empty().filter(alive) =~= Seq::<Agent>::empty()) by {
            reveal(Seq::filter);
        }
        assert(self.agents@ =~= start.agents.take(n as int) + start.agents.skip(n as int).filter(
            alive,
        ));
        while i > 0
            invariant
                i <= n,
                n == start.agents.len(),
                start == old(self).world(),
                old(self).safe(),
                tsunami_number < old(self).grid.tsunami_data@.len(),
                frame == old(self).grid.tsunami_data@[tsunami_number as int]@,
                terrain == old(self).grid.terrain@,
                alive == |a: Agent| !exposed(frame, terrain, a),
                self.grid.wf(),
                self.grid == (Grid { agents_in_cell: self.grid.agents_in_cell, ..old(self).grid }),
                self.dead_agents == old(self).dead_agents,
                self.agents@ == start.agents.take(i as int) + start.agents.skip(i as int).filter(
                    alive,
                ),
                self.world() == exposed_world(start, frame, terrain, i as int),
                self.dead_agent_types@ == old(self).dead_agent_types@ + casualties(
                    start.agents,
                    frame,
                    terrain,
                    i as int,
                ),
                deaths == casualties(start.agents, frame, terrain, i as int).len(),
                deaths + self.agents@.len() == n,
                shaped(
                    self.world(),
                    self.grid.terrain@,
                    self.grid.width as int,
                    self.grid.height as int,
                ),
                old(self).consistent() ==> coherent(
                    self.world(),
                    self.grid.terrain@,
                    self.grid.width as int,
                    self.grid.height as int,
                ),
                old(self).roomy() ==> self.roomy(),
            decreases i,
        {
            i = i - 1;
            let a = self.agents[i];
            let ghost w = self.world();
            assert(a == start.agents[i as int]);
            assert(start.agents.take(i as int + 1) =~= start.agents.take(i as int).push(a));
            assert(start.agents.skip(i as int) =~= seq![a] + start.agents.skip(i as int + 1));
            proof {
                start.agents.skip(i as int + 1).lemma_filter_prepend(a, alive);
            }
            let mut hit = false;
            if !self.is_in_shelter(a.x, a.y) {
                if (a.y as usize) < self.grid.tsunami_data[tsunami_number].len() {
                    if (a.x as usize) < self.grid.tsunami_data[tsunami_number][a.y as usize].len() {
                        hit = self.grid.tsunami_data[tsunami_number][a.y as usize][a.x as usize]
                            > 0;
                    }
                }
            }
            assert(hit == exposed(frame, terrain, a));
            if hit {
                deaths = deaths + 1;
                proof {
                    if old(self).consistent() {
                        lemma_death_keeps_coherence(
                            w,
                            self.grid.terrain@,
                            self.grid.width as int,
                            self.grid.height as int,
                            i as int,
                        );
                    }
                    if old(self).roomy() {
                        lemma_death_keeps_room(
                            w,
                            self.grid.terrain@,
                            self.grid.width as int,
                            self.grid.height as int,
                            i as int,
                        );
                    }
                }
                assert(self.grid.occupants(a.x as int, a.y as int) == w.occupancy[a.y as int][a.x as int]);
                self.grid.remove_agent(a.x, a.y, a.id);
                self.dead_agent_types.push(a.agent_type);
                self.agents.remove(i);
                assert(self.grid.registry() =~= w.registry);
                assert(self.world() == without_agent(w, i as int));
                assert(self.agents@ =~= start.agents.take(i as int) + start.agents.skip(
                    i as int,
                ).filter(alive));
                assert(self.dead_agent_types@ =~= old(self).dead_agent_types@ + casualties(
                    start.agents,
                    frame,
                    terrain,
                    i as int,
                ));
            } else {
                assert(self.agents@ =~= start.agents.take(i as int) + start.agents.skip(
                    i as int,
                ).filter(alive));
            }
        }
        assert(start.agents.take(0) =~= Seq::<Agent>::empty());
        assert(start.agents.skip(0) =~= start.agents);
        assert(self.agents@ =~= start.agents.filter(alive));
        self.dead_agents = self.dead_agents + deaths;
        deaths
    }

    /// Replaces every height above zero in hazard frame `tsunami_number` by
    /// the marker. The other frames stay as they are.
    pub fn flatten_frame(&mut self, tsunami_number: usize)
        requires
            tsunami_number < old(self).grid.tsunami_data@.len(),
        ensures
            final(self).agents == old(self).agents,
            final(self).dead_agents == old(self).dead_agents,
            final(self).dead_agent_types == old(self).dead_agent_types,
            final(self).grid == (Grid {
                tsunami_data: final(self).grid.tsunami_data,
                ..old(self).grid
            }),
            final(self).grid.tsunami_data@.len() == old(self).grid.tsunami_data@.len(),
            forall|f: int|
                0 <= f < old(self).grid.tsunami_data@.len() && f != tsunami_number ==> (
                #[trigger] final(self).grid.tsunami_data@[f]) == old(self).grid.tsunami_data@[f],
            flattened(
                old(self).grid.tsunami_data@[tsunami_number as int]@,
                final(self).grid.tsunami_data@[tsunami_number as int]@,
            ),
    {
        let ghost before = self.grid.tsunami_data@[tsunami_number as int]@;
        let rows = self.grid.tsunami_data[tsunami_number].len();
        let mut y: usize = 0;
        while y < rows
            invariant
                y <= rows,
                rows == before.len(),
                tsunami_number < old(self).grid.tsunami_data@.len(),
                before == old(self).grid.tsunami_data@[tsunami_number as int]@,
                self.agents == old(self).agents,
                self.dead_agents == old(self).dead_agents,
                self.dead_agent_types == old(self).dead_agent_types,
                self.grid == (Grid { tsunami_data: self.grid.tsunami_data, ..old(self).grid }),
                self.grid.tsunami_data@.len() == old(self).grid.tsunami_data@.len(),
                forall|f: int|
                    0 <= f < old(self).grid.tsunami_data@.len() && f != tsunami_number ==> (
                    #[trigger] self.grid.tsunami_data@[f]) == old(self).grid.tsunami_data@[f],
                self.grid.tsunami_data@[tsunami_number as int]@.len() == rows,
                forall|r: int|
                    0 <= r < rows ==> (#[trigger] self.grid.tsunami_data@[tsunami_number as int]@[r])@.len()
                        == before[r]@.len(),
                forall|r: int, c: int|
                    0 <= r < y && 0 <= c < before[r]@.len() ==> (
                    #[trigger] self.grid.tsunami_data@[tsunami_number as int]@[r]@[c]) == if before[r]@[c]
                        != 0 {
                        HAZARD_MARKER
                    } else {
                        0u32
                    },
                forall|r: int|
                    y <= r < rows ==> (#[trigger] self.grid.tsunami_data@[tsunami_number as int]@[r])
                        == before[r],
            decreases rows - y,
        {
            let cols = self.grid.tsunami_data[tsunami_number][y].len();
            let mut x: usize = 0;
            while x < cols
                invariant
                    x <= cols,
                    y < rows,
                    rows == before.len(),
                    cols == before[y as int]@.len(),
                    tsunami_number < old(self).grid.tsunami_data@.len(),
                    before == old(self).grid.tsunami_data@[tsunami_number as int]@,
                    self.agents == old(self).agents,
                    self.dead_agents == old(self).dead_agents,
                    self.dead_agent_types == old(self).dead_agent_types,
                    self.grid == (Grid { tsunami_data: self.grid.tsunami_data, ..old(self).grid }),
                    self.grid.tsunami_data@.len() == old(self).grid.tsunami_data@.len(),
                    forall|f: int|
                        0 <= f < old(self).grid.tsunami_data@.len() && f != tsunami_number ==> (
                        #[trigger] self.grid.tsunami_data@[f]) == old(self).grid.tsunami_data@[f],
                    self.grid.tsunami_data@[tsunami_number as int]@.len() == rows,
                    forall|r: int|
                        0 <= r < rows ==> (
                        #[trigger] self.grid.tsunami_data@[tsunami_number as int]@[r])@.len()
                            == before[r]@.len(),
                    forall|r: int, c: int|
                        0 <= r < y && 0 <= c < before[r]@.len() ==> (
                        #[trigger] self.grid.tsunami_data@[tsunami_number as int]@[r]@[c])
                            == if before[r]@[c] != 0 {
                            HAZARD_MARKER
                        } else {
                            0u32
                        },
                    forall|c: int|
                        0 <= c < x ==> (
                        #[trigger] self.grid.tsunami_data@[tsunami_number as int]@[y as int]@[c])
                            == if before[y as int]@[c] != 0 {
                            HAZARD_MARKER
                        } else {
                            0u32
                        },
                    forall|c: int|
                        x <= c < cols ==> (
                        #[trigger] self.grid.tsunami_data@[tsunami_number as int]@[y as int]@[c])
                            == before[y as int]@[c],
                    forall|r: int|
                        y < r < rows ==> (#[trigger] self.grid.tsunami_data@[tsunami_number as int]@[r])
                            == before[r],
                decreases cols - x,
            {
                if self.grid.tsunami_data[tsunami_number][y][x] != 0 {
                    self.grid.tsunami_data[tsunami_number][y][x] = HAZARD_MARKER;
                }
                x = x + 1;
            }
            y = y + 1;
        }
    }

    /// Gives every agent its full budget for the tick.
    pub fn reset_budgets(&mut self)
        ensures
            final(self).grid == old(self).grid,
            final(self).dead_agents == old(self).dead_agents,
            final(self).dead_agent_types == old(self).dead_agent_types,
            final(self).agents@ == old(self).agents@.map_values(|a: Agent| refreshed(a)),
    {
        let n = self.agents.len();
        let mut i: usize = 0;
        while i < n
            invariant
                i <= n,
                n == old(self).agents@.len(),
                self.agents@.len() == n,
                self.grid == old(self).grid,
                self.dead_agents == old(self).dead_agents,
                self.dead_agent_types == old(self).dead_agent_types,
                forall|k: int| 0 <= k < i ==> (#[trigger] self.agents@[k]) == refreshed(old(self).agents@[k]),
                forall|k: int| i <= k < n ==> (#[trigger] self.agents@[k]) == old(self).agents@[k],
            decreases n - i,
        {
            let speed = self.agents[i].speed;
            self.agents[i].remaining_steps = speed;
            i = i + 1;
        }
        assert(self.agents@ =~= old(self).agents@.map_values(|a: Agent| refreshed(a)));
    }

    /// The largest speed among the agents, which bounds the number of
    /// sub-steps in a tick; 1 where there are no agents.
    pub fn max_speed(&self) -> (speed: u32)
        ensures
            is_top_speed(self.agents@, speed as int),
    {
        if self.agents.len() == 0 {
            return 1;
        }
        let mut speed: u32 = self.agents[0].speed;
        let mut i: usize = 1;
        while i < self.agents.len()
            invariant
                1 <= i <= self.agents@.len(),
                forall|k: int| 0 <= k < i ==> (#[trigger] self.agents@[k]).speed <= speed,
                exists|k: int| 0 <= k < i && (#[trigger] self.agents@[k]).speed == speed,
            decreases self.agents@.len() - i,
        {
            if self.agents[i].speed > speed {
                speed = self.agents[i].speed;
            }
            i = i + 1;
        }
        speed
    }

    /// The agents that are alive once the hazard of this tick has struck:
    /// all of them with the hazard inactive, and else all but those that stand
    /// in water off the shelters.
    pub open spec fn after_hazard(&self, is_tsunami: bool, tsunami_number: usize) -> Seq<Agent> {
        if is_tsunami {
            survivors(
                self.agents@,
                self.grid.tsunami_data@[tsunami_number as int]@,
                self.grid.terrain@,
            )
        } else {
            self.agents@
        }
    }

    /// `self` comes from `before` by one sub-step: for some order of the
    /// agents and some moves that the first phase may decide in that order,
    /// no two of them to the same cell, it is `before` with the moves
    /// committed; and the sub-step has kept order.
    pub open spec fn sub_stepped(&self, before: &Model) -> bool {
        &&& self.same_setting(before)
        &&& self.orderly(before)
        &&& exists|order: Seq<usize>, moves: Seq<Move>|
            {
                &&& is_ordering(order, before.agents@.len() as int)
                &&& #[trigger] before.decided(order, moves)
                &&& distinct_targets(moves)
                &&& self.world() == apply_moves(before.world(), before.grid.terrain@, moves)
            }
    }

    /// `self` comes from `before` by `n` sub-steps: `states` holds the model
    /// before the first sub-step and after each.
    pub open spec fn sub_stepped_through(&self, before: &Model, n: int, states: Seq<Model>) -> bool {
        &&& n >= 0
        &&& states.len() == n + 1
        &&& states[0] == *before
        &&& states[n] == *self
        &&& forall|i: int| 0 <= i < n ==> (#[trigger] states[i + 1]).sub_stepped(&states[i])
    }

    /// `self` comes from `before` by `n` sub-steps.
    pub open spec fn sub_stepped_times(&self, before: &Model, n: int) -> bool {
        exists|states: Seq<Model>| #[trigger] self.sub_stepped_through(before, n, states)
    }

    /// `self` is `before` made ready for the sub-steps of a tick: the hazard,
    /// if active, has struck and its frame is flattened, and every agent has
    /// its budget back.
    pub open spec fn made_ready(&self, before: &Model, is_tsunami: bool, tsunami_number: usize) -> bool {
        &&& self.grid == (Grid {
            agents_in_cell: self.grid.agents_in_cell,
            tsunami_data: self.grid.tsunami_data,
            ..before.grid
        })
        &&& self.agents@ == before.after_hazard(is_tsunami, tsunami_number).map_values(
            |a: Agent| refreshed(a),
        )
        &&& self.dead_agents == before.dead_agents + before.agents@.len() - self.agents@.len()
        &&& if is_tsunami {
            let frame = before.grid.tsunami_data@[tsunami_number as int]@;
            &&& self.grid.occupancy() == exposed_world(
                before.world(),
                frame,
                before.grid.terrain@,
                0,
            ).occupancy
            &&& self.dead_agent_types@ == before.dead_agent_types@ + before.dying(
                is_tsunami,
                tsunami_number,
            )
            &&& self.grid.tsunami_data@.len() == before.grid.tsunami_data@.len()
            &&& flattened(frame, self.grid.tsunami_data@[tsunami_number as int]@)
            &&& forall|f: int|
                0 <= f < before.grid.tsunami_data@.len() && f != tsunami_number ==> (
                #[trigger] self.grid.tsunami_data@[f]) == before.grid.tsunami_data@[f]
        } else {
            &&& self.grid.occupancy() == before.grid.occupancy()
            &&& self.dead_agent_types == before.dead_agent_types
            &&& self.grid.tsunami_data == before.grid.tsunami_data
        }
    }

    /// The age classes of the agents that die in a tick, in the order in
    /// which they join the tally.
    pub open spec fn dying(&self, is_tsunami: bool, tsunami_number: usize) -> Seq<AgentType> {
        if is_tsunami {
            casualties(
                self.agents@,
                self.grid.tsunami_data@[tsunami_number as int]@,
                self.grid.terrain@,
                0,
            )
        } else {
            Seq::empty()
        }
    }

    /// What a tick does; `self` is the model after the tick that started
    /// from `before`.
    ///
    /// The model is made ready, and then as many sub-steps run as the
    /// fastest agent has speed. Whatever the orders and the fallback choices
    /// of the sub-steps were, it follows that
    /// - a coherent model stays coherent;
    /// - terrain, distance fields and configuration are untouched, the death
    ///   counter and the tally have grown by those who died, and the frame
    ///   of an active hazard is flattened;
    /// - the agents are those that the hazard left, in their order; each
    ///   keeps its identity, speed and age class; an agent on a shelter cell
    ///   has not moved; none has spent more than its speed, and none has
    ///   walked farther than what it has spent;
    /// - every shelter lists what it listed before and then the newcomers;
    /// - where no cell listed more than one agent, none does now;
    /// - with the hazard inactive and every agent on a shelter cell, nothing
    ///   but the budgets has changed.
    pub open spec fn ticked(&self, before: &Model, is_tsunami: bool, tsunami_number: usize) -> bool {
        &&& exists|ready: Model, rounds: int|
            {
                &&& #[trigger] ready.made_ready(before, is_tsunami, tsunami_number)
                &&& is_top_speed(ready.agents@, rounds)
                &&& #[trigger] self.sub_stepped_times(&ready, rounds)
            }
        &&& before.consistent() ==> self.consistent()
        &&& self.grid == (Grid {
            agents_in_cell: self.grid.agents_in_cell,
            shelter_agents: self.grid.shelter_agents,
            tsunami_data: self.grid.tsunami_data,
            ..before.grid
        })
        &&& self.dead_agents == before.dead_agents + before.agents@.len() - self.agents@.len()
        &&& self.dead_agent_types@ == before.dead_agent_types@ + before.dying(
            is_tsunami,
            tsunami_number,
        )
        &&& before.dying(is_tsunami, tsunami_number).len() == before.agents@.len()
            - self.agents@.len()
        &&& if is_tsunami {
            &&& self.grid.tsunami_data@.len() == before.grid.tsunami_data@.len()
            &&& flattened(
                before.grid.tsunami_data@[tsunami_number as int]@,
                self.grid.tsunami_data@[tsunami_number as int]@,
            )
            &&& forall|f: int|
                0 <= f < before.grid.tsunami_data@.len() && f != tsunami_number ==> (
                #[trigger] self.grid.tsunami_data@[f]) == before.grid.tsunami_data@[f]
        } else {
            self.grid.tsunami_data == before.grid.tsunami_data
        }
        &&& advanced(
            before.after_hazard(is_tsunami, tsunami_number).map_values(|a: Agent| refreshed(a)),
            self.agents@,
            before.grid.terrain@,
        )
        &&& forall|i: int|
            0 <= i < self.agents@.len() ==> (#[trigger] self.agents@[i]).remaining_steps
                <= self.agents@[i].speed
        &&& extends(before.grid.registry(), self.grid.registry())
        &&& within_budget(
            before.after_hazard(is_tsunami, tsunami_number).map_values(|a: Agent| refreshed(a)),
            self.agents@,
            before.grid.config.allow_diagonal,
        )
        &&& before.roomy() ==> self.roomy()
        &&& !is_tsunami && (forall|i: int|
            0 <= i < before.agents@.len() ==> on_shelter(
                before.grid.terrain@,
                #[trigger] before.agents@[i],
            )) ==> {
            &&& self.grid.occupancy() == before.grid.occupancy()
            &&& self.grid.registry() == before.grid.registry()
            &&& self.agents@ == before.agents@.map_values(|a: Agent| refreshed(a))
        }
    }

    /// One tick. With the hazard active, frame `tsunami_number` first kills
    /// the agents it reaches and is then flattened. After that every agent
    /// gets its budget back, and as many sub-steps run as the fastest agent
    /// has speed, each asking the agents in an order that `chance` has
    /// shuffled afresh.
    ///
    /// `step` is the number of the tick; the model does not read it.
    pub fn step_with<C: Chance>(
        &mut self,
        step: u32,
        is_tsunami: bool,
        tsunami_number: usize,
        chance: &mut C,
    )
        requires
            old(self).safe(),
            is_tsunami ==> tsunami_number < old(self).grid.tsunami_data@.len(),
        ensures
            final(self).safe(),
            final(self).ticked(old(self), is_tsunami, tsunami_number),
    {
        let ghost terrain = self.grid.terrain@;
        if is_tsunami {
            self.apply_lethality(tsunami_number);
            self.flatten_frame(tsunami_number);
        }
        let ghost struck = self.world();
        assert(struck.agents == old(self).after_hazard(is_tsunami, tsunami_number));
        assert(struck.registry == old(self).grid.registry());
        self.reset_budgets();
        let ghost fresh = self.world();
        let ghost ready = *self;
        assert(ready.made_ready(old(self), is_tsunami, tsunami_number));
        proof {
            lemma_no_sub_step(&ready);
            if old(self).consistent() {
                lemma_refresh_keeps_coherence(
                    struck,
                    terrain,
                    self.grid.width as int,
                    self.grid.height as int,
                );
            }
            assert forall|shelter_id: u32| #[trigger]
                listed_in(fresh.registry, shelter_id).is_prefix_of(
                    listed_in(self.grid.registry(), shelter_id),
                ) by {}
        }
        let rounds = self.max_speed();
        let n = self.agents.len();
        let mut order = index_order(n);
        let mut round: u32 = 0;
        let ghost tally = self.dead_agents;
        let ghost tally_types = self.dead_agent_types;
        let ghost frames = self.grid.tsunami_data;
        while round < rounds
            invariant
                round <= rounds,
                self.safe(),
                self.sub_stepped_times(&ready, round as int),
                self.dead_agents == tally,
                self.dead_agent_types == tally_types,
                self.grid.tsunami_data == frames,
                n == self.agents@.len(),
                is_ordering(order@, n as int),
                terrain == self.grid.terrain@,
                terrain == old(self).grid.terrain@,
                old(self).consistent() ==> self.consistent(),
                self.grid == (Grid {
                    agents_in_cell: self.grid.agents_in_cell,
                    shelter_agents: self.grid.shelter_agents,
                    tsunami_data: self.grid.tsunami_data,
                    ..old(self).grid
                }),
                advanced(fresh.agents, self.agents@, terrain),
                extends(fresh.registry, self.grid.registry()),
                within_budget(fresh.agents, self.agents@, old(self).grid.config.allow_diagonal),
                old(self).roomy() ==> self.roomy(),
                (forall|i: int|
                    0 <= i < fresh.agents.len() ==> on_shelter(terrain, #[trigger] fresh.agents[i]))
                    ==> self.world() == fresh,
            decreases rounds - round,
        {
            let ghost before = order@;
            let ghost w = self.world();
            let ghost between = *self;
            chance.shuffle(&mut order);
            proof {
                lemma_rearranged_ordering(before, order@, n as int);
            }
            self.sub_step_with(&order, chance);
            proof {
                assert(self.sub_stepped(&between)) by {
                    let moves = choose|moves: Seq<Move>|
                        {
                            &&& #[trigger] between.decided(order@, moves)
                            &&& distinct_targets(moves)
                            &&& self.world() == apply_moves(
                                between.world(),
                                between.grid.terrain@,
                                moves,
                            )
                        };
                    assert(is_ordering(order@, between.agents@.len() as int) && between.decided(
                        order@,
                        moves,
                    ));
                }
                lemma_one_more_sub_step(self, &between, &ready, round as int);
                lemma_budgets_add_up(
                    fresh.agents,
                    w.agents,
                    self.agents@,
                    old(self).grid.config.allow_diagonal,
                );
                assert forall|shelter_id: u32| #[trigger]
                    listed_in(fresh.registry, shelter_id).is_prefix_of(
                        listed_in(self.grid.registry(), shelter_id),
                    ) by {
                    assert(listed_in(fresh.registry, shelter_id).is_prefix_of(
                        listed_in(w.registry, shelter_id),
                    ));
                    assert(listed_in(w.registry, shelter_id).is_prefix_of(
                        listed_in(self.grid.registry(), shelter_id),
                    ));
                }
                assert(advanced(fresh.agents, self.agents@, terrain)) by {
                    assert forall|i: int|
                        0 <= i < fresh.agents.len() && (on_shelter(terrain, #[trigger] fresh.agents[i])
                            || fresh.agents[i].remaining_steps == 0) implies self.agents@[i]
                        == fresh.agents[i] by {
                        assert(w.agents[i] == fresh.agents[i]);
                    }
                }
            }
            round = round + 1;
        }
    }

    /// One tick, as `step_with` runs it, with the generator of the running
    /// thread for its random decisions.
    pub fn step(&mut self, step: u32, is_tsunami: bool, tsunami_number: usize)
        requires
            old(self).safe(),
            is_tsunami ==> tsunami_number < old(self).grid.tsunami_data@.len(),
        ensures
            final(self).safe(),
            final(self).ticked(old(self), is_tsunami, tsunami_number),
    {
        let mut chance = ThreadChance::new();
        self.step_with(step, is_tsunami, tsunami_number, &mut chance);
    }
}

/// The agents that a tick starts its sub-steps with are those that the hazard
/// has left, and each of them was an agent before the tick and out of the
/// reach of an active hazard.
pub proof fn lemma_survivor_was_there(
    before: &Model,
    is_tsunami: bool,
    tsunami_number: usize,
    j: int,
) -> (i: int)
    requires
        0 <= j < before.after_hazard(is_tsunami, tsunami_number).len(),
    ensures
        0 <= i < before.agents@.len(),
        before.agents@[i] == before.after_hazard(is_tsunami, tsunami_number)[j],
        is_tsunami ==> !exposed(
            before.grid.tsunami_data@[tsunami_number as int]@,
            before.grid.terrain@,
            before.agents@[i],
        ),
{
    if is_tsunami {
        let frame = before.grid.tsunami_data@[tsunami_number as int]@;
        let terrain = before.grid.terrain@;
        let alive = |a: Agent| !exposed(frame, terrain, a);
        let left = before.agents@.filter(alive);
        before.agents@.lemma_filter_pred(alive, j);
        assert(left.contains(left[j]));
        before.agents@.lemma_filter_contains_rev(alive, left[j]);
        choose|i: int| 0 <= i < before.agents@.len() && before.agents@[i] == left[j]
    } else {
        j
    }
}

/// An agent on a shelter cell is safe and stays: after a tick, whether the
/// hazard was active or not, it is among the agents, on its cell, with its
/// budget restored and nothing else changed. In a consistent model no cell
/// lists it after the tick, its shelter has admitted it, and any two entries
/// of the registers that name it are the same entry.
pub proof fn lemma_sheltered_agent_stays(
    before: &Model,
    after: &Model,
    is_tsunami: bool,
    tsunami_number: usize,
    i: int,
) -> (j: int)
    requires
        before.safe(),
        is_tsunami ==> tsunami_number < before.grid.tsunami_data@.len(),
        after.ticked(before, is_tsunami, tsunami_number),
        0 <= i < before.agents@.len(),
        on_shelter(before.grid.terrain@, before.agents@[i]),
    ensures
        0 <= j < after.agents@.len(),
        after.agents@[j] == refreshed(before.agents@[i]),
        before.consistent() ==> forall|x: int, y: int|
            0 <= x < after.grid.width && 0 <= y < after.grid.height ==> !(
            #[trigger] after.grid.occupancy()[y][x]).contains(before.agents@[i].id),
        before.consistent() ==> registered(
            after.grid.registry(),
            before.grid.terrain@[before.agents@[i].y as int]@[before.agents@[i].x as int]->Shelter_0,
            before.agents@[i].id,
        ),
        before.consistent() ==> forall|s1: u32, k1: int, s2: u32, k2: int|
            0 <= k1 < listed_in(after.grid.registry(), s1).len() && 0 <= k2 < listed_in(
                after.grid.registry(),
                s2,
            ).len() && (#[trigger] listed_in(after.grid.registry(), s1)[k1]).0
                == before.agents@[i].id && (#[trigger] listed_in(after.grid.registry(), s2)[k2]).0
                == before.agents@[i].id ==> s1 == s2 && k1 == k2,
{
    let terrain = before.grid.terrain@;
    let a = before.agents@[i];
    let left = before.after_hazard(is_tsunami, tsunami_number);
    let ready = left.map_values(|a: Agent| refreshed(a));
    if is_tsunami {
        let frame = before.grid.tsunami_data@[tsunami_number as int]@;
        let alive = |a: Agent| !exposed(frame, terrain, a);
        assert(alive(a));
        before.agents@.lemma_filter_contains(alive, i);
        assert(left.contains(a));
    } else {
        assert(left[i] == a);
    }
    let j = choose|j: int| 0 <= j < left.len() && left[j] == a;
    assert(ready[j] == refreshed(a));
    assert(on_shelter(terrain, ready[j]));
    assert(after.agents@[j] == ready[j]);
    if before.consistent() {
        let w = after.world();
        assert(w.agents[j] == after.agents@[j]);
        assert(on_shelter(after.grid.terrain@, w.agents[j]));
        assert forall|x: int, y: int|
            0 <= x < after.grid.width && 0 <= y < after.grid.height implies !(
        #[trigger] after.grid.occupancy()[y][x]).contains(a.id) by {
            lemma_sheltered_not_listed(
                w,
                after.grid.terrain@,
                after.grid.width as int,
                after.grid.height as int,
                j,
                x,
                y,
            );
        }
    }
    j
}

/// Agents are never made, and one that is gone is gone for good: an
/// identifier that no agent has before a tick is that of no agent after it,
/// and in a consistent model no cell lists it then.
pub proof fn lemma_gone_stays_gone(
    before: &Model,
    after: &Model,
    is_tsunami: bool,
    tsunami_number: usize,
    id: usize,
)
    requires
        before.safe(),
        is_tsunami ==> tsunami_number < before.grid.tsunami_data@.len(),
        after.ticked(before, is_tsunami, tsunami_number),
        forall|i: int| 0 <= i < before.agents@.len() ==> (#[trigger] before.agents@[i]).id != id,
    ensures
        forall|j: int| 0 <= j < after.agents@.len() ==> (#[trigger] after.agents@[j]).id != id,
        before.consistent() ==> forall|x: int, y: int|
            0 <= x < after.grid.width && 0 <= y < after.grid.height ==> !(
            #[trigger] after.grid.occupancy()[y][x]).contains(id),
{
    let left = before.after_hazard(is_tsunami, tsunami_number);
    let ready = left.map_values(|a: Agent| refreshed(a));
    assert forall|j: int| 0 <= j < after.agents@.len() implies (#[trigger] after.agents@[j]).id
        != id by {
        let i = lemma_survivor_was_there(before, is_tsunami, tsunami_number, j);
        assert(ready[j].id == left[j].id);
        assert(after.agents@[j].id == ready[j].id);
    }
    if before.consistent() {
        assert forall|x: int, y: int|
            0 <= x < after.grid.width && 0 <= y < after.grid.height implies !(
        #[trigger] after.grid.occupancy()[y][x]).contains(id) by {
            lemma_absent_not_listed(
                after.world(),
                after.grid.terrain@,
                after.grid.width as int,
                after.grid.height as int,
                id,
                x,
                y,
            );
        }
    }
}

/// An agent that the hazard reaches is gone after the tick: in a consistent
/// model no agent has its identifier then and no cell lists it.
pub proof fn lemma_killed_agent_is_gone(
    before: &Model,
    after: &Model,
    tsunami_number: usize,
    i: int,
)
    requires
        before.consistent(),
        tsunami_number < before.grid.tsunami_data@.len(),
        after.ticked(before, true, tsunami_number),
        0 <= i < before.agents@.len(),
        exposed(
            before.grid.tsunami_data@[tsunami_number as int]@,
            before.grid.terrain@,
            before.agents@[i],
        ),
    ensures
        forall|j: int|
            0 <= j < after.agents@.len() ==> (#[trigger] after.agents@[j]).id
                != before.agents@[i].id,
        forall|x: int, y: int|
            0 <= x < after.grid.width && 0 <= y < after.grid.height ==> !(
            #[trigger] after.grid.occupancy()[y][x]).contains(before.agents@[i].id),
{
    let id = before.agents@[i].id;
    let left = before.after_hazard(true, tsunami_number);
    let ready = left.map_values(|a: Agent| refreshed(a));
    assert forall|j: int| 0 <= j < after.agents@.len() implies (#[trigger] after.agents@[j]).id
        != id by {
        let k = lemma_survivor_was_there(before, true, tsunami_number, j);
        assert(k != i);
        assert(before.world().agents[k] == before.agents@[k]);
        assert(before.world().agents[i] == before.agents@[i]);
        assert(before.agents@[k].id != before.agents@[i].id);
        assert(ready[j].id == left[j].id);
        assert(after.agents@[j].id == ready[j].id);
    }
    assert forall|x: int, y: int|
        0 <= x < after.grid.width && 0 <= y < after.grid.height implies !(
    #[trigger] after.grid.occupancy()[y][x]).contains(id) by {
        lemma_absent_not_listed(
            after.world(),
            after.grid.terrain@,
            after.grid.width as int,
            after.grid.height as int,
            id,
            x,
            y,
        );
    }
}

/// No agent walks farther in a tick than the budget it spends, and none
/// spends more than its speed: the steps from the cell on which a survivor
/// began the tick to the cell on which it ends it, and the budget it has
/// left, are together no more than its speed. An agent of speed zero stays
/// where it is.
pub proof fn lemma_tick_within_speed(
    before: &Model,
    after: &Model,
    is_tsunami: bool,
    tsunami_number: usize,
    j: int,
)
    requires
        before.safe(),
        is_tsunami ==> tsunami_number < before.grid.tsunami_data@.len(),
        after.ticked(before, is_tsunami, tsunami_number),
        0 <= j < after.agents@.len(),
    ensures
        j < before.after_hazard(is_tsunami, tsunami_number).len(),
        after.agents@[j].id == before.after_hazard(is_tsunami, tsunami_number)[j].id,
        after.agents@[j].speed == before.after_hazard(is_tsunami, tsunami_number)[j].speed,
        walked(
            before.after_hazard(is_tsunami, tsunami_number)[j],
            after.agents@[j],
            before.grid.config.allow_diagonal,
        ) + after.agents@[j].remaining_steps <= after.agents@[j].speed,
        after.agents@[j].speed == 0 ==> after.agents@[j].x == before.after_hazard(
            is_tsunami,
            tsunami_number,
        )[j].x && after.agents@[j].y == before.after_hazard(is_tsunami, tsunami_number)[j].y,
{
    let left = before.after_hazard(is_tsunami, tsunami_number);
    let ready = left.map_values(|a: Agent| refreshed(a));
    assert(ready[j] == refreshed(left[j]));
    assert(walked(ready[j], after.agents@[j], before.grid.config.allow_diagonal)
        + after.agents@[j].remaining_steps <= ready[j].remaining_steps);
}

/// In a tick of a single sub-step, which is one in which no agent is
/// faster than speed 1, no two agents that have changed their cell end on
/// the same cell.
pub proof fn lemma_single_round_keeps_apart(before: &Model, after: &Model)
    requires
        before.safe(),
        after.ticked(before, false, 0),
        forall|i: int| 0 <= i < before.agents@.len() ==> (#[trigger] before.agents@[i]).speed <= 1,
    ensures
        apart(before.agents@, after.agents@),
{
    let (ready, rounds) = choose|ready: Model, rounds: int|
        {
            &&& #[trigger] ready.made_ready(before, false, 0)
            &&& is_top_speed(ready.agents@, rounds)
            &&& #[trigger] after.sub_stepped_times(&ready, rounds)
        };
    let states = choose|states: Seq<Model>| #[trigger]
        after.sub_stepped_through(&ready, rounds, states);
    assert(ready.agents@.len() == before.agents@.len());
    assert forall|i: int| 0 <= i < ready.agents@.len() implies (#[trigger] ready.agents@[i])
        == refreshed(before.agents@[i]) by {}
    if ready.agents@.len() > 0 {
        let i = choose|i: int| 0 <= i < ready.agents@.len() && (#[trigger] ready.agents@[i]).speed == rounds;
        assert(before.agents@[i].speed <= 1);
    }
    assert(rounds == 0 || rounds == 1);
    if rounds == 1 {
        assert(states[0int + 1].sub_stepped(&states[0]));
        assert(after.orderly(&ready));
        assert forall|i: int, j: int|
            0 <= i < j < after.agents@.len() && j < before.agents@.len() && ((
            #[trigger] after.agents@[i]).x != before.agents@[i].x || after.agents@[i].y
                != before.agents@[i].y) && ((#[trigger] after.agents@[j]).x != before.agents@[j].x
                || after.agents@[j].y != before.agents@[j].y) implies after.agents@[i].x
            != after.agents@[j].x || after.agents@[i].y != after.agents@[j].y by {
            assert(ready.agents@[i].x == before.agents@[i].x);
            assert(ready.agents@[j].x == before.agents@[j].x);
        }
    } else {
        assert(states[0] == *after);
        assert(after.agents@ == ready.agents@);
        assert forall|i: int| 0 <= i < after.agents@.len() implies (#[trigger] after.agents@[i]).x
            == before.agents@[i].x && after.agents@[i].y == before.agents@[i].y by {
            assert(ready.agents@[i] == refreshed(before.agents@[i]));
        }
    }
}

/// Where the bookkeeping is coherent and no cell lists more than one agent,
/// two agents stand on the same cell only inside a shelter.
pub proof fn lemma_room_keeps_apart(model: &Model, i: int, j: int)
    requires
        model.consistent(),
        model.roomy(),
        0 <= i < j < model.agents@.len(),
        model.agents@[i].x == model.agents@[j].x,
        model.agents@[i].y == model.agents@[j].y,
    ensures
        on_shelter(model.grid.terrain@, model.agents@[i]),
{
    let w = model.world();
    let a = w.agents[i];
    let b = w.agents[j];
    assert(a == model.agents@[i] && b == model.agents@[j]);
    if !on_shelter(model.grid.terrain@, a) {
        assert(!on_shelter(model.grid.terrain@, b));
        assert(model.grid.in_bounds(a.x as int, a.y as int));
        let cell = w.occupancy[a.y as int][a.x as int];
        assert(cell.contains(a.id));
        assert(w.occupancy[b.y as int][b.x as int].contains(b.id));
        assert(cell.contains(b.id));
        assert(a.id != b.id);
        assert(cell.len() <= 1);
        let m = choose|m: int| 0 <= m < cell.len() && cell[m] == a.id;
        let n = choose|n: int| 0 <= n < cell.len() && cell[n] == b.id;
        assert(m == 0 && n == 0);
    }
}

/// A frame that reaches none of the agents from index `from` on kills none
/// of them.
pub proof fn lemma_spared_are_not_counted(
    agents: Seq<Agent>,
    frame: Seq<Vec<u32>>,
    terrain: Seq<Vec<Terrain>>,
    from: int,
)
    requires
        0 <= from,
        forall|i: int| from <= i < agents.len() ==> !exposed(frame, terrain, #[trigger] agents[i]),
    ensures
        casualties(agents, frame, terrain, from) == Seq::<AgentType>::empty(),
    decreases agents.len() - from,
{
    if from < agents.len() {
        lemma_spared_are_not_counted(agents, frame, terrain, from + 1);
    }
}

/// The hazard takes nobody out of a shelter: a tick on agents that all stand
/// on shelter cells, whatever the frame shows, leaves the death counter and
/// the tally as they are, and as many agents as there were.
pub proof fn lemma_sheltered_are_not_counted(before: &Model, after: &Model, tsunami_number: usize)
    requires
        before.safe(),
        tsunami_number < before.grid.tsunami_data@.len(),
        after.ticked(before, true, tsunami_number),
        forall|i: int|
            0 <= i < before.agents@.len() ==> on_shelter(
                before.grid.terrain@,
                #[trigger] before.agents@[i],
            ),
    ensures
        after.dead_agents == before.dead_agents,
        after.dead_agent_types@ == before.dead_agent_types@,
        after.agents@.len() == before.agents@.len(),
{
    lemma_spared_are_not_counted(
        before.agents@,
        before.grid.tsunami_data@[tsunami_number as int]@,
        before.grid.terrain@,
        0,
    );
    assert(before.dying(true, tsunami_number) == Seq::<AgentType>::empty());
    assert(after.dead_agent_types@ =~= before.dead_agent_types@);
}

} // verus!
