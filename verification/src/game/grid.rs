//! The grid: terrain, occupant lists, distance fields and the shelter
//! register.

use crate::game::agent::AgentType;
use crate::game::breadth_first::{
    lemma_swept_is_stepwise, lemma_swept_sources_at_zero, unweighted_distances,
};
use crate::game::cost_field::{
    lemma_least_cost_is_stepwise, lemma_sources_at_zero, weighted_distances, Rules, Search, Target,
};
use std::collections::HashMap;
use vstd::prelude::*;

pub use crate::loading::{load_grid_from_ascii, load_grid_from_ascii_with_config};

verus! {

/// What a cell of the grid is.
#[derive(Clone, Copy, Debug, PartialEq, Eq, Structural)]
pub enum Terrain {
    /// Not meant to be walked on.
    Blocked,
    Road,
    /// A shelter, with its identifier.
    Shelter(u32),
    /// Other ground, with the cost of entering it in whole cost units.
    Custom(u32),
}

/// How distances are computed and how agents may step.
#[derive(Debug, Clone, PartialEq)]
pub struct GridConfig {
    /// Cost of entering a blocked cell in the weighted search.
    pub blocked_penalty: u32,
    /// Whether steps to the four diagonal neighbours exist.
    pub allow_diagonal: bool,
    /// Advisory shelter capacity; -1 stands for no limit. Admission does not
    /// consult it.
    pub shelter_capacity: i32,
    /// `"bfs"` selects the unweighted search for shelter distances; any other
    /// name selects the weighted one.
    pub path_algorithm: String,
}

impl Default for GridConfig {
    fn default() -> (config: Self)
        ensures
            config.blocked_penalty == 2,
            !config.allow_diagonal,
            config.shelter_capacity == -1,
            config.path_algorithm@ == "dijkstra"@,
    {
        GridConfig {
            blocked_penalty: 2,
            allow_diagonal: false,
            shelter_capacity: -1,
            path_algorithm: "dijkstra".to_owned(),
        }
    }
}

/// The world: terrain, who stands where, the two distance fields and who has
/// reached which shelter.
#[derive(Clone, Debug, PartialEq)]
pub struct Grid {
    pub width: u32,
    pub height: u32,
    /// `terrain[y][x]`.
    pub terrain: Vec<Vec<Terrain>>,
    /// Shelter cells as `(x, y, shelter id)`.
    pub shelters: Vec<(u32, u32, u32)>,
    /// Identifiers of the agents that stand on each cell.
    pub agents_in_cell: Vec<Vec<Vec<usize>>>,
    /// Distance of each cell to the nearest road, where one can be reached.
    pub distance_to_road: Vec<Vec<Option<u32>>>,
    /// Distance of each cell to the nearest shelter, where one can be reached.
    pub distance_to_shelter: Vec<Vec<Option<u32>>>,
    /// For each shelter the agents admitted to it, in order of admission.
    pub shelter_agents: HashMap<u32, Vec<(usize, AgentType)>>,
    pub population: Vec<Vec<u32>>,
    /// Inundation heights, one matrix per hazard frame.
    pub tsunami_data: Vec<Vec<Vec<u32>>>,
    pub nrow: u32,
    pub ncol: u32,
    pub config: GridConfig,
}

/// The largest number of cells a grid may have.
pub const MAX_CELLS: u32 = 0x7fff_ffff;

/// `rows` has `height` rows of `width` entries each.
pub open spec fn rectangular<T>(rows: Seq<Vec<T>>, width: int, height: int) -> bool {
    &&& rows.len() == height
    &&& forall|y: int| 0 <= y < height ==> (#[trigger] rows[y])@.len() == width
}

impl Grid {
    /// The cell `(x, y)` lies on the grid.
    pub open spec fn in_bounds(&self, x: int, y: int) -> bool {
        0 <= x < self.width && 0 <= y < self.height
    }

    /// The matrices that the simulation reads all have the grid's dimensions,
    /// and the grid has no more than `MAX_CELLS` cells.
    pub open spec fn wf(&self) -> bool {
        &&& self.width as int * self.height as int <= MAX_CELLS
        &&& rectangular(self.terrain@, self.width as int, self.height as int)
        &&& rectangular(self.agents_in_cell@, self.width as int, self.height as int)
        &&& rectangular(self.distance_to_road@, self.width as int, self.height as int)
        &&& rectangular(self.distance_to_shelter@, self.width as int, self.height as int)
    }

    pub open spec fn terrain_at(&self, x: int, y: int) -> Terrain {
        self.terrain@[y]@[x]
    }

    /// The identifiers listed on cell `(x, y)`.
    pub open spec fn occupants(&self, x: int, y: int) -> Seq<usize> {
        self.agents_in_cell@[y]@[x]@
    }

    /// The occupant lists of all cells, `occupancy()[y][x]` being that of `(x, y)`.
    pub open spec fn occupancy(&self) -> Seq<Seq<Seq<usize>>> {
        self.agents_in_cell.deep_view()
    }

    /// The occupant lists have the dimensions that they have in `before`,
    /// and every list but that of `(x, y)` is as it is in `before`.
    pub open spec fn same_cells_but(&self, before: &Grid, x: int, y: int) -> bool {
        &&& self.agents_in_cell@.len() == before.agents_in_cell@.len()
        &&& forall|cy: int|
            0 <= cy < before.agents_in_cell@.len() ==> (#[trigger] self.agents_in_cell@[cy])@.len()
                == before.agents_in_cell@[cy]@.len()
        &&& forall|cx: int, cy: int|
            0 <= cy < before.agents_in_cell@.len() && 0 <= cx < before.agents_in_cell@[cy]@.len() && (cx
                != x || cy != y) ==> #[trigger] self.occupants(cx, cy) == before.occupants(cx, cy)
    }

    /// The agents admitted to shelter `shelter_id`, oldest first.
    pub open spec fn admitted(&self, shelter_id: u32) -> Seq<(usize, AgentType)> {
        if self.shelter_agents@.contains_key(shelter_id) {
            self.shelter_agents@[shelter_id]@
        } else {
            Seq::empty()
        }
    }

    /// The number of agents admitted to shelter `shelter_id`.
    pub fn occupant_count_in_shelter(&self, shelter_id: u32) -> (count: usize)
        ensures
            count == self.admitted(shelter_id).len(),
    {
        broadcast use vstd::std_specs::hash::group_hash_axioms;

        match self.shelter_agents.get(&shelter_id) {
            Some(admitted) => admitted.len(),
            None => 0,
        }
    }

    /// The identifier of the shelter on `(x, y)`; nothing where the cell is
    /// no shelter or lies off the terrain.
    pub fn is_shelter_cell(&self, x: u32, y: u32) -> (shelter: Option<u32>)
        ensures
            shelter == if (y as int) < self.terrain@.len() && (x as int) < self.terrain@[y as int]@.len() {
                match self.terrain_at(x as int, y as int) {
                    Terrain::Shelter(shelter_id) => Some(shelter_id),
                    _ => None,
                }
            } else {
                None
            },
    {
        if (y as usize) < self.terrain.len() && (x as usize) < self.terrain[y as usize].len() {
            match self.terrain[y as usize][x as usize] {
                Terrain::Shelter(shelter_id) => Some(shelter_id),
                _ => None,
            }
        } else {
            None
        }
    }

    /// Takes `agent_id` off the occupant list of `(x, y)`: its first
    /// occurrence leaves, the rest keeps its order. Nothing changes where the
    /// cell does not exist or does not list the agent.
    pub fn remove_agent(&mut self, x: u32, y: u32, agent_id: usize)
        ensures
            *final(self) == (Grid { agents_in_cell: final(self).agents_in_cell, ..*old(self) }),
            final(self).occupancy() == if (y as int) < old(self).agents_in_cell@.len() && (
            x as int) < old(self).agents_in_cell@[y as int]@.len() {
                old(self).occupancy().update(
                    y as int,
                    old(self).occupancy()[y as int].update(
                        x as int,
                        old(self).occupants(x as int, y as int).remove_value(agent_id),
                    ),
                )
            } else {
                old(self).occupancy()
            },
            old(self).wf() ==> final(self).wf(),
            (y as int) < old(self).agents_in_cell@.len() && (x as int) < old(
                self,
            ).agents_in_cell@[y as int]@.len() ==> final(self).occupants(x as int, y as int) == old(
                self,
            ).occupants(x as int, y as int).remove_value(agent_id),
            final(self).same_cells_but(old(self), x as int, y as int),
    {
        let y_usize = y as usize;
        let x_usize = x as usize;
        if y_usize < self.agents_in_cell.len() && x_usize < self.agents_in_cell[y_usize].len() {
            let ghost list = self.agents_in_cell@[y as int]@[x as int]@;
            let n = self.agents_in_cell[y_usize][x_usize].len();
            let mut index: usize = 0;
            while index < n && self.agents_in_cell[y_usize][x_usize][index] != agent_id
                invariant
                    index <= n,
                    n == list.len(),
                    y_usize < self.agents_in_cell@.len(),
                    x_usize < self.agents_in_cell@[y_usize as int]@.len(),
                    self.agents_in_cell@[y_usize as int]@[x_usize as int]@ == list,
                    forall|k: int| 0 <= k < index ==> list[k] != agent_id,
                decreases n - index,
            {
                index = index + 1;
            }
            proof {
                list.index_of_first_ensures(agent_id);
            }
            if index < n {
                self.agents_in_cell[y_usize][x_usize].remove(index);
                assert(list.index_of_first(agent_id) == Some(index as int));
            }
            assert(self.occupancy() =~~= old(self).occupancy().update(
                y as int,
                old(self).occupancy()[y as int].update(x as int, list.remove_value(agent_id)),
            ));
        }
    }

    /// Records `(agent_id, agent_type)` as the newest agent admitted to
    /// `shelter_id`. The occupant lists are left alone: the caller takes the
    /// agent off its cell.
    pub fn add_to_shelter(&mut self, shelter_id: u32, agent_id: usize, agent_type: AgentType)
        ensures
            *final(self) == (Grid { shelter_agents: final(self).shelter_agents, ..*old(self) }),
            final(self).admitted(shelter_id) == old(self).admitted(shelter_id).push(
                (agent_id, agent_type),
            ),
            forall|other: u32|
                other != shelter_id ==> final(self).admitted(other) == old(self).admitted(other),
            final(self).shelter_agents@.dom() == old(self).shelter_agents@.dom().insert(shelter_id),
            old(self).wf() ==> final(self).wf(),
    {
        broadcast use vstd::std_specs::hash::group_hash_axioms;

        self.shelter_agents.entry(shelter_id).or_insert(Vec::new()).push((agent_id, agent_type));
    }

    /// Appends `agent_id` to the occupant list of `(x, y)`.
    pub fn add_agent(&mut self, x: u32, y: u32, agent_id: usize)
        requires
            (y as int) < old(self).agents_in_cell@.len(),
            (x as int) < old(self).agents_in_cell@[y as int]@.len(),
        ensures
            *final(self) == (Grid { agents_in_cell: final(self).agents_in_cell, ..*old(self) }),
            final(self).occupancy() == old(self).occupancy().update(
                y as int,
                old(self).occupancy()[y as int].update(
                    x as int,
                    old(self).occupants(x as int, y as int).push(agent_id),
                ),
            ),
            old(self).wf() ==> final(self).wf(),
            final(self).occupants(x as int, y as int) == old(self).occupants(x as int, y as int).push(
                agent_id,
            ),
            final(self).same_cells_but(old(self), x as int, y as int),
    {
        self.agents_in_cell[y as usize][x as usize].push(agent_id);
        assert(self.occupancy() =~~= old(self).occupancy().update(
            y as int,
            old(self).occupancy()[y as int].update(
                x as int,
                old(self).occupants(x as int, y as int).push(agent_id),
            ),
        ));
    }
}

} // verus!

verus! {

/// The offset of the `k`-th neighbour, in the order in which neighbours are
/// tried: the four cardinal ones first, then the diagonal ones.
pub open spec fn direction(k: int) -> (int, int) {
    if k == 0 {
        (0, 1)
    } else if k == 1 {
        (0, -1)
    } else if k == 2 {
        (1, 0)
    } else if k == 3 {
        (-1, 0)
    } else if k == 4 {
        (1, 1)
    } else if k == 5 {
        (1, -1)
    } else if k == 6 {
        (-1, 1)
    } else {
        (-1, -1)
    }
}

/// How many neighbours a cell has: four, or eight with diagonal steps.
pub open spec fn direction_count(diagonal: bool) -> int {
    if diagonal {
        8
    } else {
        4
    }
}

/// The cell one step from `(x, y)` in direction `k`.
pub open spec fn step_target(x: int, y: int, k: int) -> (int, int) {
    (x + direction(k).0, y + direction(k).1)
}

/// How many neighbours a cell has: four, or eight with diagonal steps.
pub fn neighbor_count(diagonal: bool) -> (n: usize)
    ensures
        n == direction_count(diagonal),
{
    if diagonal {
        8
    } else {
        4
    }
}

/// The neighbour of `(x, y)` in direction `k`, if the grid has it.
pub fn neighbor(x: u32, y: u32, k: usize, width: u32, height: u32) -> (cell: Option<(u32, u32)>)
    requires
        k < 8,
    ensures
        match cell {
            Some(c) => (c.0 as int, c.1 as int) == step_target(x as int, y as int, k as int)
                && c.0 < width && c.1 < height,
            None => {
                let t = step_target(x as int, y as int, k as int);
                !(0 <= t.0 < width && 0 <= t.1 < height)
            },
        },
{
    let dx: i64 = if k == 2 || k == 4 || k == 5 {
        1
    } else if k == 0 || k == 1 {
        0
    } else {
        -1
    };
    let dy: i64 = if k == 0 || k == 4 || k == 6 {
        1
    } else if k == 2 || k == 3 {
        0
    } else {
        -1
    };
    let nx: i64 = x as i64 + dx;
    let ny: i64 = y as i64 + dy;
    if nx >= 0 && ny >= 0 && nx < width as i64 && ny < height as i64 {
        Some((nx as u32, ny as u32))
    } else {
        None
    }
}

/// Whether `rows` has `height` rows of `width` entries each.
pub fn is_rectangular<T>(rows: &Vec<Vec<T>>, width: u32, height: u32) -> (ok: bool)
    ensures
        ok == rectangular(rows@, width as int, height as int),
{
    if rows.len() != height as usize {
        return false;
    }
    let mut y: usize = 0;
    while y < rows.len()
        invariant
            y <= rows@.len(),
            rows@.len() == height,
            forall|r: int| 0 <= r < y ==> (#[trigger] rows@[r])@.len() == width,
        decreases rows@.len() - y,
    {
        if rows[y].len() != width as usize {
            return false;
        }
        y = y + 1;
    }
    true
}

impl Grid {
    /// Whether the grid is well formed.
    pub fn is_well_formed(&self) -> (ok: bool)
        ensures
            ok == self.wf(),
    {
        assert((self.width as u64) * (self.height as u64) <= u64::MAX) by (nonlinear_arith)
            requires
                self.width <= u32::MAX,
                self.height <= u32::MAX,
        ;
        (self.width as u64) * (self.height as u64) <= MAX_CELLS as u64 && is_rectangular(
            &self.terrain,
            self.width,
            self.height,
        ) && is_rectangular(&self.agents_in_cell, self.width, self.height) && is_rectangular(
            &self.distance_to_road,
            self.width,
            self.height,
        ) && is_rectangular(&self.distance_to_shelter, self.width, self.height)
    }

    /// The search problem that a distance field of this grid answers.
    pub open spec fn search(&self, target: Target, weighted: bool) -> Search {
        Search {
            terrain: self.terrain@,
            width: self.width as int,
            height: self.height as int,
            rules: Rules {
                target,
                weighted,
                diagonal: self.config.allow_diagonal,
                blocked_penalty: self.config.blocked_penalty,
            },
        }
    }

    /// Whether the configuration asks for the unweighted shelter search.
    pub open spec fn sweeps(&self) -> bool {
        self.config.path_algorithm@ == "bfs"@
    }

    /// Computes the distance of every cell to the nearest shelter, by the
    /// search that the configuration names: the unweighted sweep for
    /// `"bfs"`, the weighted search for any other name. Every shelter cell
    /// ends at distance zero, and from every other cell with a distance the
    /// field can be followed back, neighbour by neighbour.
    pub fn compute_distance_to_shelters(&mut self)
        requires
            old(self).wf(),
        ensures
            final(self).wf(),
            *final(self) == (Grid {
                distance_to_shelter: final(self).distance_to_shelter,
                ..*old(self)
            }),
            if old(self).sweeps() {
                old(self).search(Target::Shelter, false).fewest_steps_field(
                    final(self).distance_to_shelter.deep_view(),
                )
            } else {
                old(self).search(Target::Shelter, true).least_cost_field(
                    final(self).distance_to_shelter.deep_view(),
                )
            },
            forall|x: int, y: int|
                old(self).in_bounds(x, y) && old(self).terrain_at(x, y) is Shelter ==> (
                #[trigger] final(self).distance_to_shelter.deep_view()[y][x]) == Some(0u32),
            old(self).search(Target::Shelter, !old(self).sweeps()).stepwise(
                final(self).distance_to_shelter.deep_view(),
            ),
    {
        if self.config.path_algorithm == "bfs".to_owned() {
            self.compute_distance_to_shelters_bfs();
            proof {
                lemma_swept_is_stepwise(
                    old(self).search(Target::Shelter, false),
                    self.distance_to_shelter.deep_view(),
                );
            }
        } else {
            if self.config.path_algorithm == "a_star".to_owned() {
                self.compute_distance_to_shelters_astar();
            } else {
                self.compute_distance_to_shelters_dijkstra();
            }
            proof {
                lemma_least_cost_is_stepwise(
                    old(self).search(Target::Shelter, true),
                    self.distance_to_shelter.deep_view(),
                );
            }
        }
    }

    /// Shelter distances by the unweighted sweep: a cardinal step costs 1, a
    /// diagonal step 2, and blocked cells are never entered.
    fn compute_distance_to_shelters_bfs(&mut self)
        requires
            old(self).wf(),
        ensures
            final(self).wf(),
            *final(self) == (Grid {
                distance_to_shelter: final(self).distance_to_shelter,
                ..*old(self)
            }),
            old(self).search(Target::Shelter, false).fewest_steps_field(
                final(self).distance_to_shelter.deep_view(),
            ),
            forall|x: int, y: int|
                old(self).in_bounds(x, y) && old(self).terrain_at(x, y) is Shelter ==> (
                #[trigger] final(self).distance_to_shelter.deep_view()[y][x]) == Some(0u32),
    {
        let rules = Rules {
            target: Target::Shelter,
            weighted: false,
            diagonal: self.config.allow_diagonal,
            blocked_penalty: self.config.blocked_penalty,
        };
        let field = unweighted_distances(&self.terrain, self.width, self.height, rules);
        proof {
            let s = self.search(Target::Shelter, false);
            assert forall|x: int, y: int|
                self.in_bounds(x, y) && self.terrain_at(x, y) is Shelter implies (
            #[trigger] field.deep_view()[y][x]) == Some(0u32) by {
                lemma_swept_sources_at_zero(s, field.deep_view(), (x, y));
            }
        }
        self.distance_to_shelter = field;
    }

    /// Shelter distances by the weighted search: entering a shelter is free,
    /// a road costs 1, a blocked cell the configured penalty, other ground
    /// its own cost; a diagonal step costs the square root of two times as
    /// much, rounded up.
    fn compute_distance_to_shelters_dijkstra(&mut self)
        requires
            old(self).wf(),
        ensures
            final(self).wf(),
            *final(self) == (Grid {
                distance_to_shelter: final(self).distance_to_shelter,
                ..*old(self)
            }),
            old(self).search(Target::Shelter, true).least_cost_field(
                final(self).distance_to_shelter.deep_view(),
            ),
            forall|x: int, y: int|
                old(self).in_bounds(x, y) && old(self).terrain_at(x, y) is Shelter ==> (
                #[trigger] final(self).distance_to_shelter.deep_view()[y][x]) == Some(0u32),
    {
        let rules = Rules {
            target: Target::Shelter,
            weighted: true,
            diagonal: self.config.allow_diagonal,
            blocked_penalty: self.config.blocked_penalty,
        };
        let field = weighted_distances(&self.terrain, self.width, self.height, rules);
        proof {
            let s = self.search(Target::Shelter, true);
            assert forall|x: int, y: int|
                self.in_bounds(x, y) && self.terrain_at(x, y) is Shelter implies (
            #[trigger] field.deep_view()[y][x]) == Some(0u32) by {
                lemma_sources_at_zero(s, field.deep_view(), (x, y));
            }
        }
        self.distance_to_shelter = field;
    }

    /// Shelter distances for the name `"a_star"`: the weighted search, which
    /// finds the same distances as a search guided by a heuristic would.
    fn compute_distance_to_shelters_astar(&mut self)
        requires
            old(self).wf(),
        ensures
            final(self).wf(),
            *final(self) == (Grid {
                distance_to_shelter: final(self).distance_to_shelter,
                ..*old(self)
            }),
            old(self).search(Target::Shelter, true).least_cost_field(
                final(self).distance_to_shelter.deep_view(),
            ),
            forall|x: int, y: int|
                old(self).in_bounds(x, y) && old(self).terrain_at(x, y) is Shelter ==> (
                #[trigger] final(self).distance_to_shelter.deep_view()[y][x]) == Some(0u32),
    {
        self.compute_distance_to_shelters_dijkstra();
    }

    /// Computes the distance of every cell to the nearest road by the
    /// weighted search, in which entering a shelter or a road costs 1. Every
    /// road cell ends at distance zero, and from every other cell with a
    /// distance the field can be followed back, neighbour by neighbour.
    pub fn compute_road_distances_from_agents(&mut self)
        requires
            old(self).wf(),
        ensures
            final(self).wf(),
            *final(self) == (Grid { distance_to_road: final(self).distance_to_road, ..*old(self) }),
            old(self).search(Target::Road, true).least_cost_field(
                final(self).distance_to_road.deep_view(),
            ),
            forall|x: int, y: int|
                old(self).in_bounds(x, y) && old(self).terrain_at(x, y) == Terrain::Road ==> (
                #[trigger] final(self).distance_to_road.deep_view()[y][x]) == Some(0u32),
            old(self).search(Target::Road, true).stepwise(final(self).distance_to_road.deep_view()),
    {
        let rules = Rules {
            target: Target::Road,
            weighted: true,
            diagonal: self.config.allow_diagonal,
            blocked_penalty: self.config.blocked_penalty,
        };
        let field = weighted_distances(&self.terrain, self.width, self.height, rules);
        proof {
            let s = self.search(Target::Road, true);
            assert forall|x: int, y: int|
                self.in_bounds(x, y) && self.terrain_at(x, y) == Terrain::Road implies (
            #[trigger] field.deep_view()[y][x]) == Some(0u32) by {
                lemma_sources_at_zero(s, field.deep_view(), (x, y));
            }
            lemma_least_cost_is_stepwise(s, field.deep_view());
        }
        self.distance_to_road = field;
    }
}

/// Why a grid or a population cannot be built from what was read.
#[derive(Debug, Clone, Copy, PartialEq, Eq)]
pub enum LoadError {
    /// The rows of the terrain do not all have the same length.
    Ragged,
    /// The terrain has more cells than a grid may have.
    TooLarge,
    /// An agent was given a position off the grid.
    OutOfBounds,
    /// The population does not have one row for every row of the grid.
    DimensionMismatch,
    /// A token of the grid raster names a shelter without a number.
    InvalidShelter,
}

impl LoadError {
    /// The message that goes with the error.
    pub fn message(&self) -> (text: &'static str)
        ensures
            text@ == match self {
                LoadError::Ragged => "Terrain rows differ in length"@,
                LoadError::TooLarge => "Terrain has too many cells"@,
                LoadError::OutOfBounds => "Agent position outside the grid"@,
                LoadError::DimensionMismatch => "Population data dimensions don't match grid"@,
                LoadError::InvalidShelter => "Invalid shelter ID format"@,
            },
    {
        match self {
            LoadError::Ragged => "Terrain rows differ in length",
            LoadError::TooLarge => "Terrain has too many cells",
            LoadError::OutOfBounds => "Agent position outside the grid",
            LoadError::DimensionMismatch => "Population data dimensions don't match grid",
            LoadError::InvalidShelter => "Invalid shelter ID format",
        }
    }
}

/// A matrix of `height` rows of `width` entries, all of them `value`.
pub fn filled<T: Copy>(width: u32, height: u32, value: T) -> (rows: Vec<Vec<T>>)
    ensures
        rectangular(rows@, width as int, height as int),
        forall|y: int, x: int| 0 <= y < height && 0 <= x < width ==> (#[trigger] rows@[y]@[x]) == value,
{
    let mut rows: Vec<Vec<T>> = Vec::new();
    let mut y: u32 = 0;
    while y < height
        invariant
            y <= height,
            rows@.len() == y,
            forall|r: int| 0 <= r < y ==> (#[trigger] rows@[r])@.len() == width,
            forall|r: int, c: int| 0 <= r < y && 0 <= c < width ==> (#[trigger] rows@[r]@[c]) == value,
        decreases height - y,
    {
        let mut row: Vec<T> = Vec::new();
        let mut x: u32 = 0;
        while x < width
            invariant
                x <= width,
                row@.len() == x,
                forall|c: int| 0 <= c < x ==> (#[trigger] row@[c]) == value,
            decreases width - x,
        {
            row.push(value);
            x = x + 1;
        }
        rows.push(row);
        y = y + 1;
    }
    rows
}

/// A matrix of `height` rows of `width` empty occupant lists.
pub fn vacant(width: u32, height: u32) -> (rows: Vec<Vec<Vec<usize>>>)
    ensures
        rectangular(rows@, width as int, height as int),
        forall|y: int, x: int|
            0 <= y < height && 0 <= x < width ==> (#[trigger] rows@[y]@[x])@ == Seq::<usize>::empty(),
{
    let mut rows: Vec<Vec<Vec<usize>>> = Vec::new();
    let mut y: u32 = 0;
    while y < height
        invariant
            y <= height,
            rows@.len() == y,
            forall|r: int| 0 <= r < y ==> (#[trigger] rows@[r])@.len() == width,
            forall|r: int, c: int|
                0 <= r < y && 0 <= c < width ==> (#[trigger] rows@[r]@[c])@ == Seq::<usize>::empty(),
        decreases height - y,
    {
        let mut row: Vec<Vec<usize>> = Vec::new();
        let mut x: u32 = 0;
        while x < width
            invariant
                x <= width,
                row@.len() == x,
                forall|c: int| 0 <= c < x ==> (#[trigger] row@[c])@ == Seq::<usize>::empty(),
            decreases width - x,
        {
            row.push(Vec::new());
            x = x + 1;
        }
        rows.push(row);
        y = y + 1;
    }
    rows
}

/// The shelter cells among the first `n` cells of the terrain, counted row
/// by row, as `(x, y, shelter id)` and in that order.
pub open spec fn shelter_cells(terrain: Seq<Vec<Terrain>>, width: int, n: int) -> Seq<(u32, u32, u32)>
    decreases n,
{
    if n <= 0 || width <= 0 {
        Seq::empty()
    } else {
        let earlier = shelter_cells(terrain, width, n - 1);
        let x = (n - 1) % width;
        let y = (n - 1) / width;
        match terrain[y]@[x] {
            Terrain::Shelter(shelter_id) => earlier.push((x as u32, y as u32, shelter_id)),
            _ => earlier,
        }
    }
}

/// The shelter cells of the terrain, row by row.
pub fn find_shelters(terrain: &Vec<Vec<Terrain>>, width: u32, height: u32) -> (shelters: Vec<
    (u32, u32, u32),
>)
    requires
        rectangular(terrain@, width as int, height as int),
        width as int * height as int <= MAX_CELLS,
    ensures
        shelters@ == shelter_cells(terrain@, width as int, width as int * height as int),
{
    let mut shelters: Vec<(u32, u32, u32)> = Vec::new();
    let mut y: u32 = 0;
    assert(width as int * 0 == 0);
    while y < height
        invariant
            y <= height,
            rectangular(terrain@, width as int, height as int),
            width as int * height as int <= MAX_CELLS,
            shelters@ == shelter_cells(terrain@, width as int, width as int * y as int),
        decreases height - y,
    {
        let mut x: u32 = 0;
        while x < width
            invariant
                x <= width,
                y < height,
                rectangular(terrain@, width as int, height as int),
                width as int * height as int <= MAX_CELLS,
                shelters@ == shelter_cells(terrain@, width as int, width as int * y as int + x as int),
            decreases width - x,
        {
            let ghost n = width as int * y as int + x as int + 1;
            proof {
                assert((n - 1) % (width as int) == x as int && (n - 1) / (width as int) == y as int)
                    by (nonlinear_arith)
                    requires
                        n - 1 == width as int * y as int + x as int,
                        0 <= x < width,
                        0 <= y,
                ;
            }
            if let Terrain::Shelter(shelter_id) = terrain[y as usize][x as usize] {
                shelters.push((x, y, shelter_id));
            }
            x = x + 1;
        }
        assert(width as int * y as int + width as int == width as int * (y as int + 1))
            by (nonlinear_arith);
        y = y + 1;
    }
    shelters
}

impl Grid {
    /// A grid over `terrain` on which nobody stands yet: the shelter list
    /// names the shelter cells row by row, no cell has an occupant or a
    /// population, no shelter has admitted anybody, there are no hazard
    /// frames, and both distance fields are computed.
    ///
    /// The terrain is refused where its rows differ in length (`Ragged`)
    /// and, failing that, where it has more than `MAX_CELLS` cells
    /// (`TooLarge`).
    pub fn from_terrain(terrain: Vec<Vec<Terrain>>, config: GridConfig) -> (built: Result<
        Grid,
        LoadError,
    >)
        ensures
            match built {
                Ok(grid) => {
                    &&& grid.wf()
                    &&& grid.terrain == terrain
                    &&& grid.width == row_length(terrain@)
                    &&& grid.height == terrain@.len()
                    &&& grid.config == config
                    &&& grid.nrow == grid.height
                    &&& grid.ncol == grid.width
                    &&& grid.shelters@ == shelter_cells(
                        terrain@,
                        grid.width as int,
                        grid.width as int * grid.height as int,
                    )
                    &&& forall|x: int, y: int|
                        grid.in_bounds(x, y) ==> (#[trigger] grid.occupants(x, y)) == Seq::<usize>::empty()
                    &&& grid.shelter_agents@ == Map::<u32, Vec<(usize, AgentType)>>::empty()
                    &&& rectangular(grid.population@, grid.width as int, grid.height as int)
                    &&& forall|y: int, x: int|
                        0 <= y < grid.height && 0 <= x < grid.width ==> (
                        #[trigger] grid.population@[y]@[x]) == 0
                    &&& grid.tsunami_data@.len() == 0
                    &&& grid.search(Target::Road, true).least_cost_field(
                        grid.distance_to_road.deep_view(),
                    )
                    &&& if grid.sweeps() {
                        grid.search(Target::Shelter, false).fewest_steps_field(
                            grid.distance_to_shelter.deep_view(),
                        )
                    } else {
                        grid.search(Target::Shelter, true).least_cost_field(
                            grid.distance_to_shelter.deep_view(),
                        )
                    }
                },
                Err(e) => e == if !rectangular(terrain@, row_length(terrain@), terrain@.len() as int) {
                    LoadError::Ragged
                } else {
                    LoadError::TooLarge
                },
            },
            built is Ok <==> rectangular(terrain@, row_length(terrain@), terrain@.len() as int)
                && row_length(terrain@) * terrain@.len() <= MAX_CELLS && terrain@.len() <= u32::MAX
                && row_length(terrain@) <= u32::MAX,
    {
        let rows = terrain.len();
        let columns = if rows == 0 {
            0
        } else {
            terrain[0].len()
        };
        if rows > u32::MAX as usize || columns > u32::MAX as usize {
            return Self::refused(&terrain);
        }
        let width = columns as u32;
        let height = rows as u32;
        if !is_rectangular(&terrain, width, height) {
            return Err(LoadError::Ragged);
        }
        assert((width as u64) * (height as u64) <= u64::MAX) by (nonlinear_arith)
            requires
                width <= u32::MAX,
                height <= u32::MAX,
        ;
        if (width as u64) * (height as u64) > MAX_CELLS as u64 {
            return Err(LoadError::TooLarge);
        }
        let shelters = find_shelters(&terrain, width, height);
        let mut grid = Grid {
            width,
            height,
            terrain,
            shelters,
            agents_in_cell: vacant(width, height),
            distance_to_road: filled(width, height, None),
            distance_to_shelter: filled(width, height, None),
            shelter_agents: HashMap::new(),
            population: filled(width, height, 0),
            tsunami_data: Vec::new(),
            nrow: height,
            ncol: width,
            config,
        };
        grid.compute_distance_to_shelters();
        grid.compute_road_distances_from_agents();
        Ok(grid)
    }

    /// The refusal of a terrain with more rows or columns than fit in 32
    /// bits.
    fn refused(terrain: &Vec<Vec<Terrain>>) -> (built: Result<Grid, LoadError>)
        requires
            terrain@.len() > u32::MAX || row_length(terrain@) > u32::MAX,
        ensures
            built == Err::<Grid, LoadError>(
                if !rectangular(terrain@, row_length(terrain@), terrain@.len() as int) {
                    LoadError::Ragged
                } else {
                    LoadError::TooLarge
                },
            ),
    {
        let columns = if terrain.len() == 0 {
            0
        } else {
            terrain[0].len()
        };
        let mut y: usize = 0;
        while y < terrain.len()
            invariant
                y <= terrain@.len(),
                columns == row_length(terrain@),
                forall|r: int| 0 <= r < y ==> (#[trigger] terrain@[r])@.len() == columns,
            decreases terrain@.len() - y,
        {
            if terrain[y].len() != columns {
                return Err(LoadError::Ragged);
            }
            y = y + 1;
        }
        Err(LoadError::TooLarge)
    }
}

/// The length of the first row of `rows`; zero where there is no row.
pub open spec fn row_length<T>(rows: Seq<Vec<T>>) -> int {
    if rows.len() == 0 {
        0
    } else {
        rows[0]@.len() as int
    }
}

} // verus!
