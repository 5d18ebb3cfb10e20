//! Building the world from what a loader has read: the grid with the agents
//! that its file names, and the agents that a population raster adds.

use crate::game::agent::{class_at, Agent, AgentConfig, AgentType};
use crate::game::cost_field::Target;
use crate::game::game::{in_order, place_agent, settled, world_of};
use crate::game::grid::{
    rectangular, row_length, shelter_cells, Grid, GridConfig, LoadError, Terrain, MAX_CELLS,
};
use crate::game::occupancy::ids_below;
use vstd::prelude::*;

verus! {

/// The agent that the grid file names as its `index`-th, at `position`.
pub open spec fn file_agent(
    terrain: Seq<Vec<Terrain>>,
    index: int,
    position: (u32, u32, AgentType),
) -> Agent {
    Agent::spec_with_config(
        index as usize,
        position.0,
        position.1,
        position.2,
        terrain[position.1 as int]@[position.0 as int] == Terrain::Road,
        2660,
        seq![800u32, 1000u32, 1000u32, 700u32],
    )
}

/// Some position lies off a grid of the given dimensions.
pub open spec fn strays(positions: Seq<(u32, u32, AgentType)>, width: int, height: int) -> bool {
    exists|i: int|
        0 <= i < positions.len() && !((#[trigger] positions[i]).0 < width && positions[i].1 < height)
}

/// What a grid file stands for: the grid over `terrain` as `Grid::from_terrain`
/// builds it, and on it the agents that the file names.
pub open spec fn loaded(
    terrain: Vec<Vec<Terrain>>,
    positions: Seq<(u32, u32, AgentType)>,
    config: GridConfig,
    grid: &Grid,
    agents: Seq<Agent>,
) -> bool {
    &&& grid.terrain == terrain
    &&& grid.config == config
    &&& grid.nrow == grid.height
    &&& grid.ncol == grid.width
    &&& grid.shelters@ == shelter_cells(
        terrain@,
        grid.width as int,
        grid.width as int * grid.height as int,
    )
    &&& rectangular(grid.population@, grid.width as int, grid.height as int)
    &&& forall|y: int, x: int|
        0 <= y < grid.height && 0 <= x < grid.width ==> (#[trigger] grid.population@[y]@[x]) == 0
    &&& grid.tsunami_data@.len() == 0
    &&& grid.search(Target::Road, true).least_cost_field(grid.distance_to_road.deep_view())
    &&& if grid.sweeps() {
        grid.search(Target::Shelter, false).fewest_steps_field(grid.distance_to_shelter.deep_view())
    } else {
        grid.search(Target::Shelter, true).least_cost_field(grid.distance_to_shelter.deep_view())
    }
    &&& agents.len() == positions.len()
    &&& forall|i: int|
        0 <= i < agents.len() ==> (#[trigger] agents[i]) == file_agent(terrain@, i, positions[i])
    &&& in_order(grid, agents)
    &&& ids_below(world_of(grid, agents), agents.len() as int)
}

/// Builds the grid over `terrain` with the default configuration, and on it
/// the agents at `agent_positions`.
pub fn load_grid_from_ascii(
    terrain: Vec<Vec<Terrain>>,
    agent_positions: Vec<(u32, u32, AgentType)>,
) -> (built: Result<(Grid, Vec<Agent>), LoadError>)
    ensures
        built matches Ok(pair) ==> {
            &&& loaded(terrain, agent_positions@, pair.0.config, &pair.0, pair.1@)
            &&& pair.0.config.blocked_penalty == 2
            &&& !pair.0.config.allow_diagonal
            &&& pair.0.config.shelter_capacity == -1
            &&& pair.0.config.path_algorithm@ == "dijkstra"@
        },
        built matches Err(e) ==> e == refusal(terrain@, agent_positions@),
        built is Ok <==> acceptable(terrain@, agent_positions@),
{
    load_grid_from_ascii_with_config(terrain, agent_positions, GridConfig::default())
}

/// The terrain can be a grid and every position lies on it.
pub open spec fn acceptable(terrain: Seq<Vec<Terrain>>, positions: Seq<(u32, u32, AgentType)>) -> bool {
    &&& rectangular(terrain, row_length(terrain), terrain.len() as int)
    &&& row_length(terrain) * terrain.len() <= MAX_CELLS
    &&& terrain.len() <= u32::MAX
    &&& row_length(terrain) <= u32::MAX
    &&& !strays(positions, row_length(terrain), terrain.len() as int)
}

/// The error that goes with a terrain or with positions that are not
/// acceptable: `Ragged` for rows of different lengths; failing that,
/// `TooLarge` for too many cells; failing that, `OutOfBounds`.
pub open spec fn refusal(terrain: Seq<Vec<Terrain>>, positions: Seq<(u32, u32, AgentType)>) -> LoadError {
    if !rectangular(terrain, row_length(terrain), terrain.len() as int) {
        LoadError::Ragged
    } else if !(row_length(terrain) * terrain.len() <= MAX_CELLS && terrain.len() <= u32::MAX
        && row_length(terrain) <= u32::MAX) {
        LoadError::TooLarge
    } else {
        LoadError::OutOfBounds
    }
}

/// Builds the grid over `terrain` with the configuration `config`, and on it
/// the agents at `agent_positions`, each with its position's age class and
/// the default speeds. The agents are numbered from zero in the order of the
/// positions; an agent on a shelter cell is admitted to that shelter, any
/// other is listed on its cell.
pub fn load_grid_from_ascii_with_config(
    terrain: Vec<Vec<Terrain>>,
    agent_positions: Vec<(u32, u32, AgentType)>,
    config: GridConfig,
) -> (built: Result<(Grid, Vec<Agent>), LoadError>)
    ensures
        built matches Ok(pair) ==> loaded(terrain, agent_positions@, config, &pair.0, pair.1@),
        built matches Err(e) ==> e == refusal(terrain@, agent_positions@),
        built is Ok <==> acceptable(terrain@, agent_positions@),
{
    let ghost shape = terrain@;
    let mut grid = match Grid::from_terrain(terrain, config) {
        Ok(grid) => grid,
        Err(e) => {
            return Err(e);
        },
    };
    assert(row_length(shape) == grid.width && shape.len() == grid.height);
    let agent_config = AgentConfig::default();
    let mut agents: Vec<Agent> = Vec::new();
    let ghost empty = grid;
    proof {
        lemma_nobody_is_in_order(&grid);
    }
    let mut i: usize = 0;
    while i < agent_positions.len()
        invariant
            i <= agent_positions@.len(),
            shape == terrain@,
            agent_config.base_speed == 2660,
            agent_config.speed_multipliers@ == seq![800u32, 1000u32, 1000u32, 700u32],
            grid == (Grid {
                agents_in_cell: grid.agents_in_cell,
                shelter_agents: grid.shelter_agents,
                ..empty
            }),
            empty.terrain == terrain,
            grid.width == row_length(shape),
            grid.height == shape.len(),
            agents@.len() == i,
            forall|k: int|
                0 <= k < i ==> (#[trigger] agents@[k]) == file_agent(shape, k, agent_positions@[k]),
            forall|k: int|
                0 <= k < i ==> (#[trigger] agent_positions@[k]).0 < grid.width && agent_positions@[k].1
                    < grid.height,
            in_order(&grid, agents@),
            ids_below(world_of(&grid, agents@), i as int),
        decreases agent_positions@.len() - i,
    {
        let (x, y, agent_type) = agent_positions[i];
        if x >= grid.width || y >= grid.height {
            return Err(LoadError::OutOfBounds);
        }
        let is_on_road = grid.terrain[y as usize][x as usize] == Terrain::Road;
        let agent = Agent::with_config(i, x, y, agent_type, is_on_road, &agent_config);
        place_agent(&mut grid, &mut agents, agent);
        i = i + 1;
    }
    proof {
        if strays(agent_positions@, grid.width as int, grid.height as int) {
            let k = choose|k: int|
                0 <= k < agent_positions@.len() && !((#[trigger] agent_positions@[k]).0 < grid.width
                    && agent_positions@[k].1 < grid.height);
            assert(agent_positions@[k].0 < grid.width);
        }
    }
    Ok((grid, agents))
}

/// A well-formed grid on which nobody is listed and to whose shelters nobody
/// is admitted is in order with no agents.
pub proof fn lemma_nobody_is_in_order(grid: &Grid)
    requires
        grid.wf(),
        forall|x: int, y: int|
            grid.in_bounds(x, y) ==> (#[trigger] grid.occupants(x, y)) == Seq::<usize>::empty(),
        grid.shelter_agents@ == Map::<u32, Vec<(usize, AgentType)>>::empty(),
    ensures
        in_order(grid, Seq::<Agent>::empty()),
        ids_below(world_of(grid, Seq::<Agent>::empty()), 0),
{
    let w = world_of(grid, Seq::<Agent>::empty());
    assert forall|x: int, y: int| 0 <= x < grid.width && 0 <= y < grid.height implies (
    #[trigger] w.occupancy[y][x]) == Seq::<usize>::empty() by {
        assert(grid.occupants(x, y) == Seq::<usize>::empty());
    }
}

/// The cells with a population above zero among the first `n` cells of the
/// raster, counted row by row, as `(x, y)` and in that order.
pub open spec fn populated_cells(population: Seq<Vec<u32>>, width: int, n: int) -> Seq<(u32, u32)>
    decreases n,
{
    if n <= 0 || width <= 0 {
        Seq::empty()
    } else {
        let earlier = populated_cells(population, width, n - 1);
        let x = (n - 1) % width;
        let y = (n - 1) / width;
        if population[y]@[x] != 0 {
            earlier.push((x as u32, y as u32))
        } else {
            earlier
        }
    }
}

/// Agent `a` is one that a population raster adds on `cell` under the
/// identifier `id`: an agent of one of the four age classes with the default
/// speeds.
pub open spec fn newcomer(a: Agent, id: int, cell: (u32, u32), terrain: Seq<Vec<Terrain>>) -> bool {
    exists|class: int|
        0 <= class < 4 && a == Agent::spec_with_config(
            id as usize,
            cell.0,
            cell.1,
            #[trigger] class_at(class),
            terrain[cell.1 as int]@[cell.0 as int] == Terrain::Road,
            2660,
            seq![800u32, 1000u32, 1000u32, 700u32],
        )
}

/// Adds the agents of a population raster: one agent for every cell with a
/// population above zero, row by row, each of an age class drawn at random
/// with the default weights and numbered from `next_agent_id` on. An agent
/// on a shelter cell is admitted to that shelter, any other is listed on
/// its cell. The grid keeps the raster.
///
/// The raster is refused, and nothing changes, where it does not have one
/// row for every row of the grid.
pub fn load_population_and_create_agents(
    population: Vec<Vec<u32>>,
    ncols: u32,
    nrows: u32,
    grid: &mut Grid,
    agents: &mut Vec<Agent>,
    next_agent_id: &mut usize,
) -> (added: Result<(), LoadError>)
    requires
        settled(old(grid), old(agents)@),
        ncols == old(grid).width,
        nrows == old(grid).height,
        forall|y: int| 0 <= y < population@.len() ==> (#[trigger] population@[y])@.len() == ncols,
        *old(next_agent_id) + ncols as int * nrows as int <= usize::MAX,
    ensures
        added is Err <==> population@.len() != nrows,
        added matches Err(e) ==> {
            &&& e == LoadError::DimensionMismatch
            &&& *final(grid) == *old(grid)
            &&& *final(agents) == *old(agents)
            &&& *final(next_agent_id) == *old(next_agent_id)
        },
        added is Ok ==> {
            let cells = populated_cells(population@, ncols as int, ncols as int * nrows as int);
            &&& settled(final(grid), final(agents)@)
            &&& *final(grid) == (Grid {
                population,
                agents_in_cell: final(grid).agents_in_cell,
                shelter_agents: final(grid).shelter_agents,
                ..*old(grid)
            })
            &&& final(agents)@.len() == old(agents)@.len() + cells.len()
            &&& final(agents)@.take(old(agents)@.len() as int) == old(agents)@
            &&& *final(next_agent_id) == *old(next_agent_id) + cells.len()
            &&& forall|k: int|
                0 <= k < cells.len() ==> newcomer(
                    #[trigger] final(agents)@[old(agents)@.len() + k],
                    *old(next_agent_id) + k,
                    cells[k],
                    old(grid).terrain@,
                )
            &&& in_order(old(grid), old(agents)@) && ids_below(
                world_of(old(grid), old(agents)@),
                *old(next_agent_id) as int,
            ) ==> in_order(final(grid), final(agents)@) && ids_below(
                world_of(final(grid), final(agents)@),
                *final(next_agent_id) as int,
            )
        },
{
    if population.len() != nrows as usize {
        return Err(LoadError::DimensionMismatch);
    }
    let ghost terrain = grid.terrain@;
    let ghost first = agents@.len() as int;
    let ghost first_id = *next_agent_id as int;
    let width = ncols;
    let height = nrows;
    let mut y: u32 = 0;
    assert(agents@.take(first) =~= old(agents)@);
    assert(width as int * 0 == 0);
    while y < height
        invariant
            y <= height,
            width == ncols,
            height == nrows,
            population@.len() == nrows,
            forall|r: int| 0 <= r < population@.len() ==> (#[trigger] population@[r])@.len() == ncols,
            width == grid.width,
            height == grid.height,
            terrain == old(grid).terrain@,
            first == old(agents)@.len(),
            first_id == *old(next_agent_id),
            first_id + ncols as int * nrows as int <= usize::MAX,
            settled(grid, agents@),
            *grid == (Grid {
                agents_in_cell: grid.agents_in_cell,
                shelter_agents: grid.shelter_agents,
                ..*old(grid)
            }),
            agents@.take(first) == old(agents)@,
            populated_cells(population@, width as int, width as int * y as int).len() <= width as int
                * y as int,
            agents@.len() == first + populated_cells(
                population@,
                width as int,
                width as int * y as int,
            ).len(),
            *next_agent_id == first_id + populated_cells(
                population@,
                width as int,
                width as int * y as int,
            ).len(),
            forall|k: int|
                0 <= k < populated_cells(population@, width as int, width as int * y as int).len()
                    ==> newcomer(
                    #[trigger] agents@[first + k],
                    first_id + k,
                    populated_cells(population@, width as int, width as int * y as int)[k],
                    terrain,
                ),
            in_order(old(grid), old(agents)@) && ids_below(
                world_of(old(grid), old(agents)@),
                first_id,
            ) ==> in_order(grid, agents@) && ids_below(
                world_of(grid, agents@),
                *next_agent_id as int,
            ),
        decreases height - y,
    {
        let mut x: u32 = 0;
        while x < width
            invariant
                x <= width,
                y < height,
                width == ncols,
                height == nrows,
                population@.len() == nrows,
                forall|r: int| 0 <= r < population@.len() ==> (#[trigger] population@[r])@.len() == ncols,
                width == grid.width,
                height == grid.height,
                terrain == old(grid).terrain@,
                first == old(agents)@.len(),
                first_id == *old(next_agent_id),
                first_id + ncols as int * nrows as int <= usize::MAX,
                settled(grid, agents@),
                *grid == (Grid {
                    agents_in_cell: grid.agents_in_cell,
                    shelter_agents: grid.shelter_agents,
                    ..*old(grid)
                }),
                agents@.take(first) == old(agents)@,
                populated_cells(
                    population@,
                    width as int,
                    width as int * y as int + x as int,
                ).len() <= width as int * y as int + x as int,
                agents@.len() == first + populated_cells(
                    population@,
                    width as int,
                    width as int * y as int + x as int,
                ).len(),
                *next_agent_id == first_id + populated_cells(
                    population@,
                    width as int,
                    width as int * y as int + x as int,
                ).len(),
                forall|k: int|
                    0 <= k < populated_cells(
                        population@,
                        width as int,
                        width as int * y as int + x as int,
                    ).len() ==> newcomer(
                        #[trigger] agents@[first + k],
                        first_id + k,
                        populated_cells(population@, width as int, width as int * y as int + x as int)[k],
                        terrain,
                    ),
                in_order(old(grid), old(agents)@) && ids_below(
                    world_of(old(grid), old(agents)@),
                    first_id,
                ) ==> in_order(grid, agents@) && ids_below(
                    world_of(grid, agents@),
                    *next_agent_id as int,
                ),
            decreases width - x,
        {
            let ghost n = width as int * y as int + x as int + 1;
            let ghost seen = populated_cells(population@, width as int, n - 1);
            let ghost before = agents@;
            proof {
                assert((n - 1) % (width as int) == x as int && (n - 1) / (width as int) == y as int)
                    by (nonlinear_arith)
                    requires
                        n - 1 == width as int * y as int + x as int,
                        0 <= x < width,
                        0 <= y,
                ;
                assert(n <= ncols as int * nrows as int) by (nonlinear_arith)
                    requires
                        n == width as int * y as int + x as int + 1,
                        0 <= x < width,
                        0 <= y < height,
                        width == ncols,
                        height == nrows,
                ;
            }
            if population[y as usize][x as usize] != 0 {
                let is_on_road = grid.terrain[y as usize][x as usize] == Terrain::Road;
                let agent_type = AgentType::random();
                let agent = Agent::new(*next_agent_id, x, y, agent_type, is_on_road);
                proof {
                    let class = choose|class: int| 0 <= class < 4 && agent_type == class_at(class);
                    assert(agent == Agent::spec_with_config(
                        *next_agent_id,
                        x,
                        y,
                        class_at(class),
                        terrain[y as int]@[x as int] == Terrain::Road,
                        2660,
                        seq![800u32, 1000u32, 1000u32, 700u32],
                    ));
                    assert(newcomer(agent, *next_agent_id as int, (x, y), terrain));
                }
                place_agent(grid, agents, agent);
                *next_agent_id = *next_agent_id + 1;
                proof {
                    let cells = populated_cells(population@, width as int, n);
                    assert(cells == seen.push((x, y)));
                    assert(agents@ == before.push(agent));
                    assert(agents@.take(first) =~= before.take(first));
                    assert forall|k: int| 0 <= k < cells.len() implies newcomer(
                        #[trigger] agents@[first + k],
                        first_id + k,
                        cells[k],
                        terrain,
                    ) by {
                        if k < seen.len() {
                            assert(agents@[first + k] == before[first + k]);
                            assert(cells[k] == seen[k]);
                        }
                    }
                }
            }
            x = x + 1;
        }
        assert(width as int * y as int + width as int == width as int * (y as int + 1))
            by (nonlinear_arith);
        y = y + 1;
    }
    grid.population = population;
    Ok(())
}

} // verus!
