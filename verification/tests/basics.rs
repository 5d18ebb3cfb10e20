use std::collections::HashMap;
use tsunami_simulation::agent::{Agent, AgentConfig, AgentType};
use tsunami_simulation::grid::{
    load_grid_from_ascii, load_grid_from_ascii_with_config, Grid, GridConfig, Terrain,
};
use tsunami_simulation::raster::{read_cell, read_count};
use tsunami_simulation::simulation_game::Model;
use tsunami_simulation::{
    agent_statistics, load_population_and_create_agents, AgentDataCollector, Simulation,
    SimulationConfig,
};

const TEST_GRID: &str = "ncols 10
nrows 10
xllcorner 100.0
yllcorner 200.0
cellsize 5.0
NODATA_value -9999
0 0 0 0 0 0 0 0 0 0
0 1 1 1 1 1 1 1 1 0
0 1 0 0 0 0 0 0 1 0
0 1 0 1 1 1 1 0 1 0
0 1 0 1 2001 1 1 0 1 0
0 1 0 1 1 1 1 0 1 0
0 1 0 0 0 0 0 0 1 0
0 1 1 1 1 1 1 1 1 0
0 0 0 0 0 0 0 0 0 0
0 0 0 3 4 5 6 0 0 0";

const TEST_POPULATION: &str = "ncols 10
nrows 10
xllcorner 100.0
yllcorner 200.0
cellsize 5.0
NODATA_value -9999
0 0 0 0 0 0 0 0 0 0
0 0 0 0 0 0 0 0 0 0
0 0 0 0 0 0 0 0 0 0
0 0 0 0 0 0 0 0 0 0
0 0 0 0 0 0 0 0 0 0
0 0 0 0 0 0 0 0 0 0
0 0 0 0 0 0 0 0 0 0
0 0 0 1 1 2 1 0 0 0
0 0 0 0 0 0 0 0 0 0
0 0 0 0 0 0 0 0 0 0";

const SMALL_GRID: &str = "ncols 5
nrows 5
xllcorner 100.0
yllcorner 200.0
cellsize 5.0
NODATA_value -9999
0 0 0 0 0
0 1 1 1 0
0 1 2001 1 0
0 1 1 1 0
0 0 0 0 0";

const CUSTOM_GRID: &str = "ncols 5
nrows 5
xllcorner 100.0
yllcorner 200.0
cellsize 5.0
NODATA_value -9999
0 0 0 0 0
0 1 c1.5 c2.5 0
0 1 2001 1 0
0 1 1 1 0
0 0 0 0 0";

/// Reads the cells of a raster text as a loader does: six header lines, then
/// one row per line.
fn read_cells(text: &str) -> (Vec<Vec<Terrain>>, Vec<(u32, u32, AgentType)>) {
    let mut terrain = Vec::new();
    let mut positions = Vec::new();
    for (y, line) in text.lines().skip(6).enumerate() {
        let mut row = Vec::new();
        for (x, token) in line.split_whitespace().enumerate() {
            let custom_cost = match token.strip_prefix('c') {
                Some(cost) => cost.parse::<f64>().ok().map(|cost| cost.ceil() as u32),
                None => None,
            };
            let (cell, agent) = read_cell(token.as_bytes(), custom_cost).unwrap();
            if let Some(agent_type) = agent {
                positions.push((x as u32, y as u32, agent_type));
            }
            row.push(cell);
        }
        terrain.push(row);
    }
    (terrain, positions)
}

fn read_population(text: &str) -> Vec<Vec<u32>> {
    text.lines()
        .skip(6)
        .map(|line| line.split_whitespace().map(|t| read_count(t.as_bytes())).collect())
        .collect()
}

fn bare_grid() -> Grid {
    Grid {
        width: 5,
        height: 5,
        terrain: vec![vec![Terrain::Blocked; 5]; 5],
        shelters: Vec::new(),
        agents_in_cell: vec![vec![Vec::new(); 5]; 5],
        distance_to_shelter: vec![vec![None; 5]; 5],
        shelter_agents: HashMap::new(),
        distance_to_road: vec![vec![None; 5]; 5],
        population: vec![vec![0; 5]; 5],
        tsunami_data: Vec::new(),
        nrow: 5,
        ncol: 5,
        config: GridConfig::default(),
    }
}

fn loaded_simulation() -> Simulation {
    let (terrain, positions) = read_cells(TEST_GRID);
    let (mut grid, mut agents) = load_grid_from_ascii(terrain, positions).unwrap();
    let mut next_agent_id = agents.len();
    load_population_and_create_agents(
        read_population(TEST_POPULATION),
        grid.width,
        grid.height,
        &mut grid,
        &mut agents,
        &mut next_agent_id,
    )
    .unwrap();
    Simulation::new(grid, agents)
}

#[test]
fn test_grid_loading() {
    let (terrain, positions) = read_cells(TEST_GRID);
    let (grid, agents) = load_grid_from_ascii(terrain, positions).unwrap();

    assert_eq!(grid.width, 10);
    assert_eq!(grid.height, 10);

    assert_eq!(grid.terrain[0][0], Terrain::Blocked);
    assert_eq!(grid.terrain[1][1], Terrain::Road);
    assert_eq!(grid.terrain[4][4], Terrain::Shelter(1));

    assert_eq!(agents.len(), 4);

    assert_eq!(agents[0].agent_type, AgentType::Adult);
    assert_eq!(agents[1].agent_type, AgentType::Child);
    assert_eq!(agents[2].agent_type, AgentType::Teen);
    assert_eq!(agents[3].agent_type, AgentType::Elder);
}

#[test]
fn test_grid_loading_with_config() {
    let (terrain, positions) = read_cells(TEST_GRID);
    let config = GridConfig {
        blocked_penalty: 5,
        allow_diagonal: true,
        shelter_capacity: 100,
        path_algorithm: "bfs".to_string(),
    };

    let (grid, _) = load_grid_from_ascii_with_config(terrain, positions, config.clone()).unwrap();

    assert_eq!(grid.config.blocked_penalty, 5);
    assert_eq!(grid.config.allow_diagonal, true);
    assert_eq!(grid.config.shelter_capacity, 100);
    assert_eq!(grid.config.path_algorithm, "bfs");
}

#[test]
fn test_population_loading() {
    let (terrain, positions) = read_cells(TEST_GRID);
    let (mut grid, mut agents) = load_grid_from_ascii(terrain, positions).unwrap();
    let initial_agent_count = agents.len();
    let mut next_agent_id = agents.len();

    load_population_and_create_agents(
        read_population(TEST_POPULATION),
        grid.width,
        grid.height,
        &mut grid,
        &mut agents,
        &mut next_agent_id,
    )
    .unwrap();

    let new_agent_count = agents.len() - initial_agent_count;
    assert!(new_agent_count > 0);

    assert_eq!(grid.population[7][3], 1);
    assert_eq!(grid.population[7][4], 1);
    assert_eq!(grid.population[7][5], 2);
    assert_eq!(grid.population[7][6], 1);
}

#[test]
fn test_agent_type_random_distribution() {
    let mut counts = HashMap::new();
    let config = AgentConfig {
        base_speed: 2660,
        speed_multipliers: [800, 1000, 1000, 700],
        type_weights: [2500, 2500, 2500, 2500],
    };

    for _ in 0..1000 {
        let agent_type = AgentType::random_with_weights(&config.type_weights);
        let key = match agent_type {
            AgentType::Child => "Child",
            AgentType::Teen => "Teen",
            AgentType::Adult => "Adult",
            AgentType::Elder => "Elder",
            _ => "Custom",
        };

        *counts.entry(key).or_insert(0) += 1;
    }

    assert!(counts.contains_key("Child"));
    assert!(counts.contains_key("Teen"));
    assert!(counts.contains_key("Adult"));
    assert!(counts.contains_key("Elder"));

    for count in counts.values() {
        assert!(*count > 150);
        assert!(*count < 350);
    }
}

#[test]
fn test_agent_speed_calculation() {
    let config = AgentConfig {
        base_speed: 2000,
        speed_multipliers: [500, 1000, 1500, 750],
        type_weights: [2500, 2500, 2500, 2500],
    };

    let child_agent = Agent::with_config(0, 0, 0, AgentType::Child, true, &config);
    let teen_agent = Agent::with_config(1, 0, 0, AgentType::Teen, true, &config);
    let adult_agent = Agent::with_config(2, 0, 0, AgentType::Adult, true, &config);
    let elder_agent = Agent::with_config(3, 0, 0, AgentType::Elder, true, &config);
    let custom_agent = Agent::with_config(4, 0, 0, AgentType::Custom(1250), true, &config);

    assert_eq!(child_agent.speed, 1);
    assert_eq!(teen_agent.speed, 2);
    assert_eq!(adult_agent.speed, 3);
    assert_eq!(elder_agent.speed, 1);
    assert_eq!(custom_agent.speed, 2);
}

#[test]
fn test_simulation_init_default() {
    let simulation = loaded_simulation();

    assert_eq!(simulation.config.tsunami_delay, 30 * 60);
    assert_eq!(simulation.config.tsunami_speed_time, 28);
    assert_eq!(simulation.config.distribution_weights, [10, 20, 30, 15, 20]);
    assert_eq!(simulation.config.base_speed, 2660);
    assert_eq!(simulation.config.agent_speed_multipliers, [800, 1000, 1000, 700]);

    assert_eq!(simulation.current_step, 0);
    assert_eq!(simulation.is_tsunami, false);
    assert_eq!(simulation.tsunami_index, 0);
}

#[test]
fn test_simulation_init_custom() {
    let (terrain, positions) = read_cells(TEST_GRID);
    let (grid, agents) = load_grid_from_ascii(terrain, positions).unwrap();

    let config = SimulationConfig {
        tsunami_delay: 600,
        tsunami_speed_time: 10,
        distribution_weights: [15, 15, 40, 15, 15],
        base_speed: 3000,
        agent_speed_multipliers: [700, 900, 1000, 600],
        agent_type_weights: [1000, 2000, 5000, 2000],
        data_collection_interval: 15,
    };

    let simulation = Simulation::with_config(grid, agents, config.clone());

    assert_eq!(simulation.config.tsunami_delay, 600);
    assert_eq!(simulation.config.tsunami_speed_time, 10);
    assert_eq!(simulation.config.distribution_weights, [15, 15, 40, 15, 15]);
    assert_eq!(simulation.config.base_speed, 3000);
    assert_eq!(simulation.config.agent_speed_multipliers, [700, 900, 1000, 600]);
    assert_eq!(simulation.config.agent_type_weights, [1000, 2000, 5000, 2000]);
    assert_eq!(simulation.config.data_collection_interval, 15);
}

#[test]
fn test_simulation_builder_methods() {
    let simulation = loaded_simulation()
        .with_tsunami_delay(500)
        .with_tsunami_speed_time(15)
        .with_data_collection_interval(10);

    assert_eq!(simulation.config.tsunami_delay, 500);
    assert_eq!(simulation.config.tsunami_speed_time, 15);
    assert_eq!(simulation.config.data_collection_interval, 10);
}

#[test]
fn test_pathfinding_algorithms() {
    let load = |algorithm: &str| {
        let (terrain, positions) = read_cells(SMALL_GRID);
        let config = GridConfig {
            blocked_penalty: 2,
            allow_diagonal: false,
            shelter_capacity: -1,
            path_algorithm: algorithm.to_string(),
        };
        load_grid_from_ascii_with_config(terrain, positions, config).unwrap().0
    };

    let mut grid_bfs = load("bfs");
    grid_bfs.compute_distance_to_shelters();

    let mut grid_dijkstra = load("dijkstra");
    grid_dijkstra.compute_distance_to_shelters();

    let mut grid_astar = load("a_star");
    grid_astar.compute_distance_to_shelters();

    assert!(grid_bfs.distance_to_shelter.iter().flatten().any(|&d| d.is_some()));
    assert!(grid_dijkstra.distance_to_shelter.iter().flatten().any(|&d| d.is_some()));
    assert!(grid_astar.distance_to_shelter.iter().flatten().any(|&d| d.is_some()));

    assert_eq!(grid_bfs.distance_to_shelter[2][2], Some(0));
    assert_eq!(grid_dijkstra.distance_to_shelter[2][2], Some(0));
    assert_eq!(grid_astar.distance_to_shelter[2][2], Some(0));
}

#[test]
fn test_road_distance_calculation() {
    let mut grid = bare_grid();

    for i in 1..4 {
        grid.terrain[2][i] = Terrain::Road;
        grid.terrain[i][2] = Terrain::Road;
    }

    grid.compute_road_distances_from_agents();

    for y in 0..5 {
        for x in 0..5 {
            if grid.terrain[y][x] == Terrain::Road {
                assert_eq!(grid.distance_to_road[y][x], Some(0));
            }
        }
    }

    assert!(grid.distance_to_road.iter().flatten().any(|&d| d.map_or(false, |v| v > 0)));
}

#[test]
fn test_agent_shelter_tracking() {
    let mut grid = bare_grid();
    grid.shelters = vec![(2, 2, 1)];
    grid.terrain[2][2] = Terrain::Shelter(1);

    let mut agents = Vec::new();
    let agent = Agent::new(0, 1, 1, AgentType::Adult, true);
    let agent_id = agent.id;
    let agent_type = agent.agent_type;
    agents.push(agent);

    let mut model = Model { grid, agents, dead_agents: 0, dead_agent_types: Vec::new() };

    let shelter_id = 1;
    model.grid.add_to_shelter(shelter_id, agent_id, agent_type);

    assert!(model.grid.shelter_agents.contains_key(&shelter_id));
    assert_eq!(model.grid.shelter_agents[&shelter_id].len(), 1);
    assert_eq!(model.grid.shelter_agents[&shelter_id][0].0, agent_id);
    assert_eq!(model.grid.shelter_agents[&shelter_id][0].1, agent_type);
}

#[test]
fn test_agent_data_collection() {
    let grid = bare_grid();

    let mut agents = Vec::new();
    agents.push(Agent::new(0, 1, 1, AgentType::Adult, true));
    agents.push(Agent::new(1, 2, 2, AgentType::Child, true));

    let model = Model { grid: grid.clone(), agents, dead_agents: 0, dead_agent_types: Vec::new() };

    let mut collector = AgentDataCollector::new(grid);

    collector.collect_step(&model, 0);
    collector.collect_step(&model, 1);
    collector.collect_step(&model, 2);

    assert!(!collector.get_data().is_empty());
    assert_eq!(collector.get_data().len(), 6);
}

#[test]
fn test_tsunami_propagation() {
    // The raster of the run has no hazard frames of its own; ten dry frames
    // stand in for them.
    let mut simulation = loaded_simulation().with_tsunami_delay(5).with_tsunami_speed_time(2);
    simulation.model.grid.tsunami_data = vec![vec![vec![0; 10]; 10]; 10];

    simulation.run(Some(10));

    assert!(simulation.is_tsunami);
    assert!(simulation.tsunami_index > 0);
}

#[test]
fn test_terrain_movement_costs() {
    let (terrain, positions) = read_cells(CUSTOM_GRID);
    let config = GridConfig {
        blocked_penalty: 3,
        allow_diagonal: true,
        shelter_capacity: -1,
        path_algorithm: "dijkstra".to_string(),
    };

    let (mut grid, _) = load_grid_from_ascii_with_config(terrain, positions, config).unwrap();

    grid.compute_distance_to_shelters();

    let _road_dist = grid.distance_to_shelter[1][1].unwrap();
    let custom1_dist = grid.distance_to_shelter[1][2].unwrap();
    let custom2_dist = grid.distance_to_shelter[1][3].unwrap();

    assert!(custom1_dist > 0);
    assert!(custom2_dist > 0);
}

#[test]
fn test_diagonal_movement() {
    let load = |allow_diagonal: bool| {
        let (terrain, positions) = read_cells(SMALL_GRID);
        let config = GridConfig {
            blocked_penalty: 2,
            allow_diagonal,
            shelter_capacity: -1,
            path_algorithm: "dijkstra".to_string(),
        };
        load_grid_from_ascii_with_config(terrain, positions, config).unwrap().0
    };

    let mut diagonal_grid = load(true);
    diagonal_grid.compute_distance_to_shelters();

    let mut cardinal_grid = load(false);
    cardinal_grid.compute_distance_to_shelters();

    let corner_path = cardinal_grid.distance_to_shelter[1][1].unwrap();
    let diagonal_path = diagonal_grid.distance_to_shelter[1][1].unwrap();

    assert!(diagonal_path <= corner_path);
}

#[test]
fn test_agent_statistics() {
    let mut agents = Vec::new();
    agents.push(Agent::new(0, 1, 1, AgentType::Adult, true));
    agents.push(Agent::new(1, 2, 2, AgentType::Child, true));
    agents.push(Agent::new(2, 3, 3, AgentType::Teen, true));
    agents.push(Agent::new(3, 4, 4, AgentType::Elder, true));

    let stats = agent_statistics(&agents);

    assert_eq!(stats.total_agents, 4);
    assert_eq!(stats.agent_types.child, 1);
    assert_eq!(stats.agent_types.teen, 1);
    assert_eq!(stats.agent_types.adult, 1);
    assert_eq!(stats.agent_types.elder, 1);
}
