use std::collections::HashMap;
use tsunami_simulation::agent::{Agent, AgentType};
use tsunami_simulation::grid::{Grid, GridConfig, Terrain};
use tsunami_simulation::simulation_game::Model;

fn blank_grid(width: u32, height: u32) -> Grid {
    let w = width as usize;
    let h = height as usize;
    Grid {
        width,
        height,
        terrain: vec![vec![Terrain::Blocked; w]; h],
        shelters: Vec::new(),
        agents_in_cell: vec![vec![Vec::new(); w]; h],
        distance_to_road: vec![vec![None; w]; h],
        distance_to_shelter: vec![vec![None; w]; h],
        shelter_agents: HashMap::new(),
        population: vec![vec![0; w]; h],
        tsunami_data: Vec::new(),
        nrow: height,
        ncol: width,
        config: GridConfig::default(),
    }
}

/// A 5 by 5 grid with a plus-shaped road that crosses shelter 1 at the centre.
fn plus_grid() -> Grid {
    let mut grid = blank_grid(5, 5);
    for i in 0..5 {
        grid.terrain[2][i] = Terrain::Road;
        grid.terrain[i][2] = Terrain::Road;
    }
    grid.terrain[2][2] = Terrain::Shelter(1);
    grid.shelters.push((2, 2, 1));
    grid.compute_distance_to_shelters();
    grid.compute_road_distances_from_agents();
    grid
}

fn model_with(grid: Grid, agents: Vec<Agent>) -> Model {
    let mut grid = grid;
    for agent in &agents {
        grid.add_agent(agent.x, agent.y, agent.id);
    }
    Model { grid, agents, dead_agents: 0, dead_agent_types: Vec::new() }
}

fn listed_anywhere(model: &Model, id: usize) -> usize {
    let mut count = 0;
    for row in &model.grid.agents_in_cell {
        for cell in row {
            count += cell.iter().filter(|&&other| other == id).count();
        }
    }
    count
}

#[test]
fn adult_beside_the_road_reaches_the_shelter_within_three_ticks() {
    let agent = Agent::new(0, 1, 1, AgentType::Adult, false);
    assert_eq!(agent.speed, 2);
    let mut model = model_with(plus_grid(), vec![agent]);
    assert!(model.is_safe());
    for tick in 0..3 {
        model.step(tick, false, 0);
    }
    assert_eq!(model.agents.len(), 1);
    assert_eq!((model.agents[0].x, model.agents[0].y), (2, 2));
    let admitted = &model.grid.shelter_agents[&1];
    assert_eq!(admitted.len(), 1);
    assert_eq!(admitted[0], (0, AgentType::Adult));
    assert_eq!(listed_anywhere(&model, 0), 0);
}

#[test]
fn agent_on_a_flooded_cell_dies_and_is_counted_once() {
    let mut grid = plus_grid();
    let mut frame = vec![vec![0u32; 5]; 5];
    frame[2][0] = 10;
    grid.tsunami_data.push(frame);
    let doomed = Agent::new(7, 0, 2, AgentType::Elder, true);
    let spared = Agent::new(8, 4, 2, AgentType::Child, true);
    let mut model = model_with(grid, vec![doomed, spared]);
    model.step(0, true, 0);
    assert_eq!(model.agents.len(), 1);
    assert_eq!(model.agents[0].id, 8);
    assert_eq!(model.dead_agents, 1);
    assert_eq!(model.dead_agent_types, vec![AgentType::Elder]);
    assert_eq!(listed_anywhere(&model, 7), 0);
}

#[test]
fn two_agents_contend_for_one_cell_and_one_gets_it() {
    // A corridor of three cells: the road cell in the middle is the only
    // neighbour of either end.
    let mut grid = blank_grid(3, 1);
    grid.terrain[0][0] = Terrain::Custom(1);
    grid.terrain[0][1] = Terrain::Road;
    grid.terrain[0][2] = Terrain::Custom(1);
    grid.compute_distance_to_shelters();
    grid.compute_road_distances_from_agents();
    assert_eq!(grid.distance_to_road[0], vec![Some(1), Some(0), Some(1)]);
    let left = Agent::with_config(
        0,
        0,
        0,
        AgentType::Custom(1000),
        false,
        &tsunami_simulation::agent::AgentConfig {
            base_speed: 1000,
            speed_multipliers: [1000, 1000, 1000, 1000],
            type_weights: [1, 1, 1, 1],
        },
    );
    let mut right = left;
    right.id = 1;
    right.x = 2;
    assert_eq!(left.speed, 1);
    let mut model = model_with(grid, vec![left, right]);
    model.step(0, false, 0);
    let on_target = model.agents.iter().filter(|a| (a.x, a.y) == (1, 0)).count();
    assert_eq!(on_target, 1);
    assert_eq!(model.grid.agents_in_cell[0][1].len(), 1);
    assert_eq!(listed_anywhere(&model, 0), 1);
    assert_eq!(listed_anywhere(&model, 1), 1);
    let stayed = model.agents.iter().filter(|a| (a.x, a.y) != (1, 0)).next().unwrap();
    assert!((stayed.x, stayed.y) == (0, 0) || (stayed.x, stayed.y) == (2, 0));
}
