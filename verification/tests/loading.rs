use tsunami_simulation::agent::{Agent, AgentType};
use tsunami_simulation::grid::{
    find_shelters, load_grid_from_ascii, load_grid_from_ascii_with_config, Grid, GridConfig,
    LoadError, Terrain,
};
use tsunami_simulation::load_population_and_create_agents;
use tsunami_simulation::agent::weights_are_usable;
use tsunami_simulation::simulation_game::{are_settled, Model};

const B: Terrain = Terrain::Blocked;
const R: Terrain = Terrain::Road;

fn town() -> Vec<Vec<Terrain>> {
    vec![
        vec![B, Terrain::Shelter(4), R],
        vec![R, R, Terrain::Custom(3)],
        vec![Terrain::Shelter(2), B, Terrain::Shelter(4)],
    ]
}

#[test]
fn rows_of_different_lengths_are_refused() {
    let terrain = vec![vec![R, R], vec![R]];
    assert_eq!(load_grid_from_ascii(terrain.clone(), Vec::new()).err(), Some(LoadError::Ragged));
    assert_eq!(Grid::from_terrain(terrain, GridConfig::default()).err(), Some(LoadError::Ragged));
    assert_eq!(LoadError::Ragged.message(), "Terrain rows differ in length");
    assert_eq!(LoadError::TooLarge.message(), "Terrain has too many cells");
}

#[test]
fn an_agent_off_the_grid_is_refused() {
    let positions = vec![(0, 1, AgentType::Adult), (3, 0, AgentType::Child)];
    assert_eq!(load_grid_from_ascii(town(), positions).err(), Some(LoadError::OutOfBounds));
    let positions = vec![(2, 3, AgentType::Adult)];
    assert_eq!(load_grid_from_ascii(town(), positions).err(), Some(LoadError::OutOfBounds));
    assert_eq!(LoadError::OutOfBounds.message(), "Agent position outside the grid");
    // Ragged rows are reported first.
    let ragged = vec![vec![R], vec![]];
    let positions = vec![(9, 9, AgentType::Adult)];
    assert_eq!(load_grid_from_ascii(ragged, positions).err(), Some(LoadError::Ragged));
}

#[test]
fn the_shelter_list_names_the_shelter_cells_row_by_row() {
    let (grid, agents) = load_grid_from_ascii(town(), Vec::new()).unwrap();
    assert!(agents.is_empty());
    assert_eq!(grid.shelters, vec![(1, 0, 4), (0, 2, 2), (2, 2, 4)]);
    assert_eq!(find_shelters(&town(), 3, 3), vec![(1, 0, 4), (0, 2, 2), (2, 2, 4)]);
    assert_eq!((grid.width, grid.height, grid.ncol, grid.nrow), (3, 3, 3, 3));
    assert!(grid.agents_in_cell.iter().flatten().all(|cell| cell.is_empty()));
    assert!(grid.shelter_agents.is_empty());
    assert_eq!(grid.population, vec![vec![0; 3]; 3]);
    assert!(grid.tsunami_data.is_empty());
    assert_eq!(grid.config.blocked_penalty, 2);
    assert!(!grid.config.allow_diagonal);
    assert_eq!(grid.config.shelter_capacity, -1);
    assert_eq!(grid.config.path_algorithm, "dijkstra");
}

#[test]
fn the_distance_fields_are_ready_after_loading() {
    let (grid, _) = load_grid_from_ascii(town(), Vec::new()).unwrap();
    assert_eq!(
        grid.distance_to_road,
        vec![
            vec![Some(2), Some(1), Some(0)],
            vec![Some(0), Some(0), Some(3)],
            vec![Some(1), Some(2), Some(3)],
        ]
    );
    assert_eq!(
        grid.distance_to_shelter,
        vec![
            vec![Some(2), Some(0), Some(1)],
            vec![Some(1), Some(1), Some(3)],
            vec![Some(0), Some(2), Some(0)],
        ]
    );
}

#[test]
fn the_agents_of_the_file_are_numbered_in_order_and_placed() {
    let positions =
        vec![(0, 1, AgentType::Elder), (2, 1, AgentType::Custom(3000)), (0, 2, AgentType::Teen)];
    let config = GridConfig { allow_diagonal: true, ..GridConfig::default() };
    let (grid, agents) = load_grid_from_ascii_with_config(town(), positions, config).unwrap();
    assert!(grid.config.allow_diagonal);
    let seen: Vec<(usize, u32, u32, AgentType, bool, u32, u32, bool)> = agents
        .iter()
        .map(|a| (a.id, a.x, a.y, a.agent_type, a.is_on_road, a.speed, a.remaining_steps, a.is_alive))
        .collect();
    assert_eq!(
        seen,
        vec![
            (0, 0, 1, AgentType::Elder, true, 1, 1, true),
            (1, 2, 1, AgentType::Custom(3000), false, 7, 7, true),
            (2, 0, 2, AgentType::Teen, false, 2, 2, true),
        ]
    );
    assert_eq!(grid.agents_in_cell[1][0], vec![0]);
    assert_eq!(grid.agents_in_cell[1][2], vec![1]);
    assert!(grid.agents_in_cell[2][0].is_empty());
    assert_eq!(grid.shelter_agents[&2], vec![(2, AgentType::Teen)]);
    let model = Model { grid, agents, dead_agents: 0, dead_agent_types: Vec::new() };
    assert!(model.is_safe());
}

fn loaded() -> (Grid, Vec<Agent>) {
    load_grid_from_ascii(town(), vec![(1, 1, AgentType::Adult)]).unwrap()
}

#[test]
fn a_population_with_the_wrong_number_of_rows_is_refused_and_changes_nothing() {
    let (mut grid, mut agents) = loaded();
    let before = grid.clone();
    let mut next_agent_id = 1;
    let short = vec![vec![1, 1, 1], vec![1, 1, 1]];
    let refusal =
        load_population_and_create_agents(short, 3, 3, &mut grid, &mut agents, &mut next_agent_id);
    assert_eq!(refusal, Err(LoadError::DimensionMismatch));
    assert_eq!(LoadError::DimensionMismatch.message(), "Population data dimensions don't match grid");
    assert!(grid == before);
    assert_eq!(agents.len(), 1);
    assert_eq!(next_agent_id, 1);
}

#[test]
fn every_populated_cell_gets_one_agent() {
    let (mut grid, mut agents) = loaded();
    let mut next_agent_id = 20;
    let population = vec![vec![0, 3, 0], vec![1, 0, 9], vec![0, 0, 1]];
    load_population_and_create_agents(
        population.clone(),
        3,
        3,
        &mut grid,
        &mut agents,
        &mut next_agent_id,
    )
    .unwrap();
    assert_eq!(next_agent_id, 24);
    assert_eq!(grid.population, population);
    let placed: Vec<(usize, u32, u32, bool)> =
        agents.iter().map(|a| (a.id, a.x, a.y, a.is_on_road)).collect();
    assert_eq!(
        placed,
        vec![
            (0, 1, 1, true),
            (20, 1, 0, false),
            (21, 0, 1, true),
            (22, 2, 1, false),
            (23, 2, 2, false),
        ]
    );
    for agent in &agents[1..] {
        let speed = match agent.agent_type {
            AgentType::Child => 2,
            AgentType::Teen => 2,
            AgentType::Adult => 2,
            AgentType::Elder => 1,
            AgentType::Custom(_) => panic!("a custom class was drawn"),
        };
        assert_eq!(agent.speed, speed);
        assert_eq!(agent.remaining_steps, speed);
        assert!(agent.is_alive);
    }
    assert_eq!(grid.agents_in_cell[1][0], vec![21]);
    assert_eq!(grid.agents_in_cell[1][2], vec![22]);
    // The newcomers on the two cells of shelter 4 are admitted to it.
    assert!(grid.agents_in_cell[0][1].is_empty());
    assert!(grid.agents_in_cell[2][2].is_empty());
    let admitted: Vec<usize> = grid.shelter_agents[&4].iter().map(|entry| entry.0).collect();
    assert_eq!(admitted, vec![20, 23]);
}

#[test]
fn default_speeds_follow_the_age_class() {
    let speeds: Vec<u32> = [AgentType::Child, AgentType::Teen, AgentType::Adult, AgentType::Elder]
        .iter()
        .map(|&class| Agent::new(0, 0, 0, class, false).speed)
        .collect();
    // 0.8, 1.0, 1.0 and 0.7 times 2.66, rounded down.
    assert_eq!(speeds, vec![2, 2, 2, 1]);
    assert_eq!(Agent::new(0, 0, 0, AgentType::Custom(0), false).speed, 0);
    assert_eq!(Agent::new(0, 0, 0, AgentType::Custom(376), false).speed, 1);
    assert_eq!(Agent::new(0, 0, 0, AgentType::Custom(375), false).speed, 0);
    assert_eq!(Agent::new(0, 0, 0, AgentType::Custom(u32::MAX), false).speed, 11_424_613);
}

#[test]
fn a_zero_weight_is_never_drawn() {
    for _ in 0..200 {
        assert_eq!(AgentType::random_with_weights(&[0, 1, 0, 0]), AgentType::Teen);
        assert_eq!(AgentType::random_with_weights(&[0, 0, 0, u32::MAX]), AgentType::Elder);
        assert_eq!(AgentType::random_with_weights(&[5]), AgentType::Child);
        let drawn = AgentType::random_with_weights(&[1, 0, 1]);
        assert!(drawn == AgentType::Child || drawn == AgentType::Adult);
    }
}

#[test]
fn the_default_draw_yields_every_class() {
    let mut seen = std::collections::HashSet::new();
    for _ in 0..2000 {
        let drawn = AgentType::random();
        assert!(!matches!(drawn, AgentType::Custom(_)));
        seen.insert(drawn.name());
    }
    assert_eq!(seen.len(), 4);
}

#[test]
fn age_classes_have_names_and_places() {
    assert_eq!(AgentType::Child.name(), "Child");
    assert_eq!(AgentType::Teen.name(), "Teen");
    assert_eq!(AgentType::Adult.name(), "Adult");
    assert_eq!(AgentType::Elder.name(), "Elder");
    assert_eq!(AgentType::Custom(5).name(), "Custom");
    assert_eq!(AgentType::from_index(0), AgentType::Child);
    assert_eq!(AgentType::from_index(1), AgentType::Teen);
    assert_eq!(AgentType::from_index(2), AgentType::Adult);
    assert_eq!(AgentType::from_index(3), AgentType::Elder);
    assert_eq!(AgentType::from_index(9), AgentType::Elder);
}

#[test]
fn weights_are_usable_when_they_sum_to_something_that_fits() {
    assert!(weights_are_usable(&[621, 1341, 5910, 1989]));
    assert!(weights_are_usable(&[0, 0, 1]));
    assert!(weights_are_usable(&[u32::MAX]));
    assert!(weights_are_usable(&[u32::MAX - 1, 1, 0]));
    assert!(!weights_are_usable(&[]));
    assert!(!weights_are_usable(&[0, 0, 0, 0]));
    assert!(!weights_are_usable(&[u32::MAX, 1]));
    assert!(!weights_are_usable(&[u32::MAX, u32::MAX, u32::MAX]));
}

#[test]
fn agents_are_settled_when_they_stand_on_a_well_formed_grid() {
    let (mut grid, mut agents) = loaded();
    assert!(are_settled(&grid, &agents));
    assert!(are_settled(&grid, &Vec::new()));
    agents[0].x = 3;
    assert!(!are_settled(&grid, &agents));
    agents[0].x = 2;
    assert!(are_settled(&grid, &agents));
    grid.terrain.pop();
    assert!(!are_settled(&grid, &agents));
}
