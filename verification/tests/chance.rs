use tsunami_simulation::agent::{Agent, AgentType};
use tsunami_simulation::game::chance::{Chance, Seeded, ThreadChance};
use tsunami_simulation::grid::{Grid, GridConfig, Terrain};
use tsunami_simulation::simulation_game::{blank_flags, index_order, Model};
use tsunami_simulation::{Simulation, SimulationConfig};

const C: Terrain = Terrain::Custom(1);
const R: Terrain = Terrain::Road;

fn square(size: usize, agents: u32) -> Model {
    let mut terrain = vec![vec![C; size]; size];
    terrain[size / 2][size / 2] = R;
    let config = GridConfig { allow_diagonal: true, ..GridConfig::default() };
    let mut grid = Grid::from_terrain(terrain, config).unwrap();
    grid.tsunami_data = vec![vec![vec![0; size]; size]];
    let mut model = Model { grid, agents: Vec::new(), dead_agents: 0, dead_agent_types: Vec::new() };
    for i in 0..agents {
        model.enroll(Agent {
            id: i as usize,
            x: i % size as u32,
            y: (i / size as u32) * 2 % size as u32,
            speed: 3,
            remaining_steps: 3,
            is_on_road: false,
            agent_type: AgentType::Adult,
            is_alive: true,
        });
    }
    model
}

fn positions(model: &Model) -> Vec<(usize, u32, u32, u32)> {
    model.agents.iter().map(|a| (a.id, a.x, a.y, a.remaining_steps)).collect()
}

#[test]
fn a_seed_gives_its_numbers_by_the_stride_and_the_offset() {
    let mut chance = Seeded::new(42);
    let mut state: u64 = 42;
    for bound in [1usize, 2, 3, 10, 1000, usize::MAX] {
        state = state.wrapping_mul(6364136223846793005).wrapping_add(1442695040888963407);
        let expected = ((state >> 32) as u128 % bound as u128) as usize;
        assert_eq!(chance.below(bound), expected);
        assert_eq!(chance.state, state);
    }
    // From seed 0 the state becomes the offset, whose upper half is 335903614.
    assert_eq!(Seeded::new(0).below(1 << 20), 335903614 % (1 << 20));
    assert_eq!(Seeded::new(0).below(1000), 614);
}

#[test]
fn a_seeded_shuffle_rearranges_and_repeats() {
    let mut first = index_order(50);
    Seeded::new(7).shuffle(&mut first);
    let mut again = index_order(50);
    Seeded::new(7).shuffle(&mut again);
    assert_eq!(first, again);
    assert_ne!(first, index_order(50));
    let mut other = index_order(50);
    Seeded::new(8).shuffle(&mut other);
    assert_ne!(first, other);
    let mut sorted = first.clone();
    sorted.sort();
    assert_eq!(sorted, index_order(50));

    let mut single = vec![9];
    Seeded::new(1).shuffle(&mut single);
    assert_eq!(single, vec![9]);
    let mut none: Vec<usize> = Vec::new();
    Seeded::new(1).shuffle(&mut none);
    assert!(none.is_empty());
}

#[test]
fn a_thread_shuffle_rearranges() {
    let mut order = index_order(50);
    ThreadChance::new().shuffle(&mut order);
    assert_ne!(order, index_order(50));
    order.sort();
    assert_eq!(order, index_order(50));
}

#[test]
fn picking_takes_one_of_the_cells() {
    let cells = vec![(1, 1), (2, 2), (3, 3)];
    let mut seeded = Seeded::new(3);
    let mut thread = ThreadChance::new();
    assert_eq!(seeded.pick(&Vec::new()), None);
    assert_eq!(thread.pick(&Vec::new()), None);
    let mut seen = std::collections::HashSet::new();
    for _ in 0..200 {
        let chosen = seeded.pick(&cells).unwrap();
        assert!(cells.contains(&chosen));
        seen.insert(chosen);
        assert!(cells.contains(&thread.pick(&cells).unwrap()));
    }
    assert_eq!(seen.len(), 3);
    assert_eq!(Seeded::new(11).pick(&cells), Seeded::new(11).pick(&cells));
}

#[test]
fn the_same_seed_gives_the_same_run() {
    let mut first = square(7, 12);
    let mut second = square(7, 12);
    let mut chance_one = Seeded::new(2024);
    let mut chance_two = Seeded::new(2024);
    for tick in 0..8 {
        first.step_with(tick, false, 0, &mut chance_one);
        second.step_with(tick, false, 0, &mut chance_two);
        assert_eq!(positions(&first), positions(&second));
        assert!(first.grid == second.grid);
    }
    // Nobody has left the grid or the population, and no cell but the road
    // holds more than one agent.
    assert_eq!(first.agents.len(), 12);
    assert!(first.is_safe());
    for (y, row) in first.grid.agents_in_cell.iter().enumerate() {
        for (x, cell) in row.iter().enumerate() {
            for id in cell {
                let agent = first.agents.iter().find(|a| a.id == *id).unwrap();
                assert_eq!((agent.x as usize, agent.y as usize), (x, y));
            }
        }
    }
    let listed: usize = first.grid.agents_in_cell.iter().flatten().map(|cell| cell.len()).sum();
    assert_eq!(listed, 12);
}

#[test]
fn a_seeded_sub_step_follows_the_given_order() {
    let model = square(3, 0);
    let mut crowded = model;
    for (id, (x, y)) in [(0usize, (0u32, 1u32)), (1, (2, 1)), (2, (1, 0))].into_iter() {
        crowded.enroll(Agent {
            id,
            x,
            y,
            speed: 1,
            remaining_steps: 1,
            is_on_road: false,
            agent_type: AgentType::Teen,
            is_alive: true,
        });
    }
    // All three want the road in the middle; whoever is asked first gets it.
    for first in 0..3usize {
        let order = vec![first, (first + 1) % 3, (first + 2) % 3];
        let moves = crowded.decide_moves_with(&order, &mut Seeded::new(5));
        assert_eq!((moves[0].agent, moves[0].x, moves[0].y, moves[0].fallback), (first, 1, 1, false));
        for later in &moves[1..] {
            assert!((later.x, later.y) != (1, 1));
        }
    }
    let reserved = blank_flags(3, 3);
    let decided = crowded.find_best_move_with(&crowded.agents[0], &reserved, &mut Seeded::new(5));
    assert_eq!(decided, Some((1, 1, false)));
}

#[test]
fn a_seeded_run_repeats_tick_by_tick() {
    let start = |seed: u64| {
        let model = square(5, 6);
        let config = SimulationConfig {
            tsunami_delay: 1000,
            data_collection_interval: 2,
            ..SimulationConfig::default()
        };
        let mut simulation = Simulation::with_config(model.grid.clone(), Vec::new(), config);
        simulation.model = model;
        let mut chance = Seeded::new(seed);
        let ticks = simulation.run_with(Some(6), &mut chance);
        (ticks, simulation)
    };
    let (ticks, first) = start(99);
    let (_, second) = start(99);
    assert_eq!(ticks, 6);
    assert_eq!(first.current_step, 6);
    assert_eq!(positions(&first.model), positions(&second.model));
    let records = |s: &Simulation| -> Vec<(u32, usize, u32, u32)> {
        s.agent_data_collector.get_data().iter().map(|r| (r.step, r.id, r.x, r.y)).collect()
    };
    assert_eq!(records(&first), records(&second));
    assert_eq!(first.agent_data_collector.get_data().len(), 18);
    let mut stepping = start(99).1;
    assert!(stepping.step_with(&mut Seeded::new(1)));
    assert_eq!(stepping.current_step, 7);
}

#[test]
fn a_seeded_shuffle_exchanges_from_the_end_by_the_numbers_of_the_sequence() {
    let mut order = vec![10, 11, 12, 13, 14];
    let mut chance = Seeded::new(1);
    chance.shuffle(&mut order);
    // The same, step by step.
    let mut expected = vec![10, 11, 12, 13, 14];
    let mut state: u64 = 1;
    for i in (1..5).rev() {
        state = state.wrapping_mul(6364136223846793005).wrapping_add(1442695040888963407);
        expected.swap(i, ((state >> 32) % (i as u64 + 1)) as usize);
    }
    assert_eq!(order, expected);
    assert_eq!(chance.state, state);
    // The first number after seed 1 is 7806831264735756412, whose upper half
    // is 1817669548, which leaves 3 when divided by 5.
    let mut chance = Seeded::new(1);
    assert_eq!(chance.below(5), 3);
    assert_eq!(chance.state, 7806831264735756412);
    let cells = vec![(0, 0), (1, 1), (2, 2), (3, 3), (4, 4)];
    assert_eq!(Seeded::new(1).pick(&cells), Some((3, 3)));
}
