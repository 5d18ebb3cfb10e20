use tsunami_simulation::agent::{Agent, AgentType};
use tsunami_simulation::grid::{Grid, GridConfig, Terrain};
use tsunami_simulation::simulation_game::{blank_flags, index_order, Model, Move};

const B: Terrain = Terrain::Blocked;
const R: Terrain = Terrain::Road;
const C: Terrain = Terrain::Custom(1);

fn grid_of(terrain: Vec<Vec<Terrain>>, allow_diagonal: bool) -> Grid {
    let config = GridConfig {
        blocked_penalty: 2,
        allow_diagonal,
        shelter_capacity: -1,
        path_algorithm: "dijkstra".to_string(),
    };
    Grid::from_terrain(terrain, config).unwrap()
}

fn agent_at(id: usize, x: u32, y: u32, speed: u32) -> Agent {
    Agent {
        id,
        x,
        y,
        speed,
        remaining_steps: speed,
        is_on_road: false,
        agent_type: AgentType::Adult,
        is_alive: true,
    }
}

fn model_of(grid: Grid, agents: Vec<Agent>) -> Model {
    let mut model = Model { grid, agents: Vec::new(), dead_agents: 0, dead_agent_types: Vec::new() };
    for agent in agents {
        model.enroll(agent);
    }
    model
}

fn listed(model: &Model, id: usize) -> Vec<(usize, usize)> {
    let mut cells = Vec::new();
    for (y, row) in model.grid.agents_in_cell.iter().enumerate() {
        for (x, cell) in row.iter().enumerate() {
            for &other in cell {
                if other == id {
                    cells.push((x, y));
                }
            }
        }
    }
    cells
}

/// A 3 by 3 grid of plain ground with hand-made road distances.
fn ranked_grid(distances: [[Option<u32>; 3]; 3]) -> Grid {
    let mut grid = grid_of(vec![vec![C; 3]; 3], false);
    grid.distance_to_road = distances.iter().map(|row| row.to_vec()).collect();
    grid
}

#[test]
fn off_the_road_the_nearest_neighbour_wins_and_ties_go_to_the_first_direction() {
    let grid =
        ranked_grid([[None, Some(2), None], [Some(4), Some(5), Some(2)], [None, Some(3), None]]);
    let model = model_of(grid, vec![agent_at(0, 1, 1, 1)]);
    let reserved = blank_flags(3, 3);
    // (1, 0) and (2, 1) are both at distance 2; (1, 0) comes first.
    assert_eq!(model.preferred_move(1, 1, &reserved), Some((1, 0)));
    assert_eq!(model.find_best_move(&model.agents[0], &reserved), Some((1, 0, false)));
}

#[test]
fn a_reserved_or_occupied_neighbour_is_passed_over() {
    let distances = [[None, Some(2), None], [Some(4), Some(5), Some(2)], [None, Some(3), None]];
    let model = model_of(ranked_grid(distances), vec![agent_at(0, 1, 1, 1)]);
    let mut reserved = blank_flags(3, 3);
    reserved[0][1] = true;
    assert_eq!(model.preferred_move(1, 1, &reserved), Some((2, 1)));
    reserved[1][2] = true;
    assert_eq!(model.preferred_move(1, 1, &reserved), Some((1, 2)));

    let crowded = model_of(ranked_grid(distances), vec![agent_at(0, 1, 1, 1), agent_at(1, 1, 0, 1)]);
    assert_eq!(crowded.preferred_move(1, 1, &blank_flags(3, 3)), Some((2, 1)));
}

#[test]
fn a_neighbour_at_equal_distance_is_a_candidate_and_a_farther_one_is_not() {
    let level = [[None, Some(6), None], [Some(5), Some(5), Some(7)], [None, Some(9), None]];
    let model = model_of(ranked_grid(level), vec![agent_at(0, 1, 1, 1)]);
    assert_eq!(model.preferred_move(1, 1, &blank_flags(3, 3)), Some((0, 1)));

    let uphill = [[None, Some(6), None], [Some(8), Some(5), Some(7)], [None, Some(9), None]];
    let model = model_of(ranked_grid(uphill), vec![agent_at(0, 1, 1, 1)]);
    assert_eq!(model.preferred_move(1, 1, &blank_flags(3, 3)), None);
}

#[test]
fn a_cell_without_a_road_distance_has_no_candidates() {
    let distances = [[None, Some(1), None], [Some(1), None, Some(1)], [None, Some(1), None]];
    let model = model_of(ranked_grid(distances), vec![agent_at(0, 1, 1, 1)]);
    assert_eq!(model.preferred_move(1, 1, &blank_flags(3, 3)), None);
}

#[test]
fn on_the_road_a_shelter_neighbour_wins_outright() {
    let terrain = vec![vec![C, R, C], vec![R, R, Terrain::Shelter(9)], vec![C, R, C]];
    let mut grid = grid_of(terrain, false);
    // Make the shelter look far away: it wins all the same.
    grid.distance_to_shelter[1][2] = Some(50);
    grid.distance_to_shelter[2][1] = Some(1);
    let model = model_of(grid, vec![agent_at(0, 1, 1, 1)]);
    assert_eq!(model.preferred_move(1, 1, &blank_flags(3, 3)), Some((2, 1)));
    let mut reserved = blank_flags(3, 3);
    reserved[1][2] = true;
    assert_eq!(model.preferred_move(1, 1, &reserved), Some((1, 2)));
}

#[test]
fn on_the_road_only_road_neighbours_are_candidates() {
    let terrain = vec![vec![C, C, C], vec![R, R, C], vec![C, R, C]];
    let mut grid = grid_of(terrain, false);
    grid.distance_to_shelter = vec![
        vec![None, Some(1), None],
        vec![Some(7), Some(9), Some(2)],
        vec![None, Some(6), None],
    ];
    let model = model_of(grid, vec![agent_at(0, 1, 1, 1)]);
    // (1, 0) and (2, 1) are nearer but are no road; of the two road
    // neighbours (1, 2) is the nearer. A larger distance than the agent's own
    // does not matter on the road.
    assert_eq!(model.preferred_move(1, 1, &blank_flags(3, 3)), Some((1, 2)));
}

#[test]
fn with_diagonal_steps_the_four_corners_count_too() {
    let distances = [[Some(1), Some(4), None], [Some(4), Some(5), Some(4)], [None, Some(4), None]];
    let mut grid = grid_of(vec![vec![C; 3]; 3], true);
    grid.distance_to_road = distances.iter().map(|row| row.to_vec()).collect();
    let model = model_of(grid, vec![agent_at(0, 1, 1, 1)]);
    assert_eq!(model.preferred_move(1, 1, &blank_flags(3, 3)), Some((0, 0)));

    let model = model_of(ranked_grid(distances), vec![agent_at(0, 1, 1, 1)]);
    assert_eq!(model.preferred_move(1, 1, &blank_flags(3, 3)), Some((1, 2)));
}

#[test]
fn fallback_targets_are_the_free_unblocked_neighbours_in_order() {
    let terrain = vec![vec![C, B, C], vec![C, C, C], vec![C, C, C]];
    let mut grid = grid_of(terrain, false);
    grid.distance_to_road = vec![vec![None; 3]; 3];
    let model = model_of(grid, vec![agent_at(0, 1, 1, 3), agent_at(1, 0, 1, 3)]);
    let reserved = blank_flags(3, 3);
    // (1, 2) below, (1, 0) blocked, (2, 1) right, (0, 1) occupied.
    assert_eq!(model.fallback_moves(1, 1, &reserved), vec![(1, 2), (2, 1)]);
    for _ in 0..20 {
        let outcome = model.find_best_move(&model.agents[0], &reserved).unwrap();
        assert!(outcome == (1, 2, true) || outcome == (2, 1, true));
    }
}

#[test]
fn the_fallback_choice_is_random() {
    let mut grid = grid_of(vec![vec![C; 3]; 3], false);
    grid.distance_to_road = vec![vec![None; 3]; 3];
    let model = model_of(grid, vec![agent_at(0, 1, 1, 3)]);
    let reserved = blank_flags(3, 3);
    let mut seen = std::collections::HashSet::new();
    for _ in 0..400 {
        let (x, y, fallback) = model.find_best_move(&model.agents[0], &reserved).unwrap();
        assert!(fallback);
        seen.insert((x, y));
    }
    assert_eq!(seen.len(), 4);
}

#[test]
fn an_agent_with_no_free_neighbour_stays() {
    let mut grid = grid_of(vec![vec![C, C, C]], false);
    grid.distance_to_road = vec![vec![None; 3]];
    let model = model_of(grid, vec![agent_at(0, 1, 0, 2), agent_at(1, 0, 0, 2)]);
    let mut reserved = blank_flags(3, 1);
    reserved[0][2] = true;
    assert_eq!(model.find_best_move(&model.agents[0], &reserved), None);
    assert!(model.fallback_moves(1, 0, &reserved).is_empty());
}

#[test]
fn a_normal_move_costs_one_and_a_fallback_move_two_but_never_more_than_is_left() {
    let grid = grid_of(vec![vec![C, R, C]], false);
    let mut model = model_of(grid, vec![agent_at(0, 0, 0, 5), agent_at(1, 2, 0, 5)]);
    model.commit_move(Move { agent: 0, x: 1, y: 0, fallback: false });
    assert_eq!(model.agents[0].remaining_steps, 4);
    assert_eq!((model.agents[0].x, model.agents[0].y), (1, 0));
    assert!(model.agents[0].is_on_road);
    model.commit_move(Move { agent: 0, x: 0, y: 0, fallback: true });
    assert_eq!(model.agents[0].remaining_steps, 2);
    assert!(!model.agents[0].is_on_road);

    model.agents[1].remaining_steps = 1;
    model.commit_move(Move { agent: 1, x: 1, y: 0, fallback: true });
    assert_eq!(model.agents[1].remaining_steps, 0);
    model.commit_move(Move { agent: 1, x: 2, y: 0, fallback: true });
    assert_eq!(model.agents[1].remaining_steps, 0);
}

#[test]
fn committing_a_move_relists_the_agent() {
    let grid = grid_of(vec![vec![C, R, Terrain::Shelter(4)]], false);
    let mut model = model_of(grid, vec![agent_at(3, 0, 0, 5)]);
    assert_eq!(listed(&model, 3), vec![(0, 0)]);
    model.commit_move(Move { agent: 0, x: 1, y: 0, fallback: false });
    assert_eq!(listed(&model, 3), vec![(1, 0)]);
    model.commit_move(Move { agent: 0, x: 2, y: 0, fallback: false });
    assert_eq!(listed(&model, 3), Vec::<(usize, usize)>::new());
    assert_eq!(model.grid.shelter_agents[&4], vec![(3, AgentType::Adult)]);
    assert!(model.is_in_shelter(2, 0));
    assert!(!model.is_in_shelter(1, 0));
}

#[test]
fn no_two_moves_of_a_sub_step_lead_to_the_same_cell() {
    // Four agents around the only road cell.
    let terrain = vec![vec![B, C, B], vec![C, R, C], vec![B, C, B]];
    let grid = grid_of(terrain, false);
    let agents =
        vec![agent_at(0, 1, 0, 1), agent_at(1, 0, 1, 1), agent_at(2, 2, 1, 1), agent_at(3, 1, 2, 1)];
    let model = model_of(grid, agents);
    for order in [vec![0, 1, 2, 3], vec![3, 2, 1, 0], vec![2, 0, 3, 1]] {
        let moves = model.decide_moves(&order);
        assert_eq!(moves.len(), 1);
        assert_eq!(moves[0].agent, order[0]);
        assert_eq!((moves[0].x, moves[0].y, moves[0].fallback), (1, 1, false));
    }
}

#[test]
fn targets_stay_distinct_when_many_agents_decide() {
    let grid = grid_of(vec![vec![C; 4]; 4], true);
    let mut agents = Vec::new();
    for i in 0..8u32 {
        agents.push(agent_at(i as usize, i % 4, i / 4, 2));
    }
    let model = model_of(grid, agents);
    let moves = model.decide_moves(&index_order(8));
    for (i, a) in moves.iter().enumerate() {
        for b in &moves[i + 1..] {
            assert!((a.x, a.y) != (b.x, b.y));
            assert!(a.agent != b.agent);
        }
        // Nobody moves onto a cell that was occupied when the sub-step began.
        assert!(model.grid.agents_in_cell[a.y as usize][a.x as usize].is_empty());
    }
}

#[test]
fn an_agent_moves_no_farther_in_a_tick_than_its_speed() {
    let grid = grid_of(vec![vec![C, C, C, C, C, C, R]], false);
    for speed in 0..5u32 {
        let mut model = model_of(grid.clone(), vec![agent_at(0, 0, 0, speed)]);
        model.step(0, false, 0);
        assert_eq!(model.agents[0].x, speed);
        assert_eq!(model.agents[0].remaining_steps, 0);
        assert_eq!(model.agents[0].speed, speed);
    }
}

#[test]
fn budgets_are_restored_at_the_start_of_a_tick() {
    let grid = grid_of(vec![vec![C, C, C, C, C, C, R]], false);
    let mut model = model_of(grid, vec![agent_at(0, 0, 0, 2)]);
    model.agents[0].remaining_steps = 0;
    model.step(0, false, 0);
    assert_eq!(model.agents[0].x, 2);
    model.agents[0].remaining_steps = 1;
    model.reset_budgets();
    assert_eq!(model.agents[0].remaining_steps, 2);
}

#[test]
fn the_fastest_agent_sets_the_number_of_sub_steps() {
    let grid = grid_of(vec![vec![C; 3]], false);
    let empty = model_of(grid.clone(), Vec::new());
    assert_eq!(empty.max_speed(), 1);
    let model = model_of(grid, vec![agent_at(0, 0, 0, 2), agent_at(1, 1, 0, 7), agent_at(2, 2, 0, 3)]);
    assert_eq!(model.max_speed(), 7);
}

#[test]
fn a_sheltered_agent_never_moves_again_and_is_listed_nowhere() {
    let grid = grid_of(vec![vec![R, R, Terrain::Shelter(1), R, R]], false);
    let mut model = model_of(grid, vec![agent_at(0, 0, 0, 1), agent_at(1, 4, 0, 3)]);
    for tick in 0..6 {
        model.step(tick, false, 0);
    }
    for agent in &model.agents {
        assert_eq!((agent.x, agent.y), (2, 0));
        assert!(listed(&model, agent.id).is_empty());
    }
    let admitted = &model.grid.shelter_agents[&1];
    assert_eq!(admitted.len(), 2);
    assert_eq!(admitted[0], (1, AgentType::Adult));
    assert_eq!(admitted[1], (0, AgentType::Adult));
}

#[test]
fn an_agent_that_starts_on_a_shelter_is_admitted_to_it() {
    let grid = grid_of(vec![vec![R, Terrain::Shelter(6)]], false);
    let model = model_of(grid, vec![agent_at(5, 1, 0, 1)]);
    assert!(listed(&model, 5).is_empty());
    assert_eq!(model.grid.shelter_agents[&6], vec![(5, AgentType::Adult)]);
}

#[test]
fn a_tick_without_active_agents_or_hazard_changes_only_the_budgets() {
    let grid = grid_of(vec![vec![R, Terrain::Shelter(1), R]], false);
    let mut model = model_of(grid, vec![agent_at(0, 1, 0, 2), agent_at(1, 1, 0, 3)]);
    model.agents[0].remaining_steps = 0;
    model.dead_agents = 4;
    model.dead_agent_types = vec![AgentType::Teen; 4];
    let grid_before = model.grid.clone();
    let agents_before = model.agents.clone();
    for tick in 0..3 {
        model.step(tick, false, 0);
        assert!(model.grid == grid_before);
        assert_eq!(model.dead_agents, 4);
        assert_eq!(model.dead_agent_types, vec![AgentType::Teen; 4]);
        for (after, before) in model.agents.iter().zip(&agents_before) {
            assert_eq!(after.remaining_steps, before.speed);
            assert_eq!((after.id, after.x, after.y), (before.id, before.x, before.y));
            assert_eq!(after.speed, before.speed);
            assert_eq!(after.agent_type, before.agent_type);
        }
    }
}

#[test]
fn the_order_in_which_agents_are_asked_is_shuffled() {
    let mut winners = std::collections::HashSet::new();
    for _ in 0..200 {
        let grid = grid_of(vec![vec![C, R, C]], false);
        let mut model = model_of(grid, vec![agent_at(0, 0, 0, 1), agent_at(1, 2, 0, 1)]);
        model.step(0, false, 0);
        let winner = model.agents.iter().find(|a| a.x == 1).unwrap().id;
        assert_eq!(model.grid.agents_in_cell[0][1], vec![winner]);
        winners.insert(winner);
    }
    assert_eq!(winners.len(), 2);
}

#[test]
fn taking_an_agent_off_a_cell_tolerates_absence() {
    let mut grid = grid_of(vec![vec![C, C]], false);
    grid.add_agent(0, 0, 7);
    grid.add_agent(0, 0, 8);
    grid.add_agent(0, 0, 7);
    grid.remove_agent(0, 0, 9);
    assert_eq!(grid.agents_in_cell[0][0], vec![7, 8, 7]);
    grid.remove_agent(5, 5, 7);
    grid.remove_agent(1, 0, 7);
    assert_eq!(grid.agents_in_cell[0][0], vec![7, 8, 7]);
    grid.remove_agent(0, 0, 7);
    assert_eq!(grid.agents_in_cell[0][0], vec![8, 7]);
    grid.remove_agent(0, 0, 7);
    grid.remove_agent(0, 0, 7);
    assert_eq!(grid.agents_in_cell[0][0], vec![8]);
}

#[test]
fn admission_only_ever_adds_to_a_shelter() {
    let mut grid = grid_of(vec![vec![Terrain::Shelter(1), Terrain::Shelter(2)]], false);
    grid.add_to_shelter(1, 10, AgentType::Child);
    grid.add_to_shelter(2, 11, AgentType::Elder);
    grid.add_to_shelter(1, 12, AgentType::Custom(900));
    assert_eq!(grid.shelter_agents[&1], vec![(10, AgentType::Child), (12, AgentType::Custom(900))]);
    assert_eq!(grid.shelter_agents[&2], vec![(11, AgentType::Elder)]);
    assert_eq!(grid.shelter_agents.len(), 2);
}

#[test]
fn entering_a_shelter_needs_a_shelter_cell() {
    let grid = grid_of(vec![vec![R, Terrain::Shelter(3)]], false);
    let mut model = model_of(grid, vec![agent_at(8, 0, 0, 1)]);
    model.enter_shelter(0, 0, 0);
    assert!(model.grid.shelter_agents.is_empty());
    model.enter_shelter(0, 1, 0);
    assert_eq!(model.grid.shelter_agents[&3], vec![(8, AgentType::Adult)]);
}

#[test]
fn a_model_with_an_agent_off_the_grid_is_not_safe() {
    let grid = grid_of(vec![vec![R, R]], false);
    let mut model = model_of(grid, vec![agent_at(0, 1, 0, 1)]);
    assert!(model.is_safe());
    model.agents[0].x = 2;
    assert!(!model.is_safe());
    model.agents[0].x = 0;
    model.grid.distance_to_road[0].pop();
    assert!(!model.is_safe());
    assert!(!model.grid.is_well_formed());
}

#[test]
fn the_grid_answers_for_its_shelters() {
    let mut grid = grid_of(vec![vec![R, Terrain::Shelter(3)], vec![C, B]], false);
    assert_eq!(grid.is_shelter_cell(1, 0), Some(3));
    assert_eq!(grid.is_shelter_cell(0, 0), None);
    assert_eq!(grid.is_shelter_cell(1, 1), None);
    assert_eq!(grid.is_shelter_cell(2, 0), None);
    assert_eq!(grid.is_shelter_cell(0, 2), None);
    assert_eq!(grid.occupant_count_in_shelter(3), 0);
    grid.add_to_shelter(3, 1, AgentType::Adult);
    grid.add_to_shelter(3, 2, AgentType::Child);
    assert_eq!(grid.occupant_count_in_shelter(3), 2);
    assert_eq!(grid.occupant_count_in_shelter(4), 0);
}

fn steps_between(from: (u32, u32), to: (u32, u32), diagonal: bool) -> u32 {
    let dx = from.0.abs_diff(to.0);
    let dy = from.1.abs_diff(to.1);
    if diagonal {
        dx.max(dy)
    } else {
        dx + dy
    }
}

#[test]
fn no_agent_walks_farther_than_the_budget_it_spends() {
    for diagonal in [false, true] {
        let mut terrain = vec![vec![C; 6]; 5];
        terrain[2][5] = R;
        terrain[4][0] = Terrain::Shelter(1);
        terrain[1][1] = B;
        let grid = grid_of(terrain, diagonal);
        let mut agents = Vec::new();
        for i in 0..10u32 {
            agents.push(agent_at(i as usize, i % 5, i / 5, i % 4));
        }
        let mut model = model_of(grid, agents);
        for tick in 0..8 {
            let before: Vec<(u32, u32)> = model.agents.iter().map(|a| (a.x, a.y)).collect();
            model.step(tick, false, 0);
            for (agent, from) in model.agents.iter().zip(before) {
                let walked = steps_between(from, (agent.x, agent.y), diagonal);
                assert!(walked + agent.remaining_steps <= agent.speed);
                if agent.speed == 0 {
                    assert_eq!((agent.x, agent.y), from);
                }
            }
        }
    }
}

#[test]
fn no_cell_ever_lists_two_agents() {
    for diagonal in [false, true] {
        let mut terrain = vec![vec![C; 5]; 4];
        terrain[3][4] = Terrain::Shelter(2);
        terrain[3][3] = R;
        terrain[2][4] = R;
        let grid = grid_of(terrain, diagonal);
        let mut agents = Vec::new();
        for i in 0..12u32 {
            agents.push(agent_at(i as usize, i % 4, i / 4, 1 + i % 3));
        }
        let mut model = model_of(grid, agents);
        for tick in 0..12 {
            model.step(tick, false, 0);
            for row in &model.grid.agents_in_cell {
                for cell in row {
                    assert!(cell.len() <= 1);
                }
            }
            // Two agents share a cell only inside a shelter.
            for (i, a) in model.agents.iter().enumerate() {
                for b in &model.agents[i + 1..] {
                    if (a.x, a.y) == (b.x, b.y) {
                        assert_eq!(model.grid.terrain[a.y as usize][a.x as usize], Terrain::Shelter(2));
                    }
                }
            }
        }
        assert_eq!(model.agents.len(), 12);
    }
}

#[test]
fn the_agents_that_move_in_a_sub_step_end_on_different_cells() {
    let terrain = vec![vec![B, C, B], vec![C, R, C], vec![B, C, B]];
    let grid = grid_of(terrain, false);
    let agents =
        vec![agent_at(0, 1, 0, 1), agent_at(1, 0, 1, 1), agent_at(2, 2, 1, 1), agent_at(3, 1, 2, 1)];
    let mut model = model_of(grid, agents);
    let before: Vec<(u32, u32)> = model.agents.iter().map(|a| (a.x, a.y)).collect();
    model.sub_step(&vec![2, 0, 3, 1]);
    let moved: Vec<usize> =
        (0..4).filter(|&i| (model.agents[i].x, model.agents[i].y) != before[i]).collect();
    assert_eq!(moved, vec![2]);
    assert_eq!((model.agents[2].x, model.agents[2].y), (1, 1));
    assert_eq!(model.grid.agents_in_cell[1][1], vec![2]);
}
