use tsunami_simulation::game::cost_field::{
    diagonal_step_cost, weighted_distances, Rules, Target,
};
use tsunami_simulation::game::breadth_first::unweighted_distances;
use tsunami_simulation::game::frontier::Frontier;
use tsunami_simulation::game::State;
use tsunami_simulation::grid::{neighbor, Grid, GridConfig, Terrain};

use std::cmp::Ordering;

const B: Terrain = Terrain::Blocked;
const R: Terrain = Terrain::Road;

fn config(algorithm: &str, allow_diagonal: bool, blocked_penalty: u32) -> GridConfig {
    GridConfig {
        blocked_penalty,
        allow_diagonal,
        shelter_capacity: -1,
        path_algorithm: algorithm.to_string(),
    }
}

fn grid_of(terrain: Vec<Vec<Terrain>>, config: GridConfig) -> Grid {
    Grid::from_terrain(terrain, config).unwrap()
}

#[test]
fn every_road_cell_is_at_road_distance_zero() {
    let terrain = vec![
        vec![B, R, Terrain::Custom(4)],
        vec![R, Terrain::Shelter(2), B],
        vec![Terrain::Custom(1), R, R],
    ];
    for algorithm in ["dijkstra", "bfs", "a_star"] {
        for diagonal in [false, true] {
            let grid = grid_of(terrain.clone(), config(algorithm, diagonal, 2));
            for y in 0..3 {
                for x in 0..3 {
                    if grid.terrain[y][x] == R {
                        assert_eq!(grid.distance_to_road[y][x], Some(0));
                    } else {
                        assert!(grid.distance_to_road[y][x].unwrap() > 0);
                    }
                }
            }
        }
    }
}

#[test]
fn every_shelter_cell_is_at_shelter_distance_zero() {
    let terrain = vec![
        vec![Terrain::Shelter(1), R, B],
        vec![B, B, R],
        vec![R, R, Terrain::Shelter(7)],
    ];
    for algorithm in ["dijkstra", "bfs", "a_star"] {
        for diagonal in [false, true] {
            let grid = grid_of(terrain.clone(), config(algorithm, diagonal, 2));
            assert_eq!(grid.distance_to_shelter[0][0], Some(0));
            assert_eq!(grid.distance_to_shelter[2][2], Some(0));
        }
    }
}

#[test]
fn weighted_distance_pays_for_the_cell_it_enters() {
    let terrain = vec![vec![R, Terrain::Custom(3), B, R]];
    let grid = grid_of(terrain, config("dijkstra", false, 2));
    assert_eq!(grid.distance_to_road[0], vec![Some(0), Some(3), Some(2), Some(0)]);
}

#[test]
fn blocked_penalty_is_the_configured_one() {
    let terrain = vec![vec![R, B, B]];
    let grid = grid_of(terrain, config("dijkstra", false, 7));
    assert_eq!(grid.distance_to_road[0], vec![Some(0), Some(7), Some(14)]);
}

#[test]
fn entering_a_shelter_is_free_only_on_the_way_to_shelters() {
    let terrain = vec![vec![Terrain::Shelter(1), R, Terrain::Shelter(2), Terrain::Custom(4)]];
    let grid = grid_of(terrain, config("dijkstra", false, 2));
    assert_eq!(grid.distance_to_shelter[0], vec![Some(0), Some(1), Some(0), Some(4)]);
    assert_eq!(grid.distance_to_road[0], vec![Some(1), Some(0), Some(1), Some(5)]);
}

#[test]
fn diagonal_step_costs_root_two_times_as_much_rounded_up() {
    let terrain = vec![vec![R, Terrain::Custom(5)], vec![Terrain::Custom(5), Terrain::Custom(5)]];
    let with_diagonals = grid_of(terrain.clone(), config("dijkstra", true, 2));
    assert_eq!(with_diagonals.distance_to_road[0], vec![Some(0), Some(5)]);
    assert_eq!(with_diagonals.distance_to_road[1], vec![Some(5), Some(8)]);
    let without = grid_of(terrain, config("dijkstra", false, 2));
    assert_eq!(without.distance_to_road[1], vec![Some(5), Some(10)]);
}

#[test]
fn diagonal_step_cost_has_exact_values() {
    assert_eq!(diagonal_step_cost(0), 0);
    assert_eq!(diagonal_step_cost(1), 2);
    assert_eq!(diagonal_step_cost(2), 3);
    assert_eq!(diagonal_step_cost(3), 5);
    assert_eq!(diagonal_step_cost(5), 8);
    assert_eq!(diagonal_step_cost(7), 10);
    assert_eq!(diagonal_step_cost(12), 17);
    assert_eq!(diagonal_step_cost(169), 240);
    assert_eq!(diagonal_step_cost(1000), 1415);
    for c in [u32::MAX, u32::MAX - 1, 123_456_789, 65_536] {
        let n = diagonal_step_cost(c) as u128;
        let goal = 2 * (c as u128) * (c as u128);
        assert!(n * n >= goal);
        assert!((n - 1) * (n - 1) < goal);
    }
}

#[test]
fn a_distance_that_does_not_fit_in_32_bits_is_absent() {
    let terrain = vec![vec![R, Terrain::Custom(u32::MAX), Terrain::Custom(1)]];
    let grid = grid_of(terrain, config("dijkstra", false, 2));
    assert_eq!(grid.distance_to_road[0], vec![Some(0), Some(u32::MAX), None]);
}

#[test]
fn unweighted_sweep_never_enters_blocked_cells() {
    let terrain = vec![vec![Terrain::Shelter(1), R, B, R, R]];
    let swept = grid_of(terrain.clone(), config("bfs", false, 2));
    assert_eq!(swept.distance_to_shelter[0], vec![Some(0), Some(1), None, None, None]);
    let weighted = grid_of(terrain, config("dijkstra", false, 2));
    assert_eq!(weighted.distance_to_shelter[0], vec![Some(0), Some(1), Some(3), Some(4), Some(5)]);
}

#[test]
fn unweighted_sweep_counts_steps_whatever_the_terrain() {
    let terrain = vec![
        vec![Terrain::Shelter(1), Terrain::Custom(9), Terrain::Custom(9)],
        vec![B, B, Terrain::Custom(9)],
        vec![R, R, Terrain::Custom(9)],
    ];
    let grid = grid_of(terrain, config("bfs", false, 2));
    assert_eq!(grid.distance_to_shelter[0], vec![Some(0), Some(1), Some(2)]);
    assert_eq!(grid.distance_to_shelter[1], vec![None, None, Some(3)]);
    assert_eq!(grid.distance_to_shelter[2], vec![Some(6), Some(5), Some(4)]);
}

#[test]
fn unweighted_diagonal_step_costs_two() {
    let terrain = vec![vec![Terrain::Shelter(1), B], vec![B, R]];
    let with_diagonals = grid_of(terrain.clone(), config("bfs", true, 2));
    assert_eq!(with_diagonals.distance_to_shelter[1][1], Some(2));
    let without = grid_of(terrain, config("bfs", false, 2));
    assert_eq!(without.distance_to_shelter[1][1], None);
}

#[test]
fn a_grid_without_sources_has_no_distances() {
    let terrain = vec![vec![B, Terrain::Custom(1)], vec![Terrain::Custom(2), B]];
    for algorithm in ["dijkstra", "bfs"] {
        let grid = grid_of(terrain.clone(), config(algorithm, true, 2));
        assert!(grid.distance_to_shelter.iter().flatten().all(|d| d.is_none()));
        assert!(grid.distance_to_road.iter().flatten().all(|d| d.is_none()));
    }
}

#[test]
fn an_empty_grid_has_empty_fields() {
    let grid = grid_of(Vec::new(), GridConfig::default());
    assert_eq!((grid.width, grid.height), (0, 0));
    assert!(grid.distance_to_road.is_empty());
    assert!(grid.distance_to_shelter.is_empty());
    assert!(grid.is_well_formed());
}

#[test]
fn the_search_functions_answer_to_their_rules() {
    let terrain = vec![vec![R, B, Terrain::Shelter(3)]];
    let rules = Rules { target: Target::Shelter, weighted: true, diagonal: false, blocked_penalty: 4 };
    assert_eq!(weighted_distances(&terrain, 3, 1, rules), vec![vec![Some(5), Some(4), Some(0)]]);
    let rules = Rules { target: Target::Road, weighted: false, diagonal: false, blocked_penalty: 4 };
    assert_eq!(unweighted_distances(&terrain, 3, 1, rules), vec![vec![Some(0), None, None]]);
}

/// The cost of the step from `(x, y)` onto `(nx, ny)` in the weighted search
/// for roads.
fn road_step_cost(grid: &Grid, x: u32, y: u32, nx: u32, ny: u32) -> u64 {
    let base = match grid.terrain[ny as usize][nx as usize] {
        Terrain::Blocked => grid.config.blocked_penalty,
        Terrain::Road => 1,
        Terrain::Shelter(_) => 1,
        Terrain::Custom(cost) => cost,
    };
    if x != nx && y != ny {
        diagonal_step_cost(base)
    } else {
        base as u64
    }
}

#[test]
fn distances_do_not_fall_on_the_way_out_from_a_source() {
    let terrain = vec![
        vec![B, B, Terrain::Custom(3), B, B],
        vec![B, R, R, Terrain::Custom(2), B],
        vec![Terrain::Custom(6), R, Terrain::Shelter(1), R, Terrain::Custom(1)],
        vec![B, Terrain::Custom(2), R, R, B],
        vec![B, B, Terrain::Custom(9), B, Terrain::Custom(4)],
    ];
    for diagonal in [false, true] {
        let grid = grid_of(terrain.clone(), config("dijkstra", diagonal, 3));
        let directions = if diagonal { 8 } else { 4 };
        for y in 0..5u32 {
            for x in 0..5u32 {
                let here = grid.distance_to_road[y as usize][x as usize].unwrap() as u64;
                if grid.terrain[y as usize][x as usize] == R {
                    assert_eq!(here, 0);
                    continue;
                }
                // Some neighbour is the cell before this one on a cheapest
                // route: it is no farther, by exactly the cost of the step.
                let mut has_predecessor = false;
                for k in 0..directions {
                    if let Some((px, py)) = neighbor(x, y, k, 5, 5) {
                        let there = grid.distance_to_road[py as usize][px as usize].unwrap() as u64;
                        let step = road_step_cost(&grid, px, py, x, y);
                        assert!(here <= there + step);
                        if there + step == here {
                            assert!(there <= here);
                            has_predecessor = true;
                        }
                    }
                }
                assert!(has_predecessor);
            }
        }
    }
}

#[test]
fn neighbours_come_in_the_fixed_order() {
    let expected = [(1, 2), (1, 0), (2, 1), (0, 1), (2, 2), (2, 0), (0, 2), (0, 0)];
    for (k, cell) in expected.iter().enumerate() {
        assert_eq!(neighbor(1, 1, k, 3, 3), Some(*cell));
    }
    assert_eq!(neighbor(0, 0, 1, 3, 3), None);
    assert_eq!(neighbor(0, 0, 3, 3, 3), None);
    assert_eq!(neighbor(2, 2, 0, 3, 3), None);
    assert_eq!(neighbor(2, 2, 2, 3, 3), None);
    assert_eq!(neighbor(u32::MAX, u32::MAX, 4, u32::MAX, u32::MAX), None);
}

#[test]
fn the_frontier_hands_out_the_cheapest_state_first() {
    let mut frontier = Frontier::new();
    assert_eq!(frontier.len(), 0);
    assert!(frontier.pop().is_none());
    for (i, cost) in [5u32, 1, 9, 3, 3, 0, 7, 2].iter().enumerate() {
        frontier.push(State { cost: *cost, x: i as u32, y: 0 });
    }
    assert_eq!(frontier.len(), 8);
    let mut costs = Vec::new();
    while let Some(state) = frontier.pop() {
        costs.push(state.cost);
    }
    assert_eq!(costs, vec![0, 1, 2, 3, 3, 5, 7, 9]);
    assert_eq!(frontier.len(), 0);
}

#[test]
fn the_cheaper_state_is_the_greater() {
    let cheap = State { cost: 1, x: 9, y: 9 };
    let dear = State { cost: 2, x: 0, y: 0 };
    assert_eq!(cheap.cmp(&dear), Ordering::Greater);
    assert_eq!(dear.cmp(&cheap), Ordering::Less);
    assert_eq!(cheap.partial_cmp(&dear), Some(Ordering::Greater));
    assert!(dear < cheap);
    let elsewhere = State { cost: 1, x: 0, y: 0 };
    assert_eq!(cheap.cmp(&elsewhere), Ordering::Equal);
    assert_eq!(cheap.partial_cmp(&elsewhere), Some(Ordering::Equal));
    assert!(cheap != elsewhere);
}

/// Distances by plain repeated relaxation, to compare the searches with.
fn relaxed_field(grid: &Grid, to_shelters: bool) -> Vec<Vec<Option<u64>>> {
    let (w, h) = (grid.width, grid.height);
    let mut field = vec![vec![None; w as usize]; h as usize];
    for y in 0..h as usize {
        for x in 0..w as usize {
            let source = match grid.terrain[y][x] {
                Terrain::Road => !to_shelters,
                Terrain::Shelter(_) => to_shelters,
                _ => false,
            };
            if source {
                field[y][x] = Some(0u64);
            }
        }
    }
    let directions = if grid.config.allow_diagonal { 8 } else { 4 };
    loop {
        let mut changed = false;
        for y in 0..h {
            for x in 0..w {
                let here = match field[y as usize][x as usize] {
                    Some(d) => d,
                    None => continue,
                };
                for k in 0..directions {
                    if let Some((nx, ny)) = neighbor(x, y, k, w, h) {
                        let base = match grid.terrain[ny as usize][nx as usize] {
                            Terrain::Blocked => grid.config.blocked_penalty,
                            Terrain::Road => 1,
                            Terrain::Shelter(_) => if to_shelters { 0 } else { 1 },
                            Terrain::Custom(cost) => cost,
                        };
                        let step = if nx != x && ny != y { diagonal_step_cost(base) } else { base as u64 };
                        let there = &mut field[ny as usize][nx as usize];
                        if there.map_or(true, |d| here + step < d) {
                            *there = Some(here + step);
                            changed = true;
                        }
                    }
                }
            }
        }
        if !changed {
            return field;
        }
    }
}

#[test]
fn the_weighted_search_agrees_with_plain_relaxation() {
    let mut seed: u64 = 0x2545_f491_4f6c_dd1d;
    let mut next = move |bound: u64| {
        seed ^= seed << 13;
        seed ^= seed >> 7;
        seed ^= seed << 17;
        seed % bound
    };
    for round in 0..60 {
        let width = 1 + next(6) as usize;
        let height = 1 + next(6) as usize;
        let mut terrain = vec![vec![Terrain::Blocked; width]; height];
        for row in terrain.iter_mut() {
            for cell in row.iter_mut() {
                *cell = match next(8) {
                    0 | 1 => Terrain::Blocked,
                    2 => Terrain::Road,
                    3 => Terrain::Shelter(next(3) as u32),
                    4 => Terrain::Custom(0),
                    _ => Terrain::Custom(1 + next(9) as u32),
                };
            }
        }
        let grid = grid_of(terrain, config("dijkstra", round % 2 == 0, next(5) as u32));
        for to_shelters in [false, true] {
            let expected = relaxed_field(&grid, to_shelters);
            let found = if to_shelters { &grid.distance_to_shelter } else { &grid.distance_to_road };
            for y in 0..height {
                for x in 0..width {
                    assert_eq!(found[y][x].map(|d| d as u64), expected[y][x]);
                }
            }
        }
    }
}

#[test]
fn a_swept_cell_has_a_neighbour_that_is_one_step_nearer() {
    let s = Terrain::Shelter(1);
    let c = Terrain::Custom(1);
    let terrain = vec![vec![B, B, B, s], vec![s, B, B, c], vec![B, c, B, c], vec![B, B, c, c]];
    for diagonal in [false, true] {
        let grid = grid_of(terrain.clone(), config("bfs", diagonal, 2));
        let directions = if diagonal { 8 } else { 4 };
        for y in 0..4u32 {
            for x in 0..4u32 {
                let here = match grid.distance_to_shelter[y as usize][x as usize] {
                    Some(here) => here,
                    None => continue,
                };
                if grid.terrain[y as usize][x as usize] == s {
                    assert_eq!(here, 0);
                    continue;
                }
                let mut has_predecessor = false;
                for k in 0..directions {
                    if let Some((px, py)) = neighbor(x, y, k, 4, 4) {
                        if let Some(there) = grid.distance_to_shelter[py as usize][px as usize] {
                            let step = if px != x && py != y { 2 } else { 1 };
                            if there + step == here {
                                has_predecessor = true;
                            }
                        }
                    }
                }
                assert!(has_predecessor);
            }
        }
    }
    // The sweep settles a cell when it first sees it, so that with diagonal
    // steps a value may be larger than that of the next cell on a route.
    let grid = grid_of(terrain, config("bfs", true, 2));
    assert_eq!(grid.distance_to_shelter[1][0], Some(0));
    assert_eq!(grid.distance_to_shelter[2][1], Some(2));
    assert_eq!(grid.distance_to_shelter[3][2], Some(4));
    assert_eq!(grid.distance_to_shelter[3][3], Some(3));
}
