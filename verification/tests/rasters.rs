use tsunami_simulation::agent::{Agent, AgentType};
use tsunami_simulation::grid::{Grid, GridConfig, LoadError, Terrain};
use tsunami_simulation::raster::{
    display_code, find_class, parse_u32, read_cell, read_count, read_counts, read_rows,
    write_cell, write_decimal, write_row, write_terrain, Misread, Token,
};
use tsunami_simulation::simulation_game::Model;

fn tokens(line: &str) -> Vec<Token> {
    line.split(' ')
        .filter(|text| !text.is_empty())
        .map(|text| Token {
            text: text.as_bytes().to_vec(),
            cost: if text.starts_with('c') { text[1..].parse().ok() } else { None },
        })
        .collect()
}

fn words(line: &str) -> Vec<Vec<u8>> {
    line.split(' ').filter(|text| !text.is_empty()).map(|text| text.as_bytes().to_vec()).collect()
}

fn person(id: usize, x: u32, y: u32, agent_type: AgentType) -> Agent {
    Agent { id, x, y, speed: 1, remaining_steps: 1, is_on_road: false, agent_type, is_alive: true }
}

#[test]
fn numbers_are_read_in_base_ten() {
    assert_eq!(parse_u32(b"0"), Some(0));
    assert_eq!(parse_u32(b"7"), Some(7));
    assert_eq!(parse_u32(b"007"), Some(7));
    assert_eq!(parse_u32(b"+42"), Some(42));
    assert_eq!(parse_u32(b"1234567890"), Some(1234567890));
    assert_eq!(parse_u32(b"4294967295"), Some(u32::MAX));
    assert_eq!(parse_u32(b"0000000004294967295"), Some(u32::MAX));
}

#[test]
fn what_is_no_number_is_not_read() {
    assert_eq!(parse_u32(b""), None);
    assert_eq!(parse_u32(b"+"), None);
    assert_eq!(parse_u32(b"-1"), None);
    assert_eq!(parse_u32(b"++1"), None);
    assert_eq!(parse_u32(b"1+"), None);
    assert_eq!(parse_u32(b"12a"), None);
    assert_eq!(parse_u32(b" 1"), None);
    assert_eq!(parse_u32(b"1.0"), None);
    assert_eq!(parse_u32(b"4294967296"), None);
    assert_eq!(parse_u32(b"99999999999999999999999999"), None);
    assert_eq!(parse_u32(b"4294967296x"), None);
    // The readers agree with the standard library.
    for text in ["", "+", "+0", "-0", "12", "1_0", "4294967295", "4294967296", "0x10", "\u{663}"] {
        assert_eq!(parse_u32(text.as_bytes()), text.parse::<u32>().ok());
    }
}

#[test]
fn a_population_token_that_is_no_number_counts_as_zero() {
    assert_eq!(read_count(b"3"), 3);
    assert_eq!(read_count(b"+3"), 3);
    assert_eq!(read_count(b"-9999"), 0);
    assert_eq!(read_count(b"2.5"), 0);
    assert_eq!(read_count(b""), 0);
}

#[test]
fn grid_tokens_stand_for_terrain_and_agents() {
    assert_eq!(read_cell(b"0", None), Ok((Terrain::Blocked, None)));
    assert_eq!(read_cell(b"0.0", None), Ok((Terrain::Blocked, None)));
    assert_eq!(read_cell(b"1", None), Ok((Terrain::Road, None)));
    assert_eq!(read_cell(b"2001", None), Ok((Terrain::Shelter(1), None)));
    assert_eq!(read_cell(b"2017", None), Ok((Terrain::Shelter(17), None)));
    assert_eq!(read_cell(b"200", None), Ok((Terrain::Shelter(0), None)));
    assert_eq!(read_cell(b"20+5", None), Ok((Terrain::Shelter(5), None)));
    assert_eq!(read_cell(b"3", None), Ok((Terrain::Road, Some(AgentType::Adult))));
    assert_eq!(read_cell(b"4", None), Ok((Terrain::Road, Some(AgentType::Child))));
    assert_eq!(read_cell(b"5", None), Ok((Terrain::Road, Some(AgentType::Teen))));
    assert_eq!(read_cell(b"6", None), Ok((Terrain::Road, Some(AgentType::Elder))));
    assert_eq!(read_cell(b"c1.5", Some(2)), Ok((Terrain::Custom(2), None)));
    assert_eq!(read_cell(b"c", Some(0)), Ok((Terrain::Custom(0), None)));
    assert_eq!(read_cell(b"cheap", None), Ok((Terrain::Blocked, None)));
}

#[test]
fn any_other_grid_token_is_a_blocked_cell() {
    for token in ["", "2", "7", "9", "00", "0.00", "10", "11", "30", "-1", "x", "C2", "1.0", "02001"] {
        assert_eq!(read_cell(token.as_bytes(), Some(8)), Ok((Terrain::Blocked, None)));
    }
}

#[test]
fn a_shelter_without_a_number_is_an_error() {
    for token in ["20", "20x", "20.5", "20-1", "204294967296", "20 1"] {
        assert_eq!(read_cell(token.as_bytes(), Some(8)), Err(LoadError::InvalidShelter));
    }
    assert_eq!(LoadError::InvalidShelter.message(), "Invalid shelter ID format");
}

#[test]
fn displays_tell_the_terrains_apart_by_number() {
    assert_eq!(display_code(Terrain::Blocked), 0);
    assert_eq!(display_code(Terrain::Custom(9)), 1);
    assert_eq!(display_code(Terrain::Road), 2);
    assert_eq!(display_code(Terrain::Shelter(9)), 3);
}

#[test]
fn numbers_are_written_in_base_ten() {
    assert_eq!(write_decimal(0), b"0".to_vec());
    assert_eq!(write_decimal(7), b"7".to_vec());
    assert_eq!(write_decimal(10), b"10".to_vec());
    assert_eq!(write_decimal(409), b"409".to_vec());
    assert_eq!(write_decimal(u32::MAX), b"4294967295".to_vec());
    for n in [0, 1, 9, 10, 99, 100, 12345, u32::MAX - 1, u32::MAX] {
        assert_eq!(parse_u32(&write_decimal(n)), Some(n));
    }
}

#[test]
fn a_cell_without_an_agent_shows_its_terrain() {
    assert_eq!(write_terrain(Terrain::Blocked), b"0".to_vec());
    assert_eq!(write_terrain(Terrain::Road), b"1".to_vec());
    assert_eq!(write_terrain(Terrain::Shelter(0)), b"2000".to_vec());
    assert_eq!(write_terrain(Terrain::Shelter(5)), b"2005".to_vec());
    assert_eq!(write_terrain(Terrain::Shelter(12)), b"2012".to_vec());
    assert_eq!(write_terrain(Terrain::Shelter(123)), b"20123".to_vec());
    assert_eq!(write_terrain(Terrain::Custom(7)), b"c7".to_vec());
    assert_eq!(write_terrain(Terrain::Custom(40)), b"c40".to_vec());
}

#[test]
fn the_terrain_that_is_written_is_read_back() {
    for terrain in [
        Terrain::Blocked,
        Terrain::Road,
        Terrain::Shelter(0),
        Terrain::Shelter(9),
        Terrain::Shelter(10),
        Terrain::Shelter(u32::MAX),
        Terrain::Custom(0),
        Terrain::Custom(321),
    ] {
        let cost = match terrain {
            Terrain::Custom(cost) => Some(cost),
            _ => None,
        };
        assert_eq!(read_cell(&write_terrain(terrain), cost), Ok((terrain, None)));
    }
}

#[test]
fn the_first_agent_with_an_identifier_gives_its_class() {
    let agents = vec![
        person(4, 0, 0, AgentType::Teen),
        person(2, 0, 0, AgentType::Elder),
        person(4, 0, 0, AgentType::Child),
    ];
    assert_eq!(find_class(&agents, 4), Some(AgentType::Teen));
    assert_eq!(find_class(&agents, 2), Some(AgentType::Elder));
    assert_eq!(find_class(&agents, 3), None);
    assert_eq!(find_class(&Vec::new(), 0), None);
}

#[test]
fn a_cell_shows_the_class_of_its_first_occupant() {
    let agents = vec![
        person(0, 0, 0, AgentType::Child),
        person(1, 0, 0, AgentType::Teen),
        person(2, 0, 0, AgentType::Adult),
        person(3, 0, 0, AgentType::Elder),
        person(4, 0, 0, AgentType::Custom(1500)),
    ];
    assert_eq!(write_cell(Terrain::Road, &vec![0], &agents), b"3".to_vec());
    assert_eq!(write_cell(Terrain::Road, &vec![1], &agents), b"4".to_vec());
    assert_eq!(write_cell(Terrain::Road, &vec![2], &agents), b"5".to_vec());
    assert_eq!(write_cell(Terrain::Road, &vec![3], &agents), b"6".to_vec());
    assert_eq!(write_cell(Terrain::Road, &vec![4], &agents), b"5".to_vec());
    // Only the first occupant shows.
    assert_eq!(write_cell(Terrain::Custom(2), &vec![3, 0], &agents), b"6".to_vec());
    // An occupant that is no agent shows as a blocked cell.
    assert_eq!(write_cell(Terrain::Road, &vec![9, 0], &agents), b"0".to_vec());
    // Nobody on the cell: the terrain shows.
    assert_eq!(write_cell(Terrain::Shelter(3), &Vec::new(), &agents), b"2003".to_vec());
}

#[test]
fn a_row_is_written_with_a_space_between_its_tokens() {
    let terrain = vec![
        vec![Terrain::Blocked, Terrain::Road, Terrain::Shelter(7), Terrain::Custom(3)],
        vec![Terrain::Road, Terrain::Road, Terrain::Road, Terrain::Blocked],
    ];
    let grid = Grid::from_terrain(terrain, GridConfig::default()).unwrap();
    let mut model = Model { grid, agents: Vec::new(), dead_agents: 0, dead_agent_types: Vec::new() };
    model.enroll(person(0, 1, 1, AgentType::Elder));
    model.enroll(person(1, 3, 0, AgentType::Child));
    model.enroll(person(2, 1, 1, AgentType::Teen));
    assert_eq!(write_row(&model, 0), b"0 1 2007 3".to_vec());
    assert_eq!(write_row(&model, 1), b"1 6 1 0".to_vec());

    let single = Grid::from_terrain(vec![vec![Terrain::Custom(12)]], GridConfig::default()).unwrap();
    let lone = Model { grid: single, agents: Vec::new(), dead_agents: 0, dead_agent_types: Vec::new() };
    assert_eq!(write_row(&lone, 0), b"c12".to_vec());
}

#[test]
fn the_rows_of_a_grid_are_read_line_by_line() {
    let lines = vec![
        tokens("1 0 2004 c2"),
        tokens("1 1"),
        tokens("3 4 5 6 1 1"),
        tokens(""),
        tokens("c9 6 0.0 7"),
    ];
    let (terrain, agents) = read_rows(&lines, 4, 6).unwrap();
    let b = Terrain::Blocked;
    let r = Terrain::Road;
    assert_eq!(
        terrain,
        vec![
            vec![r, b, Terrain::Shelter(4), Terrain::Custom(2)],
            // A line that is too short leaves its row blocked.
            vec![b, b, b, b],
            // Of a line that is too long the first tokens count.
            vec![r, r, r, r],
            vec![b, b, b, b],
            vec![Terrain::Custom(9), r, b, b],
            // A row without a line stays blocked.
            vec![b, b, b, b],
        ]
    );
    assert_eq!(
        agents,
        vec![
            (0, 2, AgentType::Adult),
            (1, 2, AgentType::Child),
            (2, 2, AgentType::Teen),
            (3, 2, AgentType::Elder),
            (1, 4, AgentType::Elder),
        ]
    );
}

#[test]
fn a_raster_without_lines_or_columns_is_all_blocked() {
    let (terrain, agents) = read_rows(&Vec::new(), 2, 2).unwrap();
    assert_eq!(terrain, vec![vec![Terrain::Blocked; 2]; 2]);
    assert!(agents.is_empty());
    // Without columns no token counts, however many lines there are.
    let lines = vec![tokens("3 20"), tokens("1"), tokens("4")];
    let (terrain, agents) = read_rows(&lines, 0, 1).unwrap();
    assert_eq!(terrain, vec![Vec::<Terrain>::new()]);
    assert!(agents.is_empty());
}

#[test]
fn the_first_token_that_stands_for_nothing_is_reported() {
    let lines = vec![tokens("1 1 2001"), tokens("20 1"), tokens("1 20x 20"), tokens("20 20 20")];
    assert_eq!(
        read_rows(&lines, 3, 4),
        Err(Misread { x: 1, y: 2, error: LoadError::InvalidShelter })
    );
    // A token that does not count does no harm.
    let lines = vec![tokens("1 1 20"), tokens("20")];
    assert!(read_rows(&lines, 2, 2).is_ok());
}

#[test]
fn the_rows_of_a_population_are_the_lines_that_are_long_enough() {
    let lines = vec![words("1 2 3"), words("4"), words("x 12 +7 99"), words(""), words("0 0 4294967296")];
    assert_eq!(
        read_counts(&lines, 3, 3),
        Ok(vec![vec![1, 2, 3], vec![0, 12, 7], vec![0, 0, 0]])
    );
    assert_eq!(read_counts(&lines, 3, 4), Err(LoadError::DimensionMismatch));
    assert_eq!(read_counts(&lines, 3, 2), Err(LoadError::DimensionMismatch));
    assert_eq!(read_counts(&lines, 1, 4), Ok(vec![vec![1], vec![4], vec![0], vec![0]]));
    assert_eq!(read_counts(&lines, 0, 5), Ok(vec![Vec::new(); 5]));
    assert_eq!(read_counts(&Vec::new(), 3, 0), Ok(Vec::new()));
}
