use tsunami_simulation::agent::{Agent, AgentType};
use tsunami_simulation::api::{
    hazard_at, is_ready, read_tsunami_data, run_single_step, shelter_tallies, DeadAgentTypeData,
    ShelterAgentTypeData, SimulationState, StepError,
};
use tsunami_simulation::grid::{Grid, GridConfig, Terrain};
use tsunami_simulation::simulation_game::{Model, ShelterAgentCounts};

const R: Terrain = Terrain::Road;

fn agent_of(id: usize, x: u32, y: u32, agent_type: AgentType) -> Agent {
    Agent { id, x, y, speed: 1, remaining_steps: 1, is_on_road: true, agent_type, is_alive: true }
}

fn session_model() -> Model {
    let terrain = vec![vec![R, R, Terrain::Shelter(1), R, Terrain::Shelter(5)]];
    let mut grid = Grid::from_terrain(terrain, GridConfig::default()).unwrap();
    grid.tsunami_data = read_tsunami_data("unused", 5, 1);
    let mut model = Model { grid, agents: Vec::new(), dead_agents: 0, dead_agent_types: Vec::new() };
    model.enroll(agent_of(0, 1, 0, AgentType::Elder));
    model.enroll(agent_of(1, 3, 0, AgentType::Child));
    model.enroll(agent_of(2, 0, 0, AgentType::Custom(2000)));
    model
}

#[test]
fn the_session_hazard_starts_at_the_delay_and_holds_each_frame_for_the_cadence() {
    assert_eq!(hazard_at(0), (false, 0));
    assert_eq!(hazard_at(49), (false, 0));
    assert_eq!(hazard_at(50), (true, 0));
    assert_eq!(hazard_at(77), (true, 0));
    assert_eq!(hazard_at(78), (true, 1));
    assert_eq!(hazard_at(105), (true, 1));
    assert_eq!(hazard_at(106), (true, 2));
    assert_eq!(hazard_at(302), (true, 9));
    assert_eq!(hazard_at(u32::MAX), (true, 153391687));
}

#[test]
fn the_stand_in_wave_moves_a_tenth_of_the_width_per_frame() {
    let frames = read_tsunami_data("anywhere", 20, 3);
    assert_eq!(frames.len(), 10);
    for frame in &frames {
        assert_eq!(frame.len(), 3);
        for row in frame {
            assert_eq!(row.len(), 20);
        }
    }
    let wet = |i: usize| -> Vec<usize> {
        (0..20).filter(|&x| frames[i][1][x] != 0).collect()
    };
    assert_eq!(wet(0), vec![1, 2, 3]);
    assert_eq!(wet(3), vec![7, 8, 9]);
    assert_eq!(wet(8), vec![17, 18, 19]);
    assert_eq!(wet(9), vec![19]);
    assert_eq!(frames[0][0][2], 10);
    assert_eq!(frames[0][2][2], 10);
}

#[test]
fn a_narrow_grid_gets_dry_frames() {
    let frames = read_tsunami_data("anywhere", 9, 2);
    assert_eq!(frames.len(), 10);
    assert!(frames.iter().flatten().flatten().all(|&height| height == 0));
    let none = read_tsunami_data("anywhere", 0, 0);
    assert_eq!(none.len(), 10);
    assert!(none.iter().all(|frame| frame.is_empty()));
}

#[test]
fn a_step_request_without_a_model_is_refused() {
    let mut state = SimulationState::default();
    let mut model = None;
    let refusal = run_single_step(&mut state, &mut model, None).err().unwrap();
    assert_eq!(refusal, StepError::NotInitialized);
    assert_eq!(refusal.message(), "Simulation not initialized");
    assert_eq!(state, SimulationState::default());
    // A missing model is reported before a completed session.
    state.is_completed = true;
    assert_eq!(run_single_step(&mut state, &mut model, None).err(), Some(StepError::NotInitialized));
}

#[test]
fn a_step_request_to_a_completed_session_is_refused() {
    let mut state = SimulationState { is_completed: true, current_step: 7, ..SimulationState::default() };
    let mut model = Some(session_model());
    let refusal = run_single_step(&mut state, &mut model, Some(3)).err().unwrap();
    assert_eq!(refusal, StepError::AlreadyCompleted);
    assert_eq!(refusal.message(), "Simulation already completed");
    assert_eq!(state.current_step, 7);
    assert_eq!(model.unwrap().agents.len(), 3);
}

#[test]
fn a_step_request_runs_a_tick_and_reports_it() {
    let mut state = SimulationState { is_running: true, ..SimulationState::default() };
    let mut model = Some(session_model());
    let report = run_single_step(&mut state, &mut model, Some(1)).ok().unwrap();
    assert_eq!(report.step, 0);
    assert_eq!(report.dead_agents, 0);
    assert_eq!(
        report.dead_agent_types,
        DeadAgentTypeData { child: 0, teen: 0, adult: 0, elder: 0, total: 0 }
    );
    // The elder has entered shelter 1. The child stands between the two
    // shelters and has entered shelter 5, which comes first in the order of
    // the directions.
    assert_eq!(report.shelter_data.len(), 2);
    assert_eq!(
        report.shelter_data[0],
        (1, ShelterAgentTypeData { child: 0, teen: 0, adult: 0, elder: 1 })
    );
    assert_eq!(
        report.shelter_data[1],
        (5, ShelterAgentTypeData { child: 1, teen: 0, adult: 0, elder: 0 })
    );
    assert_eq!(
        state,
        SimulationState {
            current_step: 1,
            is_tsunami: false,
            tsunami_index: 0,
            dead_agents: 0,
            is_running: true,
            is_completed: false,
        }
    );
    // The tick numbered like the maximum completes the session.
    let report = run_single_step(&mut state, &mut model, Some(1)).ok().unwrap();
    assert_eq!(report.step, 1);
    assert!(state.is_completed);
    assert_eq!(state.current_step, 2);
    assert!(run_single_step(&mut state, &mut model, Some(1)).is_err());
}

#[test]
fn a_session_counts_its_dead() {
    let mut state = SimulationState { current_step: 50, ..SimulationState::default() };
    let mut model = Some(session_model());
    model.as_mut().unwrap().grid.tsunami_data[0] = vec![vec![0, 8, 0, 8, 0]];
    let report = run_single_step(&mut state, &mut model, None).ok().unwrap();
    assert_eq!(report.step, 50);
    assert_eq!(report.dead_agents, 2);
    assert_eq!(
        report.dead_agent_types,
        DeadAgentTypeData { child: 1, teen: 0, adult: 0, elder: 1, total: 2 }
    );
    assert_eq!(state.dead_agents, 2);
    assert!(state.is_tsunami);
    assert_eq!(state.tsunami_index, 0);
    assert!(!state.is_completed);
    let survivors: Vec<usize> = model.unwrap().agents.iter().map(|a| a.id).collect();
    assert_eq!(survivors, vec![2]);
}

#[test]
fn tallies_count_the_four_classes_and_pass_over_custom_ones() {
    let classes = vec![
        AgentType::Adult,
        AgentType::Custom(1500),
        AgentType::Child,
        AgentType::Adult,
        AgentType::Elder,
        AgentType::Adult,
        AgentType::Teen,
        AgentType::Custom(1),
    ];
    let counts = ShelterAgentCounts::of_classes(&classes);
    assert_eq!((counts.child, counts.teen, counts.adult, counts.elder), (1, 1, 3, 1));
    let dead = DeadAgentTypeData::of_classes(&classes);
    assert_eq!(dead, DeadAgentTypeData { child: 1, teen: 1, adult: 3, elder: 1, total: 8 });
    let none = ShelterAgentCounts::of_classes(&Vec::new());
    assert_eq!(none, ShelterAgentCounts::new());
    let admitted = vec![(4, AgentType::Teen), (9, AgentType::Teen), (2, AgentType::Elder)];
    let counts = ShelterAgentCounts::of_admitted(&admitted);
    assert_eq!((counts.child, counts.teen, counts.adult, counts.elder), (0, 2, 0, 1));
    assert_eq!(
        ShelterAgentTypeData::from_counts(counts),
        ShelterAgentTypeData { child: 0, teen: 2, adult: 0, elder: 1 }
    );
}

#[test]
fn the_shelter_report_follows_the_shelter_list() {
    let mut model = session_model();
    model.grid.add_to_shelter(5, 40, AgentType::Adult);
    model.grid.add_to_shelter(5, 41, AgentType::Adult);
    model.grid.add_to_shelter(1, 42, AgentType::Child);
    model.grid.add_to_shelter(77, 43, AgentType::Child);
    let report = model.shelter_report();
    assert_eq!(report.len(), 2);
    assert_eq!(report[0], (1, ShelterAgentCounts { child: 1, teen: 0, adult: 0, elder: 0 }));
    assert_eq!(report[1], (5, ShelterAgentCounts { child: 0, teen: 0, adult: 2, elder: 0 }));
    let tallies = shelter_tallies(&model);
    assert_eq!(tallies[1], (5, ShelterAgentTypeData { child: 0, teen: 0, adult: 2, elder: 0 }));
    // Shelter 77 is not on the list and does not count.
    assert_eq!(model.sheltered_count(), 3);
}

#[test]
fn a_session_is_ready_while_it_has_frames_and_tick_numbers() {
    let mut model = session_model();
    let mut state = SimulationState::default();
    assert!(is_ready(&state, &model));
    state.current_step = 50 + 28 * 10 - 1;
    assert!(is_ready(&state, &model));
    state.current_step = 50 + 28 * 10;
    assert!(!is_ready(&state, &model));
    state.current_step = u32::MAX;
    assert!(!is_ready(&state, &model));
    state.current_step = 0;
    model.agents[0].y = 1;
    assert!(!is_ready(&state, &model));
}
