//! What a control interface needs of the library: the state of a session, the
//! report of a tick, and the decisions of the step request.

use crate::game::agent::AgentType;
use crate::game::game::{capped, class_count, classes_of, Model, ShelterAgentCounts};
use vstd::prelude::*;

pub use crate::simulation::ShelterAgentTypeData;

verus! {

/// The tick from which on a session has the hazard active.
pub const TSUNAMI_DELAY: u32 = 50;

/// The number of ticks that a session stays on one hazard frame.
pub const TSUNAMI_SPEED_TIME: u32 = 28;

/// The number of hazard frames that `read_tsunami_data` makes.
pub const WAVE_FRAMES: usize = 10;

/// The height of the wave in the frames that `read_tsunami_data` makes.
pub const WAVE_HEIGHT: u32 = 10;

/// Where a session stands.
#[derive(Debug, Clone, Copy, PartialEq, Eq)]
pub struct SimulationState {
    /// The number of the next tick.
    pub current_step: u32,
    pub is_tsunami: bool,
    pub tsunami_index: usize,
    /// How many agents have died so far.
    pub dead_agents: usize,
    pub is_running: bool,
    pub is_completed: bool,
}

impl Default for SimulationState {
    fn default() -> (state: Self)
        ensures
            state == (SimulationState {
                current_step: 0,
                is_tsunami: false,
                tsunami_index: 0,
                dead_agents: 0,
                is_running: false,
                is_completed: false,
            }),
    {
        SimulationState {
            current_step: 0,
            is_tsunami: false,
            tsunami_index: 0,
            dead_agents: 0,
            is_running: false,
            is_completed: false,
        }
    }
}

/// Number of dead agents of each of the four age classes, and of all
/// classes together.
#[derive(Debug, Clone, Copy, PartialEq, Eq)]
pub struct DeadAgentTypeData {
    pub child: u32,
    pub teen: u32,
    pub adult: u32,
    pub elder: u32,
    pub total: u32,
}

impl DeadAgentTypeData {
    /// Counts the age classes in `classes`.
    /// The tally counts `classes`; a count that does not fit in 32 bits
    /// stands at the largest 32-bit number.
    pub open spec fn counts(&self, classes: Seq<AgentType>) -> bool {
        &&& self.child == capped(class_count(classes, AgentType::Child))
        &&& self.teen == capped(class_count(classes, AgentType::Teen))
        &&& self.adult == capped(class_count(classes, AgentType::Adult))
        &&& self.elder == capped(class_count(classes, AgentType::Elder))
        &&& self.total == capped(classes.len() as int)
    }

    /// Counts the age classes in `classes`.
    pub fn of_classes(classes: &Vec<AgentType>) -> (data: Self)
        ensures
            data.counts(classes@),
    {
        let counts = ShelterAgentCounts::of_classes(classes);
        let total: u32 = if classes.len() > u32::MAX as usize {
            u32::MAX
        } else {
            classes.len() as u32
        };
        DeadAgentTypeData {
            child: counts.child,
            teen: counts.teen,
            adult: counts.adult,
            elder: counts.elder,
            total,
        }
    }
}

/// The number of dead agents at one tick, by age class.
pub struct DeadAgentData {
    pub step: u32,
    pub dead_agents: DeadAgentTypeData,
}

/// The report of one tick.
pub struct StepResult {
    /// The number of the tick.
    pub step: u32,
    /// How many agents have died so far.
    pub dead_agents: usize,
    /// The age classes of the agents that have died so far.
    pub dead_agent_types: DeadAgentTypeData,
    /// For each shelter of the shelter list its identifier and its tally.
    pub shelter_data: Vec<(u32, ShelterAgentTypeData)>,
}

/// Why a step request is refused.
#[derive(Debug, Clone, Copy, PartialEq, Eq)]
pub enum StepError {
    /// The session has no model.
    NotInitialized,
    /// The session has reached its last tick.
    AlreadyCompleted,
}

impl StepError {
    /// The message that goes with the refusal.
    pub fn message(&self) -> (text: &'static str)
        ensures
            text@ == match self {
                StepError::NotInitialized => "Simulation not initialized"@,
                StepError::AlreadyCompleted => "Simulation already completed"@,
            },
    {
        match self {
            StepError::NotInitialized => "Simulation not initialized",
            StepError::AlreadyCompleted => "Simulation already completed",
        }
    }
}

/// Whether the hazard of a session is active at tick `step`.
pub open spec fn hazard_active(step: u32) -> bool {
    step >= TSUNAMI_DELAY
}

/// The hazard frame of a session at tick `step`.
pub open spec fn hazard_frame(step: u32) -> int {
    if step >= TSUNAMI_DELAY {
        (step - TSUNAMI_DELAY) / (TSUNAMI_SPEED_TIME as int)
    } else {
        0
    }
}

/// The state of the hazard of a session at tick `step`: inactive before the
/// delay, and from then on at the frame that the ticks since the delay give,
/// each frame lasting the same number of ticks.
pub fn hazard_at(step: u32) -> (state: (bool, usize))
    ensures
        state.0 == hazard_active(step),
        state.1 == hazard_frame(step),
{
    if step >= TSUNAMI_DELAY {
        (true, ((step - TSUNAMI_DELAY) / TSUNAMI_SPEED_TIME) as usize)
    } else {
        (false, 0)
    }
}

/// Whether the session can take a step request without running out of
/// hazard frames or of tick numbers.
pub open spec fn can_advance(state: &SimulationState, model: &Model) -> bool {
    &&& state.current_step < u32::MAX
    &&& hazard_active(state.current_step) ==> hazard_frame(state.current_step)
        < model.grid.tsunami_data@.len()
    &&& model.safe()
}

/// Whether the session can take a step request.
pub fn is_ready(state: &SimulationState, model: &Model) -> (ready: bool)
    ensures
        ready == can_advance(state, model),
{
    if state.current_step == u32::MAX {
        return false;
    }
    let (active, frame) = hazard_at(state.current_step);
    if active && frame >= model.grid.tsunami_data.len() {
        return false;
    }
    model.is_safe()
}

/// The tally that `data` holds is that of `classes`.
pub open spec fn tallies(data: ShelterAgentTypeData, classes: Seq<AgentType>) -> bool {
    &&& data.child == capped(class_count(classes, AgentType::Child))
    &&& data.teen == capped(class_count(classes, AgentType::Teen))
    &&& data.adult == capped(class_count(classes, AgentType::Adult))
    &&& data.elder == capped(class_count(classes, AgentType::Elder))
}

/// The tally of each shelter of the shelter list, in the order of the list.
pub fn shelter_tallies(model: &Model) -> (report: Vec<(u32, ShelterAgentTypeData)>)
    ensures
        report@.len() == model.grid.shelters@.len(),
        forall|i: int|
            0 <= i < report@.len() ==> (#[trigger] report@[i]).0 == model.grid.shelters@[i].2
                && tallies(report@[i].1, classes_of(model.grid.admitted(report@[i].0))),
{
    let counted = model.shelter_report();
    let mut report: Vec<(u32, ShelterAgentTypeData)> = Vec::new();
    let mut i: usize = 0;
    while i < counted.len()
        invariant
            i <= counted@.len(),
            report@.len() == i,
            counted@.len() == model.grid.shelters@.len(),
            forall|k: int|
                0 <= k < counted@.len() ==> (#[trigger] counted@[k]).0 == model.grid.shelters@[k].2
                    && counted@[k].1.counts(classes_of(model.grid.admitted(counted@[k].0))),
            forall|k: int|
                0 <= k < i ==> (#[trigger] report@[k]).0 == model.grid.shelters@[k].2 && tallies(
                    report@[k].1,
                    classes_of(model.grid.admitted(report@[k].0)),
                ),
        decreases counted@.len() - i,
    {
        let entry = counted[i];
        assert(counted@[i as int].0 == model.grid.shelters@[i as int].2);
        report.push((entry.0, ShelterAgentTypeData::from_counts(entry.1)));
        i = i + 1;
    }
    report
}

/// Hazard frames that stand in for recorded ones: a wave two tenths of the
/// grid wide that moves one tenth of the width to the right from frame to
/// frame. In frame `i` the cell `(x, y)` is flooded where
/// `i * (ncols / 10) < x < (i + 2) * (ncols / 10)`.
pub fn read_tsunami_data(_dir_path: &str, ncols: u32, nrows: u32) -> (frames: Vec<Vec<Vec<u32>>>)
    ensures
        frames@.len() == WAVE_FRAMES,
        forall|i: int|
            0 <= i < WAVE_FRAMES ==> crate::game::grid::rectangular(
                (#[trigger] frames@[i])@,
                ncols as int,
                nrows as int,
            ),
        forall|i: int, y: int, x: int|
            0 <= i < WAVE_FRAMES && 0 <= y < nrows && 0 <= x < ncols ==> (#[trigger] frames@[i]@[y]@[x])
                == wave_height(i, x, ncols as int),
{
    let tenth: u64 = (ncols / 10) as u64;
    let mut frames: Vec<Vec<Vec<u32>>> = Vec::new();
    let mut i: usize = 0;
    while i < WAVE_FRAMES
        invariant
            i <= WAVE_FRAMES,
            tenth == ncols as int / 10,
            frames@.len() == i,
            forall|f: int|
                0 <= f < i ==> crate::game::grid::rectangular(
                    (#[trigger] frames@[f])@,
                    ncols as int,
                    nrows as int,
                ),
            forall|f: int, y: int, x: int|
                0 <= f < i && 0 <= y < nrows && 0 <= x < ncols ==> (#[trigger] frames@[f]@[y]@[x])
                    == wave_height(f, x, ncols as int),
        decreases WAVE_FRAMES - i,
    {
        assert((i as u64) * tenth <= 10 * 429_496_729 && (i as u64 + 2) * tenth <= 12 * 429_496_729)
            by (nonlinear_arith)
            requires
                0 <= i < 10,
                0 <= tenth <= 429_496_729,
        ;
        let low: u64 = (i as u64) * tenth;
        let high: u64 = (i as u64 + 2) * tenth;
        let mut frame: Vec<Vec<u32>> = Vec::new();
        let mut y: u32 = 0;
        while y < nrows
            invariant
                y <= nrows,
                i < WAVE_FRAMES,
                low == i * (ncols as int / 10),
                high == (i + 2) * (ncols as int / 10),
                frame@.len() == y,
                forall|r: int| 0 <= r < y ==> (#[trigger] frame@[r])@.len() == ncols,
                forall|r: int, x: int|
                    0 <= r < y && 0 <= x < ncols ==> (#[trigger] frame@[r]@[x]) == wave_height(
                        i as int,
                        x,
                        ncols as int,
                    ),
            decreases nrows - y,
        {
            let mut row: Vec<u32> = Vec::new();
            let mut x: u32 = 0;
            while x < ncols
                invariant
                    x <= ncols,
                    i < WAVE_FRAMES,
                    low == i * (ncols as int / 10),
                    high == (i + 2) * (ncols as int / 10),
                    row@.len() == x,
                    forall|c: int|
                        0 <= c < x ==> (#[trigger] row@[c]) == wave_height(i as int, c, ncols as int),
                decreases ncols - x,
            {
                if (x as u64) > low && (x as u64) < high {
                    row.push(WAVE_HEIGHT);
                } else {
                    row.push(0);
                }
                x = x + 1;
            }
            frame.push(row);
            y = y + 1;
        }
        frames.push(frame);
        i = i + 1;
    }
    frames
}

/// The height of the wave at column `x` in frame `i` of a grid `ncols` wide.
pub open spec fn wave_height(i: int, x: int, ncols: int) -> u32 {
    if i * (ncols / 10) < x < (i + 2) * (ncols / 10) {
        WAVE_HEIGHT
    } else {
        0
    }
}

/// Answers a step request.
///
/// The request is refused where the session has no model, and where the
/// session is completed. Otherwise the hazard is set to what the tick
/// number gives, the tick of the model runs, the tick is counted, and the
/// session is completed if the tick had the number `max_steps` or a larger
/// one. The report holds the number of the tick, the deaths so far and the
/// tally of every shelter.
pub fn run_single_step(
    state: &mut SimulationState,
    model: &mut Option<Model>,
    max_steps: Option<u32>,
) -> (result: Result<StepResult, StepError>)
    requires
        (*old(model)) is Some && !old(state).is_completed ==> can_advance(old(state), &(*old(model))->0),
    ensures
        result is Err <==> (*old(model)) is None || old(state).is_completed,
        result matches Err(e) ==> {
            &&& *final(state) == *old(state)
            &&& *final(model) == *old(model)
            &&& e == if (*old(model)) is None {
                StepError::NotInitialized
            } else {
                StepError::AlreadyCompleted
            }
        },
        result matches Ok(report) ==> {
            &&& (*final(model)) is Some
            &&& (*final(model))->0.safe()
            &&& (*final(model))->0.ticked(
                &(*old(model))->0,
                hazard_active(old(state).current_step),
                hazard_frame(old(state).current_step) as usize,
            )
            &&& *final(state) == (SimulationState {
                current_step: (old(state).current_step + 1) as u32,
                is_tsunami: hazard_active(old(state).current_step),
                tsunami_index: hazard_frame(old(state).current_step) as usize,
                dead_agents: (*final(model))->0.dead_agents,
                is_completed: max_steps matches Some(max) && old(state).current_step >= max,
                ..*old(state)
            })
            &&& report.step == old(state).current_step
            &&& report.dead_agents == (*final(model))->0.dead_agents
            &&& report.dead_agent_types.counts((*final(model))->0.dead_agent_types@)
            &&& report.shelter_data@.len() == (*final(model))->0.grid.shelters@.len()
            &&& forall|i: int|
                0 <= i < report.shelter_data@.len() ==> (#[trigger] report.shelter_data@[i]).0
                    == (*final(model))->0.grid.shelters@[i].2 && tallies(
                    report.shelter_data@[i].1,
                    classes_of((*final(model))->0.grid.admitted(report.shelter_data@[i].0)),
                )
        },
{
    if state.is_completed && model.is_some() {
        return Err(StepError::AlreadyCompleted);
    }
    match model {
        None => Err(StepError::NotInitialized),
        Some(running) => {
            let step = state.current_step;
            let (is_tsunami, tsunami_index) = hazard_at(step);
            running.step(step, is_tsunami, tsunami_index);
            let report = StepResult {
                step,
                dead_agents: running.dead_agents,
                dead_agent_types: DeadAgentTypeData::of_classes(&running.dead_agent_types),
                shelter_data: shelter_tallies(running),
            };
            state.is_tsunami = is_tsunami;
            state.tsunami_index = tsunami_index;
            state.current_step = step + 1;
            state.dead_agents = running.dead_agents;
            if let Some(max) = max_steps {
                if step >= max {
                    state.is_completed = true;
                }
            }
            Ok(report)
        },
    }
}

} // verus!
