//! The driver of a run: the hazard clock, the tick counter and the record of
//! where the agents were.

use crate::game::agent::{Agent, AgentType};
use crate::game::chance::{Chance, ThreadChance};
use crate::game::game::{Model, ShelterAgentCounts};
use crate::game::grid::Grid;
use vstd::prelude::*;

verus! {

/// The default number of ticks before the hazard becomes active.
pub const TSUNAMI_DELAY: u32 = 30 * 60;

/// The default number of ticks between two hazard frames.
pub const TSUNAMI_SPEED_TIME: u32 = 28;

/// The default weights of the population distribution.
pub const DISTRIBUTION_WEIGHTS: [i32; 5] = [10, 20, 30, 15, 20];

/// The parameters of a run.
///
/// `base_speed` and `agent_speed_multipliers` count thousandths;
/// `agent_type_weights` are relative weights. The four entries of the tables
/// stand for `Child`, `Teen`, `Adult`, `Elder`, in that order.
#[derive(Debug, Clone, Copy)]
pub struct SimulationConfig {
    /// The hazard becomes active once the tick counter exceeds this.
    pub tsunami_delay: u32,
    /// While the hazard is active, the frame advances at every tick whose
    /// number is a multiple of this.
    pub tsunami_speed_time: u32,
    pub distribution_weights: [i32; 5],
    pub base_speed: u32,
    pub agent_speed_multipliers: [u32; 4],
    pub agent_type_weights: [u32; 4],
    /// The agents are recorded at every tick whose number is a multiple of
    /// this.
    pub data_collection_interval: u32,
}

impl Default for SimulationConfig {
    fn default() -> (config: Self)
        ensures
            config.tsunami_delay == 1800,
            config.tsunami_speed_time == 28,
            config.distribution_weights@ == seq![10i32, 20i32, 30i32, 15i32, 20i32],
            config.base_speed == 2660,
            config.agent_speed_multipliers@ == seq![800u32, 1000u32, 1000u32, 700u32],
            config.agent_type_weights@ == seq![621u32, 1341u32, 5910u32, 1989u32],
            config.data_collection_interval == 30,
    {
        let config = SimulationConfig {
            tsunami_delay: 30 * 60,
            tsunami_speed_time: 28,
            distribution_weights: [10, 20, 30, 15, 20],
            base_speed: 2660,
            agent_speed_multipliers: [800, 1000, 1000, 700],
            agent_type_weights: [621, 1341, 5910, 1989],
            data_collection_interval: 30,
        };
        assert(config.distribution_weights@ =~= seq![10i32, 20i32, 30i32, 15i32, 20i32]);
        assert(config.agent_speed_multipliers@ =~= seq![800u32, 1000u32, 1000u32, 700u32]);
        assert(config.agent_type_weights@ =~= seq![621u32, 1341u32, 5910u32, 1989u32]);
        config
    }
}

/// Number of sheltered agents of each of the four age classes.
#[derive(Debug, Clone, Copy, PartialEq, Eq)]
pub struct ShelterAgentTypeData {
    pub child: u32,
    pub teen: u32,
    pub adult: u32,
    pub elder: u32,
}

impl Default for ShelterAgentTypeData {
    fn default() -> (data: Self)
        ensures
            data.child == 0,
            data.teen == 0,
            data.adult == 0,
            data.elder == 0,
    {
        ShelterAgentTypeData { child: 0, teen: 0, adult: 0, elder: 0 }
    }
}

impl ShelterAgentTypeData {
    /// The same numbers as `counts`.
    pub fn from_counts(counts: ShelterAgentCounts) -> (data: Self)
        ensures
            data.child == counts.child,
            data.teen == counts.teen,
            data.adult == counts.adult,
            data.elder == counts.elder,
    {
        ShelterAgentTypeData {
            child: counts.child,
            teen: counts.teen,
            adult: counts.adult,
            elder: counts.elder,
        }
    }
}

/// The state of the shelters at one tick: for each shelter of the shelter
/// list its identifier and its tally.
pub struct ShelterData {
    pub step: u32,
    pub shelters: Vec<(u32, ShelterAgentTypeData)>,
    pub total_dead_agents: usize,
}

/// The shelter records of a run.
pub struct SimulationData {
    pub records: Vec<ShelterData>,
}

/// How many agents there are, in all and of each of the four age classes.
pub struct AgentStatistics {
    pub total_agents: usize,
    pub agent_types: ShelterAgentCounts,
}

/// Where one agent was at one tick.
#[derive(Debug, Clone, Copy)]
pub struct AgentStepData {
    /// The agent's cell.
    pub x: u32,
    pub y: u32,
    pub id: usize,
    pub agent_type: AgentType,
    pub is_on_road: bool,
    pub speed: u32,
    pub step: u32,
}

/// The record of agent `a` at tick `step`.
pub open spec fn snapshot(a: Agent, step: u32) -> AgentStepData {
    AgentStepData {
        x: a.x,
        y: a.y,
        id: a.id,
        agent_type: a.agent_type,
        is_on_road: a.is_on_road,
        speed: a.speed,
        step,
    }
}

/// The records of the living among the first `n` of `agents` at tick `step`,
/// in the order of the agents.
pub open spec fn snapshots(agents: Seq<Agent>, step: u32, n: int) -> Seq<AgentStepData>
    decreases n,
{
    if n <= 0 {
        Seq::empty()
    } else {
        let earlier = snapshots(agents, step, n - 1);
        if agents[n - 1].is_alive {
            earlier.push(snapshot(agents[n - 1], step))
        } else {
            earlier
        }
    }
}

/// Records where the agents were, tick by tick.
pub struct AgentDataCollector {
    data: Vec<AgentStepData>,
    /// The grid as it was when the collector was made.
    grid: Grid,
}

impl View for AgentDataCollector {
    type V = Seq<AgentStepData>;

    /// The records, oldest first.
    closed spec fn view(&self) -> Seq<AgentStepData> {
        self.data@
    }
}

impl AgentDataCollector {
    /// The grid that the collector was made for.
    pub closed spec fn grid(&self) -> Grid {
        self.grid
    }

    /// A collector without records, which keeps `grid`.
    pub fn new(grid: Grid) -> (collector: Self)
        ensures
            collector@ == Seq::<AgentStepData>::empty(),
            collector.grid() == grid,
    {
        AgentDataCollector { data: Vec::new(), grid }
    }

    /// The grid that the collector was made for.
    pub fn get_grid(&self) -> (grid: &Grid)
        ensures
            *grid == self.grid(),
    {
        &self.grid
    }

    /// Records every living agent of `model` under tick `step`. The grid
    /// that the collector keeps stays as it is.
    pub fn collect_step(&mut self, model: &Model, step: u32)
        ensures
            final(self)@ == old(self)@ + snapshots(model.agents@, step, model.agents@.len() as int),
            final(self).grid() == old(self).grid(),
    {
        let mut i: usize = 0;
        assert(self@ =~= old(self)@ + snapshots(model.agents@, step, 0));
        while i < model.agents.len()
            invariant
                i <= model.agents@.len(),
                self@ == old(self)@ + snapshots(model.agents@, step, i as int),
                self.grid() == old(self).grid(),
            decreases model.agents@.len() - i,
        {
            let a = model.agents[i];
            if a.is_alive {
                self.data.push(
                    AgentStepData {
                        x: a.x,
                        y: a.y,
                        id: a.id,
                        agent_type: a.agent_type,
                        is_on_road: a.is_on_road,
                        speed: a.speed,
                        step,
                    },
                );
            }
            assert(self@ =~= old(self)@ + snapshots(model.agents@, step, i as int + 1));
            i = i + 1;
        }
    }

    /// The records, oldest first.
    pub fn get_data(&self) -> (data: &Vec<AgentStepData>)
        ensures
            data@ == self@,
    {
        &self.data
    }
}

/// How many agents `agents` holds, in all and of each of the four age
/// classes.
pub fn agent_statistics(agents: &Vec<Agent>) -> (stats: AgentStatistics)
    ensures
        stats.total_agents == agents@.len(),
        stats.agent_types.counts(agents@.map_values(|a: Agent| a.agent_type)),
{
    let mut classes: Vec<AgentType> = Vec::new();
    let mut i: usize = 0;
    while i < agents.len()
        invariant
            i <= agents@.len(),
            classes@ == agents@.take(i as int).map_values(|a: Agent| a.agent_type),
        decreases agents@.len() - i,
    {
        classes.push(agents[i].agent_type);
        assert(classes@ =~= agents@.take(i as int + 1).map_values(|a: Agent| a.agent_type));
        i = i + 1;
    }
    assert(agents@.take(i as int) =~= agents@);
    AgentStatistics { total_agents: agents.len(), agent_types: ShelterAgentCounts::of_classes(&classes) }
}

/// The state of the hazard after the tick numbered `step`: the hazard is
/// active once `step` exceeds `delay`, and while it is active the frame
/// index grows by one at every tick whose number is a multiple of `cadence`.
pub open spec fn clock_after(step: u32, delay: u32, cadence: u32, active: bool, index: usize) -> (
    bool,
    int,
) {
    if step > delay {
        (
            true,
            if step % cadence == 0 && step != 0 {
                index + 1
            } else {
                index as int
            },
        )
    } else {
        (active, index as int)
    }
}

/// Advances the hazard clock by the tick numbered `step`. The frame index
/// never falls and grows by one at most.
pub fn hazard_tick(step: u32, delay: u32, cadence: u32, active: bool, index: usize) -> (state: (
    bool,
    usize,
))
    requires
        cadence > 0,
        index < usize::MAX,
    ensures
        (state.0, state.1 as int) == clock_after(step, delay, cadence, active, index),
        state.0 == (active || step > delay),
        state.1 == index || state.1 == index + 1,
{
    if step > delay {
        if step % cadence == 0 && step != 0 {
            (true, index + 1)
        } else {
            (true, index)
        }
    } else {
        (active, index)
    }
}

/// A run: the model, the tick counter and the hazard clock.
pub struct Simulation {
    pub model: Model,
    /// Where the agents were at the recorded ticks.
    pub agent_data_collector: AgentDataCollector,
    /// The number of the next tick.
    pub current_step: u32,
    /// Whether the hazard is active.
    pub is_tsunami: bool,
    /// The hazard frame in force.
    pub tsunami_index: usize,
    pub config: SimulationConfig,
}

impl Simulation {
    /// The model is safe to run and the two cadences are not zero.
    pub open spec fn wf(&self) -> bool {
        &&& self.model.safe()
        &&& self.config.tsunami_speed_time > 0
        &&& self.config.data_collection_interval > 0
    }

    /// Whether the simulation is well formed.
    pub fn is_well_formed(&self) -> (ok: bool)
        ensures
            ok == self.wf(),
    {
        self.model.is_safe() && self.config.tsunami_speed_time > 0
            && self.config.data_collection_interval > 0
    }

    /// A run of `agents` on `grid` with the default parameters.
    pub fn new(grid: Grid, agents: Vec<Agent>) -> (simulation: Self)
        ensures
            simulation.model.grid == grid,
            simulation.model.agents == agents,
            simulation.model.dead_agents == 0,
            simulation.model.dead_agent_types@ == Seq::<AgentType>::empty(),
            simulation.current_step == 0,
            !simulation.is_tsunami,
            simulation.tsunami_index == 0,
            simulation.config.tsunami_delay == 1800,
            simulation.config.tsunami_speed_time == 28,
            simulation.config.data_collection_interval == 30,
            simulation.agent_data_collector@ == Seq::<AgentStepData>::empty(),
            vstd::pervasive::cloned(grid, simulation.agent_data_collector.grid()),
    {
        Self::with_config(grid, agents, SimulationConfig::default())
    }

    /// A run of `agents` on `grid` with the parameters `config`: nobody has
    /// died, no tick has passed, the hazard is inactive at its first frame,
    /// and the collector keeps a clone of the grid.
    pub fn with_config(grid: Grid, agents: Vec<Agent>, config: SimulationConfig) -> (simulation: Self)
        ensures
            simulation.model.grid == grid,
            simulation.model.agents == agents,
            simulation.model.dead_agents == 0,
            simulation.model.dead_agent_types@ == Seq::<AgentType>::empty(),
            simulation.agent_data_collector@ == Seq::<AgentStepData>::empty(),
            vstd::pervasive::cloned(grid, simulation.agent_data_collector.grid()),
            simulation.current_step == 0,
            !simulation.is_tsunami,
            simulation.tsunami_index == 0,
            simulation.config == config,
    {
        let agent_data_collector = AgentDataCollector::new(grid.clone());
        Simulation {
            model: Model { grid, agents, dead_agents: 0, dead_agent_types: Vec::new() },
            agent_data_collector,
            current_step: 0,
            is_tsunami: false,
            tsunami_index: 0,
            config,
        }
    }

    /// The same run with another hazard delay.
    pub fn with_tsunami_delay(self, delay: u32) -> (simulation: Self)
        ensures
            simulation == (Simulation {
                config: SimulationConfig { tsunami_delay: delay, ..self.config },
                ..self
            }),
    {
        let mut simulation = self;
        simulation.config.tsunami_delay = delay;
        simulation
    }

    /// The same run with another number of ticks between hazard frames.
    pub fn with_tsunami_speed_time(self, speed_time: u32) -> (simulation: Self)
        ensures
            simulation == (Simulation {
                config: SimulationConfig { tsunami_speed_time: speed_time, ..self.config },
                ..self
            }),
    {
        let mut simulation = self;
        simulation.config.tsunami_speed_time = speed_time;
        simulation
    }

    /// The same run with another recording interval.
    pub fn with_data_collection_interval(self, interval: u32) -> (simulation: Self)
        ensures
            simulation == (Simulation {
                config: SimulationConfig { data_collection_interval: interval, ..self.config },
                ..self
            }),
    {
        let mut simulation = self;
        simulation.config.data_collection_interval = interval;
        simulation
    }

    /// The state of the hazard after the next tick.
    pub open spec fn next_clock(&self) -> (bool, int) {
        clock_after(
            self.current_step,
            self.config.tsunami_delay,
            self.config.tsunami_speed_time,
            self.is_tsunami,
            self.tsunami_index,
        )
    }

    /// Whether the next tick can run: the hazard has a frame for it, before
    /// and after the clock advances, and the tick counter has room.
    pub open spec fn can_step(&self) -> bool {
        &&& self.tsunami_index < self.model.grid.tsunami_data@.len()
        &&& self.next_clock().1 < self.model.grid.tsunami_data@.len()
        &&& self.current_step < u32::MAX
    }

    /// `self` comes from `before` by one tick: the hazard clock has advanced,
    /// the tick of the model has run under the new state of the hazard, the
    /// agents have been recorded if the number of the tick is a multiple of
    /// the recording interval, and the tick has been counted.
    pub open spec fn stepped(&self, before: &Simulation) -> bool {
        &&& before.can_step()
        &&& self.wf()
        &&& self.config == before.config
        &&& self.current_step == before.current_step + 1
        &&& self.is_tsunami == before.next_clock().0
        &&& self.tsunami_index == before.next_clock().1
        &&& self.model.ticked(&before.model, self.is_tsunami, self.tsunami_index)
        &&& self.agent_data_collector@ == before.agent_data_collector@ + if before.current_step
            % before.config.data_collection_interval == 0 {
            snapshots(self.model.agents@, before.current_step, self.model.agents@.len() as int)
        } else {
            Seq::<AgentStepData>::empty()
        }
        &&& self.agent_data_collector.grid() == before.agent_data_collector.grid()
    }

    /// `self` comes from `before` by `n` ticks: `states` holds the run before
    /// the first tick and after each.
    pub open spec fn ran_through(&self, before: &Simulation, n: int, states: Seq<Simulation>) -> bool {
        &&& n >= 0
        &&& states.len() == n + 1
        &&& states[0] == *before
        &&& states[n] == *self
        &&& forall|i: int| 0 <= i < n ==> (#[trigger] states[i + 1]).stepped(&states[i])
    }

    /// `self` comes from `before` by `n` ticks.
    pub open spec fn ran(&self, before: &Simulation, n: int) -> bool {
        exists|states: Seq<Simulation>| #[trigger] self.ran_through(before, n, states)
    }

    /// Runs one tick, if it can run: advances the hazard clock, runs the tick
    /// of the model, records the agents if the tick is one to record, and
    /// counts the tick. Returns whether the tick ran; where it cannot run,
    /// nothing changes. The random decisions of the tick are those of
    /// `chance`.
    pub fn step_with<C: Chance>(&mut self, chance: &mut C) -> (ran: bool)
        requires
            old(self).wf(),
        ensures
            ran == old(self).can_step(),
            !ran ==> *final(self) == *old(self),
            ran ==> final(self).stepped(old(self)),
    {
        let frames = self.model.grid.tsunami_data.len();
        if self.tsunami_index >= frames || self.current_step == u32::MAX {
            return false;
        }
        let (active, index) = hazard_tick(
            self.current_step,
            self.config.tsunami_delay,
            self.config.tsunami_speed_time,
            self.is_tsunami,
            self.tsunami_index,
        );
        if index >= frames {
            return false;
        }
        self.is_tsunami = active;
        self.tsunami_index = index;
        self.model.step_with(self.current_step, active, index, chance);
        if self.current_step % self.config.data_collection_interval == 0 {
            self.agent_data_collector.collect_step(&self.model, self.current_step);
        } else {
            assert(self.agent_data_collector@ =~= old(self).agent_data_collector@
                + Seq::<AgentStepData>::empty());
        }
        self.current_step = self.current_step + 1;
        true
    }

    /// Runs one tick, as `step_with` does, with the generator of the running
    /// thread for its random decisions.
    pub fn step(&mut self) -> (ran: bool)
        requires
            old(self).wf(),
        ensures
            ran == old(self).can_step(),
            !ran ==> *final(self) == *old(self),
            ran ==> final(self).stepped(old(self)),
    {
        let mut chance = ThreadChance::new();
        self.step_with(&mut chance)
    }

    /// Runs ticks until one cannot run, or until `max_steps` ticks have run
    /// where a maximum is given; a maximum of zero lets one tick run. No tick
    /// runs only where the first cannot. Returns the number of ticks that
    /// ran. The random decisions of the ticks are
    /// those of `chance`.
    pub fn run_with<C: Chance>(&mut self, max_steps: Option<u32>, chance: &mut C) -> (ticks: u32)
        requires
            old(self).wf(),
        ensures
            final(self).wf(),
            final(self).ran(old(self), ticks as int),
            final(self).config == old(self).config,
            final(self).current_step == old(self).current_step + ticks,
            match max_steps {
                Some(max) => ticks <= max || ticks == 1,
                None => true,
            },
            ticks == 0 <==> !old(self).can_step(),
            !final(self).can_step() || (max_steps matches Some(max) && ticks >= max && ticks >= 1),
    {
        let mut ticks: u32 = 0;
        let mut more = true;
        proof {
            lemma_no_tick(self);
        }
        while more
            invariant
                self.wf(),
                self.ran(old(self), ticks as int),
                self.config == old(self).config,
                self.current_step == old(self).current_step + ticks,
                match max_steps {
                    Some(max) => ticks <= max || ticks == 1,
                    None => true,
                },
                ticks == 0 ==> *self == *old(self),
                ticks > 0 ==> old(self).can_step(),
                !more ==> !self.can_step() || (max_steps matches Some(max) && ticks >= max && ticks
                    >= 1),
                more ==> match max_steps {
                    Some(max) => ticks == 0 || ticks < max,
                    None => true,
                },
            decreases u32::MAX - self.current_step, (if more { 1int } else { 0int }),
        {
            let ghost between = *self;
            if self.step_with(chance) {
                proof {
                    lemma_one_more_tick(self, &between, old(self), ticks as int);
                }
                ticks = ticks + 1;
                if let Some(max) = max_steps {
                    if ticks >= max {
                        more = false;
                    }
                }
            } else {
                more = false;
            }
        }
        ticks
    }

    /// Runs ticks, as `run_with` does, with the generator of the running
    /// thread for their random decisions.
    pub fn run(&mut self, max_steps: Option<u32>) -> (ticks: u32)
        requires
            old(self).wf(),
        ensures
            final(self).wf(),
            final(self).ran(old(self), ticks as int),
            final(self).config == old(self).config,
            final(self).current_step == old(self).current_step + ticks,
            match max_steps {
                Some(max) => ticks <= max || ticks == 1,
                None => true,
            },
            ticks == 0 <==> !old(self).can_step(),
            !final(self).can_step() || (max_steps matches Some(max) && ticks >= max && ticks >= 1),
    {
        let mut chance = ThreadChance::new();
        self.run_with(max_steps, &mut chance)
    }
}

/// No tick leaves the run as it is.
pub proof fn lemma_no_tick(simulation: &Simulation)
    ensures
        simulation.ran(simulation, 0),
{
    assert(simulation.ran_through(simulation, 0, seq![*simulation]));
}

/// A tick after `n` ticks makes `n + 1` ticks.
pub proof fn lemma_one_more_tick(after: &Simulation, between: &Simulation, before: &Simulation, n: int)
    requires
        between.ran(before, n),
        after.stepped(between),
    ensures
        after.ran(before, n + 1),
{
    let states = choose|states: Seq<Simulation>| #[trigger] between.ran_through(before, n, states);
    let longer = states.push(*after);
    assert forall|i: int| 0 <= i < n + 1 implies (#[trigger] longer[i + 1]).stepped(&longer[i]) by {
        if i < n {
            assert(longer[i + 1] == states[i + 1] && longer[i] == states[i]);
        } else {
            assert(longer[i] == *between);
        }
    }
    assert(after.ran_through(before, n + 1, longer));
}

} // verus!
