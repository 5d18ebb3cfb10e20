//! The agents and their age classes.

use crate::game::random::{sample_weighted, thread_generator};
use vstd::prelude::*;

verus! {

/// Age class of an agent.
///
/// `Custom` carries its own speed multiplier, in thousandths.
#[derive(Debug, PartialEq, Eq, Copy, Clone, Structural)]
pub enum AgentType {
    Child,
    Teen,
    Adult,
    Elder,
    Custom(u32),
}

/// How fast agents walk and how often each age class occurs.
///
/// All quantities are fixed-point integers: `base_speed` and
/// `speed_multipliers` count thousandths (2660 stands for 2.66 cells per
/// tick, 800 for a factor of 0.8); `type_weights` are relative weights.
/// The four entries stand for `Child`, `Teen`, `Adult`, `Elder`, in that order.
#[derive(Debug, Clone, Copy)]
pub struct AgentConfig {
    pub base_speed: u32,
    pub speed_multipliers: [u32; 4],
    pub type_weights: [u32; 4],
}

impl Default for AgentConfig {
    fn default() -> (config: Self)
        ensures
            config.base_speed == 2660,
            config.speed_multipliers@ == seq![800u32, 1000u32, 1000u32, 700u32],
            config.type_weights@ == seq![621u32, 1341u32, 5910u32, 1989u32],
    {
        let config = AgentConfig {
            base_speed: 2660,
            speed_multipliers: [800, 1000, 1000, 700],
            type_weights: [621, 1341, 5910, 1989],
        };
        assert(config.speed_multipliers@ =~= seq![800u32, 1000u32, 1000u32, 700u32]);
        assert(config.type_weights@ =~= seq![621u32, 1341u32, 5910u32, 1989u32]);
        config
    }
}

/// A pedestrian.
#[derive(Debug, Clone, Copy)]
pub struct Agent {
    /// Identity, stable for the whole run.
    pub id: usize,
    pub x: u32,
    pub y: u32,
    /// Cells of movement budget per tick.
    pub speed: u32,
    /// What is left of the budget in the current tick.
    pub remaining_steps: u32,
    /// Whether the agent's cell is a road.
    pub is_on_road: bool,
    pub agent_type: AgentType,
    pub is_alive: bool,
}

/// The multiplier of an age class under `multipliers`, in thousandths.
pub open spec fn multiplier_of(agent_type: AgentType, multipliers: Seq<u32>) -> int {
    match agent_type {
        AgentType::Child => multipliers[0] as int,
        AgentType::Teen => multipliers[1] as int,
        AgentType::Adult => multipliers[2] as int,
        AgentType::Elder => multipliers[3] as int,
        AgentType::Custom(multiplier) => multiplier as int,
    }
}

/// The whole cells per tick that a multiplier and a base speed (both in
/// thousandths) give: their product rounded down, and no more than `u32::MAX`.
pub open spec fn speed_of(multiplier: int, base_speed: int) -> int {
    let cells = (multiplier * base_speed) / 1_000_000;
    if cells > u32::MAX as int {
        u32::MAX as int
    } else {
        cells
    }
}

/// The sum of `weights`.
pub open spec fn total_weight(weights: Seq<u32>) -> int
    decreases weights.len(),
{
    if weights.len() == 0 {
        0
    } else {
        total_weight(weights.drop_last()) + weights.last()
    }
}

/// `weights` can drive a weighted choice: there is a weight, the weights are
/// not all zero, and their sum fits in 32 bits.
pub open spec fn weights_usable(weights: Seq<u32>) -> bool {
    weights.len() > 0 && 0 < total_weight(weights) <= u32::MAX
}

/// Whether `weights` can drive a weighted choice.
pub fn weights_are_usable(weights: &[u32]) -> (usable: bool)
    ensures
        usable == weights_usable(weights@),
{
    let mut total: u64 = 0;
    let mut i: usize = 0;
    assert(weights@.take(0) =~= Seq::<u32>::empty());
    while i < weights.len()
        invariant
            i <= weights@.len(),
            total == total_weight(weights@.take(i as int)),
            total <= i * 0xffff_ffff,
            i <= usize::MAX,
        decreases weights@.len() - i,
    {
        assert(weights@.take(i as int + 1).drop_last() =~= weights@.take(i as int));
        assert(i * 0xffff_ffff + 0xffff_ffff == (i + 1) * 0xffff_ffff) by (nonlinear_arith);
        if total > u64::MAX - weights[i] as u64 {
            proof {
                lemma_total_grows(weights@, i as int + 1);
            }
            return false;
        }
        total = total + weights[i] as u64;
        i = i + 1;
    }
    assert(weights@.take(i as int) =~= weights@);
    weights.len() > 0 && 0 < total && total <= u32::MAX as u64
}

/// A list of weights weighs no less than any of its beginnings.
pub proof fn lemma_total_grows(weights: Seq<u32>, n: int)
    requires
        0 <= n <= weights.len(),
    ensures
        0 <= total_weight(weights.take(n)) <= total_weight(weights),
    decreases weights.len() - n,
{
    if n == weights.len() {
        assert(weights.take(n) =~= weights);
        lemma_total_nonnegative(weights);
    } else {
        lemma_total_grows(weights, n + 1);
        assert(weights.take(n + 1).drop_last() =~= weights.take(n));
        lemma_total_nonnegative(weights.take(n));
    }
}

proof fn lemma_total_nonnegative(weights: Seq<u32>)
    ensures
        total_weight(weights) >= 0,
    decreases weights.len(),
{
    if weights.len() > 0 {
        lemma_total_nonnegative(weights.drop_last());
    }
}

/// The age class that stands at `index` in the tables of a configuration;
/// the last one for any index beyond them.
pub open spec fn class_at(index: int) -> AgentType {
    if index == 0 {
        AgentType::Child
    } else if index == 1 {
        AgentType::Teen
    } else if index == 2 {
        AgentType::Adult
    } else {
        AgentType::Elder
    }
}

impl AgentType {
    /// The age class that stands at `index` in the tables of a
    /// configuration; the last one for any index beyond them.
    pub fn from_index(index: usize) -> (agent_type: Self)
        ensures
            agent_type == class_at(index as int),
    {
        if index == 0 {
            AgentType::Child
        } else if index == 1 {
            AgentType::Teen
        } else if index == 2 {
            AgentType::Adult
        } else {
            AgentType::Elder
        }
    }

    /// An age class drawn at random with the default weights.
    pub fn random() -> (agent_type: Self)
        ensures
            exists|index: int| 0 <= index < 4 && agent_type == class_at(index),
    {
        let weights: [u32; 4] = [621, 1341, 5910, 1989];
        proof {
            let w = weights@;
            assert(w.drop_last().drop_last().drop_last().drop_last().len() == 0);
            assert(total_weight(w.drop_last().drop_last().drop_last()) == 621) by {
                reveal_with_fuel(total_weight, 2);
            }
            assert(total_weight(w.drop_last().drop_last()) == 621 + 1341);
            assert(total_weight(w.drop_last()) == 621 + 1341 + 5910);
            assert(total_weight(w) == 621 + 1341 + 5910 + 1989);
        }
        Self::random_with_weights(weights.as_slice())
    }

    /// An age class drawn at random, the chance of each class being
    /// proportional to its weight. The weights stand for `Child`, `Teen`,
    /// `Adult` and `Elder`, in that order; a class without a weight, or with
    /// weight zero, is never drawn.
    pub fn random_with_weights(weights: &[u32]) -> (agent_type: Self)
        requires
            weights_usable(weights@),
            weights@.len() <= 4,
        ensures
            exists|index: int|
                0 <= index < weights@.len() && weights@[index] > 0 && agent_type == class_at(index),
    {
        let mut generator = thread_generator();
        match sample_weighted(weights, &mut generator) {
            Some(index) => Self::from_index(index),
            None => AgentType::Child,
        }
    }

    /// The speed multiplier of this age class, in thousandths.
    pub fn speed_multiplier(&self, config: &AgentConfig) -> (multiplier: u32)
        ensures
            multiplier == multiplier_of(*self, config.speed_multipliers@),
    {
        match self {
            AgentType::Child => config.speed_multipliers[0],
            AgentType::Teen => config.speed_multipliers[1],
            AgentType::Adult => config.speed_multipliers[2],
            AgentType::Elder => config.speed_multipliers[3],
            AgentType::Custom(multiplier) => *multiplier,
        }
    }

    /// The name of the age class, as reports print it.
    pub fn name(&self) -> (name: &'static str)
        ensures
            name@ == class_name(*self),
    {
        match self {
            AgentType::Child => "Child",
            AgentType::Teen => "Teen",
            AgentType::Adult => "Adult",
            AgentType::Elder => "Elder",
            AgentType::Custom(_) => "Custom",
        }
    }
}

/// The name under which an age class is reported.
pub open spec fn class_name(agent_type: AgentType) -> Seq<char> {
    match agent_type {
        AgentType::Child => "Child"@,
        AgentType::Teen => "Teen"@,
        AgentType::Adult => "Adult"@,
        AgentType::Elder => "Elder"@,
        AgentType::Custom(_) => "Custom"@,
    }
}

impl Agent {
    /// An agent with the default configuration.
    pub fn new(id: usize, x: u32, y: u32, agent_type: AgentType, is_on_road: bool) -> (agent: Self)
        ensures
            agent == Self::spec_with_config(
                id,
                x,
                y,
                agent_type,
                is_on_road,
                2660,
                seq![800u32, 1000u32, 1000u32, 700u32],
            ),
    {
        let config = AgentConfig::default();
        Self::with_config(id, x, y, agent_type, is_on_road, &config)
    }

    /// The agent that `with_config` builds.
    pub open spec fn spec_with_config(
        id: usize,
        x: u32,
        y: u32,
        agent_type: AgentType,
        is_on_road: bool,
        base_speed: int,
        multipliers: Seq<u32>,
    ) -> Agent {
        let speed = speed_of(multiplier_of(agent_type, multipliers), base_speed) as u32;
        Agent { id, x, y, speed, remaining_steps: speed, is_on_road, agent_type, is_alive: true }
    }

    /// An agent whose speed is the floor of its multiplier times the base
    /// speed, alive and with a full budget.
    pub fn with_config(
        id: usize,
        x: u32,
        y: u32,
        agent_type: AgentType,
        is_on_road: bool,
        config: &AgentConfig,
    ) -> (agent: Self)
        ensures
            agent == Self::spec_with_config(
                id,
                x,
                y,
                agent_type,
                is_on_road,
                config.base_speed as int,
                config.speed_multipliers@,
            ),
    {
        let multiplier = agent_type.speed_multiplier(config);
        assert((multiplier as u64) * (config.base_speed as u64) <= u64::MAX) by (nonlinear_arith)
            requires
                multiplier <= u32::MAX,
                config.base_speed <= u32::MAX,
        ;
        let cells: u64 = (multiplier as u64) * (config.base_speed as u64) / 1_000_000;
        let speed: u32 = if cells > u32::MAX as u64 {
            u32::MAX
        } else {
            cells as u32
        };
        Agent { id, x, y, speed, remaining_steps: speed, is_on_road, agent_type, is_alive: true }
    }
}

/// The number of agents dead at one step.
pub struct DeadAgentsData {
    pub step: u32,
    pub dead_agents: usize,
}

} // verus!
