//! Pedestrian evacuation over a raster terrain: agents walk to roads and on to
//! shelters while a time-indexed inundation field sweeps the map.
//!
//! The crate holds the cost fields (distance to the nearest road and to the
//! nearest shelter), the occupancy bookkeeping of the world, the per-tick
//! movement resolver with its reservation protocol, and the hazard clock.
//!
//! Every function is verified against the contract in its header, but for the
//! calls into the `rand` crate in `game::random`, whose contracts are taken on
//! trust.

pub mod api;
pub mod game;
pub mod loading;
pub mod raster;
pub mod simulation;

pub use game::agent;
pub use game::chance::{Chance, Seeded, ThreadChance};
pub use game::game as simulation_game;
pub use game::grid;
pub use loading::load_population_and_create_agents;
pub use simulation::{
    agent_statistics, hazard_tick, AgentDataCollector, AgentStatistics, AgentStepData,
    ShelterAgentTypeData, ShelterData, Simulation, SimulationConfig, SimulationData,
    DISTRIBUTION_WEIGHTS, TSUNAMI_DELAY, TSUNAMI_SPEED_TIME,
};
