//! Deterministic simulation of a real-time strategy match, the lockstep turn scheduler
//! that drives it, and the decisions of the relay server that clocks the turns.
use vstd::prelude::*;

pub mod fixed;
pub mod lockstep;
pub mod menu;
pub mod protocol;
pub mod relay;
pub mod scene;
pub mod selection;
pub mod session;
pub mod sim;
pub mod terrain;

pub use fixed::{Fx, FxVec2};
pub use sim::{Command, PlayerId, Sim, Unit, UnitId, MAX_PLAYERS, TICK_RATE};
pub use terrain::Terrain;
pub use lockstep::Lockstep;
pub use protocol::{
    ClientMsg, ServerMsg, Turn, CHECKSUM_INTERVAL, DEFAULT_PORT, PLAYERS_PER_MATCH, PROTOCOL_VERSION,
    TICKS_PER_TURN,
};

verus! {

} // verus!
