//! Messages exchanged between clients and the relay server.
use crate::sim::{Command, PlayerId, TICK_RATE};
use vstd::prelude::*;

verus! {

/// Must be bumped whenever messages or simulation rules change: players of a match
/// have to run identical code.
pub const PROTOCOL_VERSION: u32 = 1;

pub const DEFAULT_PORT: u16 = 7878;

pub const PLAYERS_PER_MATCH: u8 = 2;

/// Commands are grouped into turns of 3 ticks (100 ms).
pub const TICKS_PER_TURN: u32 = 3;

/// Clients report a checksum every this many turns (once per second).
pub const CHECKSUM_INTERVAL: u32 = 10;

/// Duration of a turn, in milliseconds: its ticks at [`TICK_RATE`].
pub fn turn_duration_millis() -> (r: u64)
    ensures
        r == TICKS_PER_TURN * 1000 / TICK_RATE as int,
{
    (TICKS_PER_TURN * 1000 / TICK_RATE) as u64
}

/// The commands applied at the start of a turn, in order.
#[derive(Clone, Debug, PartialEq)]
pub struct Turn {
    pub number: u32,
    pub commands: Vec<(PlayerId, Command)>,
}

#[derive(Clone, Debug, PartialEq)]
pub enum ClientMsg {
    Join { version: u32 },
    Command(Command),
    Checksum { turn: u32, hash: u64 },
}

#[derive(Clone, Debug, PartialEq)]
pub enum ServerMsg {
    /// Joined; waiting for enough players to start a match.
    Waiting,
    VersionMismatch { server: u32 },
    Start { seed: u64, players: u8, you: PlayerId },
    Turn(Turn),
    /// Players reported different checksums after this turn.
    Desync { turn: u32 },
    PlayerLeft { player: PlayerId },
}

} // verus!
