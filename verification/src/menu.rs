//! How a client gets into a game: solo right away, online after the relay's handshake.
//!
//! The connection, the menu's display and the game state machine are the client
//! program's; the functions here take what the relay sent and say what to do.
use crate::protocol::{ClientMsg, ServerMsg, Turn, PROTOCOL_VERSION};
use crate::session::Session;
use crate::sim::{initial_units, Command, PlayerId, Sim, MAX_PLAYERS};
use vstd::prelude::*;

verus! {

/// Solo games always use the same map for now.
pub const SOLO_SEED: u64 = 1;

/// What the menu does with an event of the connection to the relay.
#[derive(Debug, PartialEq)]
pub enum MenuStep {
    /// Send this message to the relay.
    Send(ClientMsg),
    /// Show that the client waits for an opponent.
    Waiting,
    /// The match starts: play it (see [`start_session`]).
    Start { seed: u64, players: u8, you: PlayerId },
    /// The relay runs another protocol version: report it and close the connection.
    VersionMismatch { server: u32 },
    /// Nothing to do before the match starts.
    Ignore,
}

/// The menu's answer to an event of the connection: `None` when it opened, else the
/// message received.
pub fn menu_on_event(event: Option<ServerMsg>) -> (r: MenuStep)
    ensures
        match event {
            None => r == MenuStep::Send(ClientMsg::Join { version: PROTOCOL_VERSION }),
            Some(ServerMsg::Waiting) => r == MenuStep::Waiting,
            Some(ServerMsg::Start { seed, players, you }) => r == (MenuStep::Start {
                seed,
                players,
                you,
            }),
            Some(ServerMsg::VersionMismatch { server }) => r == (MenuStep::VersionMismatch {
                server,
            }),
            Some(_) => r == MenuStep::Ignore,
        },
{
    match event {
        None => MenuStep::Send(ClientMsg::Join { version: PROTOCOL_VERSION }),
        Some(ServerMsg::Waiting) => MenuStep::Waiting,
        Some(ServerMsg::Start { seed, players, you }) => MenuStep::Start { seed, players, you },
        Some(ServerMsg::VersionMismatch { server }) => MenuStep::VersionMismatch { server },
        Some(_) => MenuStep::Ignore,
    }
}

/// The session that a freshly started game begins with: the map of `seed`, the armies of
/// `players` players at their start, no turn yet, and `local_player` giving orders.
pub open spec fn is_started(s: Session, seed: u64, players: int, local_player: PlayerId) -> bool {
    let ls = s.spec_lockstep();
    &&& s.wf()
    &&& ls.spec_sim().spec_tick() == 0
    &&& ls.spec_sim().spec_terrain().is_generated(seed, 128)
    &&& ls.spec_sim().spec_units() == initial_units(players)
    &&& ls.spec_turns() == Seq::<Turn>::empty()
    &&& ls.spec_next_turn() == 0
    &&& s.spec_local_player() == local_player
    &&& s.spec_pending() == Seq::<Command>::empty()
}

/// Starts the match that the relay announced. The relay's word is not trusted: a number
/// of players that the simulation does not support starts nothing.
pub fn start_session(seed: u64, players: u8, you: PlayerId) -> (r: Option<Session>)
    ensures
        r is Some <==> 1 <= players <= MAX_PLAYERS,
        r matches Some(s) ==> is_started(s, seed, players as int, you),
{
    if players < 1 || players > MAX_PLAYERS {
        return None;
    }
    let sim = Sim::new(seed, players);
    assert(sim.spec_tick() % (crate::protocol::TICKS_PER_TURN as int) == 0);
    let s = Session::new(sim, you);
    assert(s.wf());
    assert(s.spec_lockstep().spec_sim().spec_tick() == 0);
    assert(s.spec_lockstep().spec_sim().spec_terrain().is_generated(seed, 128));
    assert(s.spec_lockstep().spec_sim().spec_units() == initial_units(players as int));
    assert(s.spec_lockstep().spec_turns() == Seq::<Turn>::empty());
    assert(s.spec_lockstep().spec_next_turn() == 0);
    assert(s.spec_local_player() == you);
    assert(s.spec_pending() == Seq::<Command>::empty());
    Some(s)
}

/// Starts a solo game: one player, the solo map.
pub fn start_solo() -> (r: Session)
    ensures
        is_started(r, SOLO_SEED, 1, 0),
{
    let sim = Sim::new(SOLO_SEED, 1);
    assert(sim.spec_tick() % (crate::protocol::TICKS_PER_TURN as int) == 0);
    let s = Session::new(sim, 0);
    assert(s.wf());
    assert(s.spec_lockstep().spec_sim().spec_units() == initial_units(1));
    assert(s.spec_lockstep().spec_turns() == Seq::<Turn>::empty());
    assert(s.spec_pending() == Seq::<Command>::empty());
    s
}

} // verus!
