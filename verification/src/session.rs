//! A running game as the client sees it: the lockstep simulation, the commands of the
//! local player, and what the client sends to the relay as the game advances.
//!
//! Solo and online games take the same path: solo, the client makes each turn itself from
//! the commands issued since the last one; online, the turns come from the relay. Real
//! time, rendering and the network are the client program's.
use crate::fixed::FxVec2;
use crate::lockstep::{applied_commands, commands_fit, Lockstep};
use crate::protocol::{ClientMsg, Turn, CHECKSUM_INTERVAL, TICKS_PER_TURN};
use crate::sim::{checksum_spec, stepped_units, Command, PlayerId, Sim, Unit, UnitId};
use vstd::prelude::*;

verus! {

/// Online: holding more ticks than this means we lag behind the server, so the
/// simulation runs faster until it catches up.
pub const MAX_BUFFERED_TICKS: u32 = 2 * TICKS_PER_TURN;

/// Bounds the work done in one frame, so a slow frame cannot snowball.
pub const MAX_TICKS_PER_FRAME: u32 = 10;

/// What one attempt to run a tick did.
#[derive(Debug, PartialEq)]
pub enum Advance {
    /// Online, no turn is buffered: wait for the relay's next turn.
    Wait,
    /// A tick ran; the message holds the checksum to report to the relay, if due.
    Ran(Option<ClientMsg>),
}

/// Commands of `player`, in order, as a turn holds them.
pub open spec fn tagged(player: PlayerId, commands: Seq<Command>) -> Seq<(PlayerId, Command)> {
    commands.map_values(|c: Command| (player, c))
}

/// A solo turn lists the commands in the order they were issued, each with its player.
pub proof fn lemma_tagged_keeps_order(player: PlayerId, commands: Seq<Command>)
    ensures
        tagged(player, commands).len() == commands.len(),
        forall|k: int|
            0 <= k < commands.len() ==> #[trigger] tagged(player, commands)[k] == (
                player,
                commands[k],
            ),
{
}

/// Id and position of each unit, in order.
pub open spec fn positions(units: Seq<Unit>) -> Seq<(UnitId, FxVec2)> {
    units.map_values(|u: Unit| (u.id, u.pos))
}

/// A running game: the lockstep simulation and the local player's view of it.
pub struct Session {
    lockstep: Lockstep,
    local_player: PlayerId,
    /// Solo: commands waiting for the next locally generated turn.
    pending: Vec<Command>,
    /// Unit positions before the last tick, to interpolate rendering between ticks. The
    /// units are held sorted by id, so a list in that order serves for lookups; a hash
    /// map would need hashing that nothing here specifies.
    previous_positions: Vec<(UnitId, FxVec2)>,
}

impl Session {
    pub closed spec fn spec_lockstep(&self) -> Lockstep {
        self.lockstep
    }

    pub closed spec fn spec_local_player(&self) -> PlayerId {
        self.local_player
    }

    pub closed spec fn spec_pending(&self) -> Seq<Command> {
        self.pending@
    }

    pub closed spec fn spec_previous_positions(&self) -> Seq<(UnitId, FxVec2)> {
        self.previous_positions@
    }

    /// The lockstep is well formed and the recorded positions have distinct ids.
    pub open spec fn wf(&self) -> bool {
        &&& self.spec_lockstep().wf()
        &&& forall|i: int, j: int|
            0 <= i < j < self.spec_previous_positions().len() ==> (
            #[trigger] self.spec_previous_positions()[i]).0.0
                < (#[trigger] self.spec_previous_positions()[j]).0.0
    }

    /// The next tick can run, or be waited for, without overflow and with commands that fit.
    pub open spec fn spec_can_advance(&self, online: bool) -> bool {
        let ls = self.spec_lockstep();
        let units = ls.spec_sim().spec_units();
        &&& ls.spec_turns().len() * TICKS_PER_TURN <= u32::MAX
        &&& ls.spec_sim().spec_tick() < u64::MAX
        &&& if ls.spec_turns().len() == 0 {
            !online ==> ls.spec_next_turn() < u32::MAX && commands_fit(
                units,
                tagged(self.spec_local_player(), self.spec_pending()),
            )
        } else {
            ls.spec_tick_in_turn() == 0 ==> commands_fit(units, ls.spec_turns()[0].commands@)
        }
    }

    pub fn new(sim: Sim, local_player: PlayerId) -> (r: Session)
        requires
            sim.wf(),
        ensures
            r.wf() == (sim.spec_tick() % (TICKS_PER_TURN as int) == 0),
            r.spec_lockstep().spec_sim() == sim,
            r.spec_lockstep().spec_turns().len() == 0,
            r.spec_lockstep().spec_next_turn() == 0,
            r.spec_local_player() == local_player,
            r.spec_pending() == Seq::<Command>::empty(),
            r.spec_previous_positions() == Seq::<(UnitId, FxVec2)>::empty(),
    {
        Session {
            lockstep: Lockstep::new(sim),
            local_player,
            pending: Vec::new(),
            previous_positions: Vec::new(),
        }
    }

    /// The lockstep simulation of the game.
    pub fn lockstep(&self) -> (r: &Lockstep)
        ensures
            *r == self.spec_lockstep(),
    {
        &self.lockstep
    }

    /// The player whose orders this client gives.
    pub fn local_player(&self) -> (r: PlayerId)
        ensures
            r == self.spec_local_player(),
    {
        self.local_player
    }

    /// Online, a turn from the relay: it is queued for the simulation. Turns come in order,
    /// without gaps.
    pub fn receive_turn(&mut self, turn: Turn)
        requires
            old(self).wf(),
            turn.number == old(self).spec_lockstep().spec_next_turn(),
            old(self).spec_lockstep().spec_next_turn() < u32::MAX,
        ensures
            final(self).wf(),
            final(self).spec_lockstep().spec_sim() == old(self).spec_lockstep().spec_sim(),
            final(self).spec_lockstep().spec_turns() == old(self).spec_lockstep().spec_turns().push(
                turn,
            ),
            final(self).spec_lockstep().spec_next_turn() == old(self).spec_lockstep().spec_next_turn()
                + 1,
            final(self).spec_local_player() == old(self).spec_local_player(),
            final(self).spec_pending() == old(self).spec_pending(),
            final(self).spec_previous_positions() == old(self).spec_previous_positions(),
    {
        self.lockstep.push_turn(turn);
        assert(self.spec_lockstep().wf());
        assert(self.spec_previous_positions() == old(self).spec_previous_positions());
    }

    /// Online, returns the message that sends the command to the server; solo, keeps the
    /// command for the next turn.
    pub fn issue(&mut self, command: Command, online: bool) -> (r: Option<ClientMsg>)
        ensures
            final(self).spec_lockstep() == old(self).spec_lockstep(),
            final(self).spec_local_player() == old(self).spec_local_player(),
            final(self).spec_previous_positions() == old(self).spec_previous_positions(),
            online ==> r == Some(ClientMsg::Command(command)) && final(self).spec_pending()
                == old(self).spec_pending(),
            !online ==> r is None && final(self).spec_pending() == old(self).spec_pending().push(
                command,
            ),
    {
        if online {
            Some(ClientMsg::Command(command))
        } else {
            self.pending.push(command);
            None
        }
    }

    /// Online, the simulation lags behind the server: it holds more ticks than it should.
    pub fn lagging(&self) -> (r: bool)
        requires
            self.wf(),
            self.spec_lockstep().spec_turns().len() * TICKS_PER_TURN <= u32::MAX,
        ensures
            r == (self.spec_lockstep().spec_buffered_ticks() > MAX_BUFFERED_TICKS),
    {
        self.lockstep.buffered_ticks() > MAX_BUFFERED_TICKS
    }

    /// Whether [`Session::advance`] can run.
    pub fn can_advance(&self, online: bool) -> (r: bool)
        requires
            self.wf(),
        ensures
            r == self.spec_can_advance(online),
    {
        let ls = &self.lockstep;
        if ls.queued_turns() as u128 * 3 > 0xffff_ffffu128 || ls.sim().tick() == u64::MAX {
            return false;
        }
        if ls.buffered_ticks() > 0 {
            return ls.can_step();
        }
        if online {
            return true;
        }
        if ls.next_turn() == u32::MAX {
            return false;
        }
        let mut k: usize = 0;
        while k < self.pending.len()
            invariant
                self.wf(),
                !online,
                self.spec_lockstep().spec_turns().len() == 0,
                self.spec_lockstep().spec_sim().spec_tick() < u64::MAX,
                self.spec_lockstep().spec_next_turn() < u32::MAX,
                k <= self.pending@.len(),
                forall|m: int|
                    0 <= m < k ==> crate::sim::command_fits(
                        self.lockstep.spec_sim().spec_units(),
                        self.local_player,
                        #[trigger] self.pending@[m],
                    ),
            decreases self.pending@.len() - k,
        {
            if !self.lockstep.sim().accepts(self.local_player, &self.pending[k]) {
                proof {
                    let cmds = tagged(self.local_player, self.pending@);
                    assert(cmds[k as int] == (self.local_player, self.pending@[k as int]));
                    assert(!crate::sim::command_fits(
                        self.spec_lockstep().spec_sim().spec_units(),
                        cmds[k as int].0,
                        cmds[k as int].1,
                    ));
                }
                return false;
            }
            k += 1;
        }
        proof {
            let cmds = tagged(self.local_player, self.pending@);
            assert forall|m: int| 0 <= m < cmds.len() implies crate::sim::command_fits(
                self.spec_lockstep().spec_sim().spec_units(),
                #[trigger] cmds[m].0,
                cmds[m].1,
            ) by {
                assert(cmds[m] == (self.local_player, self.pending@[m]));
            }
        }
        true
    }

    /// Runs one tick, once real time allows it or the simulation lags. Solo, when no turn
    /// is buffered, the commands issued since the last turn become the next turn. Online,
    /// the checksum of every `CHECKSUM_INTERVAL`-th completed turn is to be reported.
    pub fn advance(&mut self, online: bool) -> (r: Advance)
        requires
            old(self).wf(),
            old(self).spec_can_advance(online),
        ensures
            final(self).wf(),
            final(self).spec_local_player() == old(self).spec_local_player(),
            ({
                let ls = old(self).spec_lockstep();
                let units0 = ls.spec_sim().spec_units();
                let solo_turn = ls.spec_turns().len() == 0;
                if solo_turn && online {
                    r is Wait && *final(self) == *old(self)
                } else {
                    let cmds = if solo_turn {
                        tagged(old(self).spec_local_player(), old(self).spec_pending())
                    } else {
                        ls.spec_turns()[0].commands@
                    };
                    let number = if solo_turn {
                        ls.spec_next_turn()
                    } else {
                        ls.spec_turns()[0].number as int
                    };
                    let units1 = stepped_units(
                        if ls.spec_tick_in_turn() == 0 {
                            applied_commands(ls.spec_sim().world_raw(), units0, cmds)
                        } else {
                            units0
                        },
                    );
                    let completed = ls.spec_tick_in_turn() == TICKS_PER_TURN - 1;
                    let tick1 = ls.spec_sim().spec_tick() + 1;
                    &&& final(self).spec_lockstep().spec_sim().spec_units() == units1
                    &&& final(self).spec_lockstep().spec_sim().spec_terrain()
                        == ls.spec_sim().spec_terrain()
                    &&& final(self).spec_lockstep().spec_next_turn() == ls.spec_next_turn() + if solo_turn {
                        1int
                    } else {
                        0int
                    }
                    &&& if solo_turn {
                        // The commands issued since the last turn became turn `next_turn`,
                        // whose first tick this was.
                        &&& final(self).spec_lockstep().spec_turns().len() == 1
                        &&& final(self).spec_lockstep().spec_turns()[0].number == ls.spec_next_turn()
                        &&& final(self).spec_lockstep().spec_turns()[0].commands@ == cmds
                        &&& final(self).spec_lockstep().spec_turns()[0].commands@.len()
                            == old(self).spec_pending().len()
                        &&& forall|k: int|
                            0 <= k < old(self).spec_pending().len() ==> #[trigger] final(self).spec_lockstep().spec_turns()[0].commands@[k] == (
                                old(self).spec_local_player(),
                                old(self).spec_pending()[k],
                            )
                    } else {
                        final(self).spec_lockstep().spec_turns() == if completed {
                            ls.spec_turns().drop_first()
                        } else {
                            ls.spec_turns()
                        }
                    }
                    &&& final(self).spec_lockstep().spec_sim().spec_tick() == tick1
                    &&& final(self).spec_previous_positions() == positions(units0)
                    &&& final(self).spec_pending() == if solo_turn {
                        Seq::<Command>::empty()
                    } else {
                        old(self).spec_pending()
                    }
                    &&& r == Advance::Ran(
                        if online && completed && number % (CHECKSUM_INTERVAL as int) == 0 {
                            Some(
                                ClientMsg::Checksum {
                                    turn: number as u32,
                                    hash: checksum_spec(tick1, units1, ls.spec_sim().spec_terrain()),
                                },
                            )
                        } else {
                            None
                        },
                    )
                }
            }),
    {
        if self.lockstep.buffered_ticks() == 0 {
            if online {
                // Wait for the server's next turn.
                return Advance::Wait;
            }
            let player = self.local_player;
            let mut pending: Vec<Command> = Vec::new();
            std::mem::swap(&mut pending, &mut self.pending);
            let ghost all = pending@;
            let n = pending.len();
            let mut commands: Vec<(PlayerId, Command)> = Vec::new();
            let mut k: usize = 0;
            while pending.len() > 0
                invariant
                    k <= all.len(),
                    all.len() == n,
                    pending@ == all.subrange(k as int, all.len() as int),
                    commands@ == tagged(player, all.subrange(0, k as int)),
                decreases pending@.len(),
            {
                let command = pending.remove(0);
                proof {
                    assert(tagged(player, all.subrange(0, k + 1)) =~= tagged(
                        player,
                        all.subrange(0, k as int),
                    ).push((player, command)));
                    assert(pending@ =~= all.subrange(k + 1, all.len() as int));
                }
                commands.push((player, command));
                k += 1;
            }
            proof {
                assert(all.subrange(0, k as int) =~= all);
            }
            let number = self.lockstep.next_turn();
            self.lockstep.push_turn(Turn { number, commands });
        }
        proof {
            lemma_tagged_keeps_order(old(self).spec_local_player(), old(self).spec_pending());
        }
        self.previous_positions = record_positions(self.lockstep.sim().units());
        proof {
            let units = self.lockstep.spec_sim().spec_units();
            assert(crate::sim::ids_sorted(units));
            assert forall|i: int, j: int|
                0 <= i < j < self.spec_previous_positions().len() implies (
            #[trigger] self.spec_previous_positions()[i]).0.0
                < (#[trigger] self.spec_previous_positions()[j]).0.0 by {
                assert(units[i].id.0 < units[j].id.0);
            }
        }
        let completed = self.lockstep.step();
        match completed {
            Some(turn) => {
                if online && turn % CHECKSUM_INTERVAL == 0 {
                    Advance::Ran(
                        Some(ClientMsg::Checksum { turn, hash: self.lockstep.sim().checksum() }),
                    )
                } else {
                    Advance::Ran(None)
                }
            },
            None => Advance::Ran(None),
        }
    }

    /// Position of unit `id` before the last tick.
    pub fn previous_position(&self, id: UnitId) -> (r: Option<FxVec2>)
        ensures
            match r {
                Some(p) => self.spec_previous_positions().contains((id, p)),
                None => forall|i: int|
                    0 <= i < self.spec_previous_positions().len() ==> (
                    #[trigger] self.spec_previous_positions()[i]).0 != id,
            },
    {
        let mut k: usize = 0;
        while k < self.previous_positions.len()
            invariant
                k <= self.previous_positions@.len(),
                forall|i: int| 0 <= i < k ==> (#[trigger] self.previous_positions@[i]).0 != id,
            decreases self.previous_positions@.len() - k,
        {
            let (unit, pos) = self.previous_positions[k];
            if unit == id {
                proof {
                    assert(self.previous_positions@[k as int] == (id, pos));
                }
                return Some(pos);
            }
            k += 1;
        }
        None
    }
}

/// Id and position of each unit, in order.
fn record_positions(units: &[Unit]) -> (r: Vec<(UnitId, FxVec2)>)
    ensures
        r@ == positions(units@),
{
    let mut out: Vec<(UnitId, FxVec2)> = Vec::new();
    let mut k: usize = 0;
    while k < units.len()
        invariant
            k <= units@.len(),
            out@ == positions(units@.subrange(0, k as int)),
        decreases units@.len() - k,
    {
        proof {
            assert(positions(units@.subrange(0, k + 1)) =~= positions(
                units@.subrange(0, k as int),
            ).push((units@[k as int].id, units@[k as int].pos)));
        }
        out.push((units[k].id, units[k].pos));
        k += 1;
    }
    proof {
        assert(units@.subrange(0, k as int) =~= units@);
    }
    out
}

} // verus!
