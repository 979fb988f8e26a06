//! Decisions of the relay server, which pairs players into matches and clocks the
//! lockstep turns. The server never simulates anything: each match collects the commands
//! sent by its players and broadcasts them as one [`Turn`] every turn duration, so every
//! client applies the same turns and computes the same game.
//!
//! Sockets, tasks and timers are the server program's; the functions here take what it
//! received and say what it must send.
use crate::protocol::{ClientMsg, ServerMsg, Turn, PLAYERS_PER_MATCH, PROTOCOL_VERSION};
use crate::sim::{Command, PlayerId};
use std::collections::BTreeMap;
use vstd::prelude::*;

verus! {

broadcast use vstd::std_specs::btree::group_btree_axioms;

/// Answer to the first message of a connection. `Ok` holds the reply to send to a client
/// that joins the lobby: it is told to wait for an opponent. `Err` closes the connection,
/// after sending the message it holds, if any.
pub fn handshake(first: &Option<ClientMsg>) -> (r: Result<ServerMsg, Option<ServerMsg>>)
    ensures
        match first {
            Some(ClientMsg::Join { version }) => if *version == PROTOCOL_VERSION {
                r == Ok::<ServerMsg, Option<ServerMsg>>(ServerMsg::Waiting)
            } else {
                r == Err::<ServerMsg, Option<ServerMsg>>(
                    Some(ServerMsg::VersionMismatch { server: PROTOCOL_VERSION }),
                )
            },
            _ => r == Err::<ServerMsg, Option<ServerMsg>>(None),
        },
{
    match first {
        Some(ClientMsg::Join { version }) => {
            if *version == PROTOCOL_VERSION {
                Ok(ServerMsg::Waiting)
            } else {
                Err(Some(ServerMsg::VersionMismatch { server: PROTOCOL_VERSION }))
            }
        },
        _ => Err(None),
    }
}

/// The entries of `s` for which `keep` holds, in order.
pub open spec fn kept<T>(s: Seq<T>, keep: Seq<bool>) -> Seq<T>
    decreases s.len(),
{
    if s.len() == 0 || keep.len() == 0 {
        Seq::empty()
    } else {
        let prev = kept(s.drop_last(), keep.drop_last());
        if keep.last() {
            prev.push(s.last())
        } else {
            prev
        }
    }
}

/// A player joins the lobby. `open[i]` tells whether the `i`-th waiting player is still
/// there; those who left while waiting are forgotten. Once enough players wait, they
/// leave the lobby together, in order of arrival, to start a match: the second result.
pub fn join_lobby<T>(waiting: Vec<T>, open: &Vec<bool>, seat: T) -> (r: (Vec<T>, Option<Vec<T>>))
    requires
        waiting@.len() == open@.len(),
    ensures
        ({
            let queue = kept(waiting@, open@).push(seat);
            if queue.len() == PLAYERS_PER_MATCH {
                r.0@ == Seq::<T>::empty() && (r.1 matches Some(players) && players@ == queue)
            } else {
                r.0@ == queue && r.1 is None
            }
        }),
{
    let ghost all = waiting@;
    let mut waiting = waiting;
    let n = waiting.len();
    let mut queue: Vec<T> = Vec::new();
    let mut k: usize = 0;
    // Forget players who left while waiting.
    while waiting.len() > 0
        invariant
            all.len() == open@.len(),
            all.len() == n,
            k <= all.len(),
            waiting@ == all.subrange(k as int, all.len() as int),
            queue@ == kept(all.subrange(0, k as int), open@.subrange(0, k as int)),
        decreases waiting@.len(),
    {
        assert(k < all.len());
        let player = waiting.remove(0);
        proof {
            let next = all.subrange(0, k + 1);
            let keep = open@.subrange(0, k + 1);
            assert(next.drop_last() =~= all.subrange(0, k as int));
            assert(keep.drop_last() =~= open@.subrange(0, k as int));
            assert(next.last() == player);
            assert(waiting@ =~= all.subrange(k + 1, all.len() as int));
        }
        if open[k] {
            queue.push(player);
        }
        k += 1;
    }
    proof {
        assert(all.subrange(0, k as int) =~= all);
        assert(open@.subrange(0, k as int) =~= open@);
    }
    queue.push(seat);
    if queue.len() == PLAYERS_PER_MATCH as usize {
        (Vec::new(), Some(queue))
    } else {
        (queue, None)
    }
}

/// Turn numbers, the keys of the checksum map, are ordered as the map needs.
proof fn lemma_turn_keys_ordered()
    ensures
        vstd::laws_cmp::obeys_cmp::<u32>(),
{
}

/// Decisions of a running match: the commands it collects, the turns it clocks, and the
/// checksums its players report.
pub struct Match {
    players: u8,
    turn: u32,
    commands: Vec<(PlayerId, Command)>,
    /// First checksum received for each turn, and how many players reported it.
    checksums: BTreeMap<u32, (u64, usize)>,
}

impl Match {
    pub closed spec fn spec_players(&self) -> int {
        self.players as int
    }

    /// Number of the next turn.
    pub closed spec fn spec_turn(&self) -> int {
        self.turn as int
    }

    /// Commands received since the last turn, in order of arrival.
    pub closed spec fn spec_commands(&self) -> Seq<(PlayerId, Command)> {
        self.commands@
    }

    /// For each turn that some players reported, the first checksum and the number of
    /// reports.
    pub closed spec fn spec_checksums(&self) -> Map<u32, (u64, usize)> {
        self.checksums@
    }

    /// A match has players, and every pending turn has fewer reports than players.
    pub open spec fn wf(&self) -> bool {
        &&& self.spec_players() >= 1
        &&& forall|t: u32| #[trigger]
            self.spec_checksums().contains_key(t) ==> self.spec_checksums()[t].1
                < self.spec_players()
    }

    /// `next` is this match after `event`, answered by `out`: a turn falls due (`None`),
    /// as [`Match::on_tick`] states it, or a message of a player, or its leaving, comes in
    /// (`Some`), and collects its command, as [`Match::on_inbound`] states it.
    pub open spec fn handles(
        &self,
        next: Match,
        event: Option<(PlayerId, Option<ClientMsg>)>,
        out: Option<ServerMsg>,
    ) -> bool {
        match event {
            None => {
                &&& out matches Some(ServerMsg::Turn(turn)) && turn.number == self.spec_turn()
                    && turn.commands@ == self.spec_commands()
                &&& next.spec_turn() == self.spec_turn() + 1
                &&& next.spec_commands() == Seq::<(PlayerId, Command)>::empty()
            },
            Some((player, msg)) => {
                &&& next.spec_turn() == self.spec_turn()
                &&& next.spec_commands() == match msg {
                    Some(ClientMsg::Command(command)) => self.spec_commands().push(
                        (player, command),
                    ),
                    _ => self.spec_commands(),
                }
            },
        }
    }

    pub fn new(players: u8) -> (r: Match)
        requires
            players >= 1,
        ensures
            r.wf(),
            r.spec_players() == players,
            r.spec_turn() == 0,
            r.spec_commands() == Seq::<(PlayerId, Command)>::empty(),
            r.spec_checksums() == Map::<u32, (u64, usize)>::empty(),
    {
        Match { players, turn: 0, commands: Vec::new(), checksums: BTreeMap::new() }
    }

    /// Number of the next turn.
    pub fn turn(&self) -> (r: u32)
        ensures
            r == self.spec_turn(),
    {
        self.turn
    }

    /// The message that starts the match for player `you`.
    pub fn start_message(&self, seed: u64, you: PlayerId) -> (r: ServerMsg)
        ensures
            r == (ServerMsg::Start { seed, players: self.spec_players() as u8, you }),
    {
        ServerMsg::Start { seed, players: self.players, you }
    }

    /// The turn is due: every player receives the commands collected since the last turn,
    /// in order of arrival, even when there are none.
    pub fn on_tick(&mut self) -> (r: ServerMsg)
        requires
            old(self).spec_turn() < u32::MAX,
        ensures
            r == ServerMsg::Turn(
                Turn {
                    number: old(self).spec_turn() as u32,
                    commands: r->Turn_0.commands,
                },
            ),
            r->Turn_0.commands@ == old(self).spec_commands(),
            final(self).spec_turn() == old(self).spec_turn() + 1,
            final(self).spec_commands() == Seq::<(PlayerId, Command)>::empty(),
            final(self).spec_players() == old(self).spec_players(),
            final(self).spec_checksums() == old(self).spec_checksums(),
            old(self).handles(*final(self), None, Some(r)),
    {
        let mut commands: Vec<(PlayerId, Command)> = Vec::new();
        std::mem::swap(&mut commands, &mut self.commands);
        let number = self.turn;
        self.turn = self.turn + 1;
        ServerMsg::Turn(Turn { number, commands })
    }

    /// A message from `player`, or `None` when the player disconnected. Returns the
    /// message to broadcast to every player, if any.
    pub fn on_inbound(&mut self, player: PlayerId, msg: Option<ClientMsg>) -> (r: Option<ServerMsg>)
        requires
            old(self).wf(),
        ensures
            final(self).wf(),
            final(self).spec_players() == old(self).spec_players(),
            final(self).spec_turn() == old(self).spec_turn(),
            old(self).handles(*final(self), Some((player, msg)), r),
            match msg {
                None => {
                    &&& r == Some(ServerMsg::PlayerLeft { player })
                    &&& final(self).spec_commands() == old(self).spec_commands()
                    &&& final(self).spec_checksums() == old(self).spec_checksums()
                },
                Some(ClientMsg::Command(command)) => {
                    &&& r is None
                    &&& final(self).spec_commands() == old(self).spec_commands().push(
                        (player, command),
                    )
                    &&& final(self).spec_checksums() == old(self).spec_checksums()
                },
                Some(ClientMsg::Checksum { turn, hash }) => {
                    let (first, reports) = if old(self).spec_checksums().contains_key(turn) {
                        old(self).spec_checksums()[turn]
                    } else {
                        (hash, 0usize)
                    };
                    &&& r == if first != hash {
                        Some(ServerMsg::Desync { turn })
                    } else {
                        None
                    }
                    &&& final(self).spec_commands() == old(self).spec_commands()
                    &&& final(self).spec_checksums() == if reports + 1 == old(self).spec_players() {
                        old(self).spec_checksums().remove(turn)
                    } else {
                        old(self).spec_checksums().insert(turn, (first, (reports + 1) as usize))
                    }
                },
                Some(ClientMsg::Join { .. }) => {
                    &&& r is None
                    &&& final(self).spec_commands() == old(self).spec_commands()
                    &&& final(self).spec_checksums() == old(self).spec_checksums()
                },
            },
    {
        match msg {
            None => Some(ServerMsg::PlayerLeft { player }),
            Some(ClientMsg::Command(command)) => {
                self.commands.push((player, command));
                assert(self.spec_checksums() == old(self).spec_checksums());
                None
            },
            Some(ClientMsg::Checksum { turn, hash }) => {
                proof {
                    lemma_turn_keys_ordered();
                }
                let (first, reports) = match self.checksums.get(&turn) {
                    Some(entry) => {
                        assert(self.spec_checksums().contains_key(turn));
                        assert(*entry == self.spec_checksums()[turn]);
                        *entry
                    },
                    None => (hash, 0),
                };
                let reports = reports + 1;
                if reports == self.players as usize {
                    self.checksums.remove(&turn);
                    assert(self.spec_checksums() == old(self).spec_checksums().remove(turn));
                } else {
                    self.checksums.insert(turn, (first, reports));
                    assert(self.spec_checksums() == old(self).spec_checksums().insert(
                        turn,
                        (first, reports),
                    ));
                }
                if first != hash {
                    Some(ServerMsg::Desync { turn })
                } else {
                    None
                }
            },
            Some(ClientMsg::Join { .. }) => None,
        }
    }
}

/// Number of turns that fell due among `events`.
pub open spec fn turns_due(events: Seq<Option<(PlayerId, Option<ClientMsg>)>>) -> int
    decreases events.len(),
{
    if events.len() == 0 {
        0
    } else {
        turns_due(events.drop_last()) + if events.last() is None {
            1int
        } else {
            0int
        }
    }
}

/// The commands received among `events` since the last turn fell due, with their senders,
/// in order of arrival.
pub open spec fn commands_since_turn(events: Seq<Option<(PlayerId, Option<ClientMsg>)>>) -> Seq<
    (PlayerId, Command),
>
    decreases events.len(),
{
    if events.len() == 0 {
        Seq::empty()
    } else {
        match events.last() {
            None => Seq::empty(),
            Some((player, Some(ClientMsg::Command(command)))) => commands_since_turn(
                events.drop_last(),
            ).push((player, command)),
            Some(_) => commands_since_turn(events.drop_last()),
        }
    }
}

/// The turns of a match are numbered without gaps, and each holds exactly the commands
/// received since the turn before, in order of arrival. `states` are the match after each
/// of `events`, starting with no command collected; `outs` are what it broadcast.
pub proof fn lemma_turns_hold_commands_since_last(
    states: Seq<Match>,
    events: Seq<Option<(PlayerId, Option<ClientMsg>)>>,
    outs: Seq<Option<ServerMsg>>,
)
    requires
        states.len() == events.len() + 1,
        outs.len() == events.len(),
        states[0].spec_commands() == Seq::<(PlayerId, Command)>::empty(),
        forall|i: int|
            #![trigger events[i]]
            0 <= i < events.len() ==> states[i].handles(states[i + 1], events[i], outs[i]),
    ensures
        forall|i: int|
            0 <= i < states.len() ==> {
                &&& (#[trigger] states[i]).spec_turn() == states[0].spec_turn() + turns_due(
                    events.take(i),
                )
                &&& states[i].spec_commands() == commands_since_turn(events.take(i))
            },
        forall|i: int|
            0 <= i < events.len() && #[trigger] events[i] is None ==> (outs[i] matches Some(
                ServerMsg::Turn(turn),
            ) && turn.number == states[0].spec_turn() + turns_due(events.take(i))
                && turn.commands@ == commands_since_turn(events.take(i))),
    decreases events.len(),
{
    if events.len() > 0 {
        let n = events.len() - 1;
        let head = states.subrange(0, n + 1);
        let head_events = events.subrange(0, n);
        let head_outs = outs.subrange(0, n);
        assert forall|i: int|
            #![trigger head_events[i]]
            0 <= i < head_events.len() implies head[i].handles(
            head[i + 1],
            head_events[i],
            head_outs[i],
        ) by {
            assert(events[i] == head_events[i]);
        }
        lemma_turns_hold_commands_since_last(head, head_events, head_outs);
        assert(events[n] == events[n]);
        assert(head[n] == states[n]);
        assert(head[0] == states[0]);
        assert(events.take(n + 1).drop_last() =~= events.take(n));
        assert(events.take(n + 1).last() == events[n]);
        assert(head_events.take(n) =~= events.take(n));
        assert forall|i: int| 0 <= i < states.len() implies {
            &&& (#[trigger] states[i]).spec_turn() == states[0].spec_turn() + turns_due(
                events.take(i),
            )
            &&& states[i].spec_commands() == commands_since_turn(events.take(i))
        } by {
            if i <= n {
                assert(head[i] == states[i]);
                assert(head_events.take(i) =~= events.take(i));
            }
        }
        assert forall|i: int|
            0 <= i < events.len() && #[trigger] events[i] is None implies (outs[i] matches Some(
                ServerMsg::Turn(turn),
            ) && turn.number == states[0].spec_turn() + turns_due(events.take(i))
                && turn.commands@ == commands_since_turn(events.take(i))) by {
            if i < n {
                assert(head_events[i] == events[i]);
                assert(head_outs[i] == outs[i]);
                assert(head_events.take(i) =~= events.take(i));
            } else {
                assert(states[i].handles(states[i + 1], events[i], outs[i]));
                assert(states[i].spec_turn() == states[0].spec_turn() + turns_due(events.take(i)));
            }
        }
    }
}

} // verus!
