//! The lockstep turn scheduler shared by solo and online games.
use crate::protocol::{Turn, TICKS_PER_TURN};
use crate::sim::{
    applied_units, command_fits, ids_sorted, lemma_applied_units_roster,
    lemma_owned_indices_same_roster, same_roster, stepped_units, Command, PlayerId, Sim, Unit,
};
use std::collections::VecDeque;
use vstd::prelude::*;

verus! {

/// The units after the commands `cmds` are applied in order, on a map of side `w`.
pub open spec fn applied_commands(w: int, units: Seq<Unit>, cmds: Seq<(PlayerId, Command)>) -> Seq<Unit>
    decreases cmds.len(),
{
    if cmds.len() == 0 {
        units
    } else {
        let (player, command) = cmds.last();
        applied_units(w, applied_commands(w, units, cmds.drop_last()), player, command)
    }
}

/// Every command of `cmds` can be applied to `units` (see [`Sim::apply`]).
pub open spec fn commands_fit(units: Seq<Unit>, cmds: Seq<(PlayerId, Command)>) -> bool {
    forall|k: int| 0 <= k < cmds.len() ==> command_fits(units, #[trigger] cmds[k].0, cmds[k].1)
}

/// Commands keep the ids and owners of the units, so whether a command fits does not
/// depend on the commands before it.
proof fn lemma_applied_commands_roster(w: int, units: Seq<Unit>, cmds: Seq<(PlayerId, Command)>)
    requires
        ids_sorted(units),
    ensures
        same_roster(units, applied_commands(w, units, cmds)),
        ids_sorted(applied_commands(w, units, cmds)),
        forall|player: PlayerId, command: Command|
            command_fits(applied_commands(w, units, cmds), player, command) == command_fits(
                units,
                player,
                command,
            ),
    decreases cmds.len(),
{
    if cmds.len() > 0 {
        lemma_applied_commands_roster(w, units, cmds.drop_last());
        let before = applied_commands(w, units, cmds.drop_last());
        let (player, command) = cmds.last();
        lemma_applied_units_roster(w, before, player, command);
    }
    let after = applied_commands(w, units, cmds);
    assert forall|player: PlayerId, command: Command|
        command_fits(after, player, command) == command_fits(units, player, command) by {
        match command {
            Command::Move { units: ids, .. } => {
                lemma_owned_indices_same_roster(units, after, player, ids@);
            },
            Command::Stop { .. } => {},
        }
    }
}

/// Runs a [`Sim`] from an ordered stream of turns. Solo and online games both drive
/// the simulation through this, so the same turns always produce the same game.
pub struct Lockstep {
    sim: Sim,
    turns: VecDeque<Turn>,
    next_turn: u32,
    /// Tick at which turn 0 starts (or started): the turns drive the ticks from there.
    origin: Ghost<int>,
}

impl Lockstep {
    pub closed spec fn spec_sim(&self) -> Sim {
        self.sim
    }

    /// Turns received and not yet completed, oldest first.
    pub closed spec fn spec_turns(&self) -> Seq<Turn> {
        self.turns@
    }

    pub closed spec fn spec_next_turn(&self) -> int {
        self.next_turn as int
    }

    /// Tick at which turn 0 starts: the start of the turn that the simulation was in when
    /// the lockstep took it over.
    pub closed spec fn spec_origin(&self) -> int {
        self.origin@
    }

    /// Tick of the current turn that the next step runs.
    pub open spec fn spec_tick_in_turn(&self) -> int {
        self.spec_sim().spec_tick() % (TICKS_PER_TURN as int)
    }

    /// Ticks that can run with the turns received so far.
    pub open spec fn spec_buffered_ticks(&self) -> int {
        self.spec_turns().len() * TICKS_PER_TURN - self.spec_tick_in_turn()
    }

    /// The simulation is well formed, the buffered turns are the last ones received,
    /// numbered in order, and a tick in the middle of a turn always has that turn buffered.
    pub open spec fn wf(&self) -> bool {
        &&& self.spec_sim().wf()
        &&& self.spec_turns().len() <= self.spec_next_turn()
        &&& self.spec_turns().len() > 0 || self.spec_tick_in_turn() == 0
        // Every completed turn ran its ticks, and the current one `spec_tick_in_turn()`.
        &&& self.spec_sim().spec_tick() == self.spec_origin() + TICKS_PER_TURN * (
        self.spec_next_turn() - self.spec_turns().len()) + self.spec_tick_in_turn()
        &&& forall|i: int|
            0 <= i < self.spec_turns().len() ==> (#[trigger] self.spec_turns()[i]).number
                == self.spec_next_turn() - self.spec_turns().len() + i
    }

    /// `next` is this lockstep after one [`Lockstep::step`] that returned `r`: the tick
    /// counter advances, the commands of the current turn are applied if the turn starts
    /// here, every unit takes one step, and the turn is consumed, and its number returned,
    /// on its last tick.
    pub open spec fn steps_to(&self, next: Lockstep, r: Option<u32>) -> bool {
        &&& next.spec_next_turn() == self.spec_next_turn()
        &&& next.spec_origin() == self.spec_origin()
        &&& next.spec_sim().spec_tick() == self.spec_sim().spec_tick() + 1
        &&& next.spec_sim().spec_terrain() == self.spec_sim().spec_terrain()
        &&& next.spec_sim().spec_units() == stepped_units(
            if self.spec_tick_in_turn() == 0 {
                applied_commands(
                    self.spec_sim().world_raw(),
                    self.spec_sim().spec_units(),
                    self.spec_turns()[0].commands@,
                )
            } else {
                self.spec_sim().spec_units()
            },
        )
        &&& next.spec_buffered_ticks() == self.spec_buffered_ticks() - 1
        &&& next.spec_turns().len() > 0 || next.spec_tick_in_turn() == 0
        &&& if self.spec_tick_in_turn() == TICKS_PER_TURN - 1 {
            r == Some(self.spec_turns()[0].number) && next.spec_turns()
                == self.spec_turns().drop_first()
        } else {
            r is None && next.spec_turns() == self.spec_turns()
        }
    }

    /// Takes over `sim` with no turn received yet. The lockstep is well formed when the
    /// simulation stands at the start of a turn, as every game does at its first tick.
    pub fn new(sim: Sim) -> (r: Lockstep)
        requires
            sim.wf(),
        ensures
            r.wf() == (sim.spec_tick() % (TICKS_PER_TURN as int) == 0),
            r.spec_sim() == sim,
            r.spec_turns() == Seq::<Turn>::empty(),
            r.spec_next_turn() == 0,
            r.spec_origin() == sim.spec_tick(),
    {
        Lockstep { sim, turns: VecDeque::new(), next_turn: 0, origin: Ghost(sim.spec_tick() as int) }
    }

    pub fn sim(&self) -> (r: &Sim)
        ensures
            *r == self.spec_sim(),
    {
        &self.sim
    }

    /// Number that the next pushed turn must have.
    pub fn next_turn(&self) -> (r: u32)
        ensures
            r == self.spec_next_turn(),
    {
        self.next_turn
    }

    /// Queues the next turn. Turns must be pushed in order, without gaps.
    pub fn push_turn(&mut self, turn: Turn)
        requires
            old(self).wf(),
            turn.number == old(self).spec_next_turn(),
            old(self).spec_next_turn() < u32::MAX,
        ensures
            final(self).wf(),
            final(self).spec_sim() == old(self).spec_sim(),
            final(self).spec_turns() == old(self).spec_turns().push(turn),
            final(self).spec_next_turn() == old(self).spec_next_turn() + 1,
            final(self).spec_origin() == old(self).spec_origin(),
            final(self).spec_buffered_ticks() == old(self).spec_buffered_ticks() + TICKS_PER_TURN,
    {
        self.next_turn = self.next_turn + 1;
        self.turns.push_back(turn);
    }

    /// Number of turns received and not yet completed.
    pub fn queued_turns(&self) -> (r: usize)
        ensures
            r == self.spec_turns().len(),
    {
        self.turns.len()
    }

    /// Ticks that can run with the turns received so far.
    pub fn buffered_ticks(&self) -> (r: u32)
        requires
            self.wf(),
            self.spec_turns().len() * TICKS_PER_TURN <= u32::MAX,
        ensures
            r == self.spec_buffered_ticks(),
    {
        self.turns.len() as u32 * TICKS_PER_TURN - self.tick_in_turn()
    }

    /// Whether [`Lockstep::step`] can run now: a turn is buffered, the tick counter has
    /// room, and the commands that the step would apply fit.
    pub fn can_step(&self) -> (r: bool)
        requires
            self.wf(),
        ensures
            r == (self.spec_turns().len() > 0 && self.spec_sim().spec_tick() < u64::MAX && (
            self.spec_tick_in_turn() == 0 ==> commands_fit(
                self.spec_sim().spec_units(),
                self.spec_turns()[0].commands@,
            ))),
    {
        if self.turns.len() == 0 || self.sim.tick() == u64::MAX {
            return false;
        }
        if self.tick_in_turn() != 0 {
            return true;
        }
        let commands = &self.turns[0].commands;
        let mut k: usize = 0;
        while k < commands.len()
            invariant
                self.wf(),
                self.spec_turns().len() > 0,
                self.spec_tick_in_turn() == 0,
                self.spec_sim().spec_tick() < u64::MAX,
                *commands == self.spec_turns()[0].commands,
                k <= commands@.len(),
                forall|m: int|
                    0 <= m < k ==> command_fits(
                        self.spec_sim().spec_units(),
                        #[trigger] commands@[m].0,
                        commands@[m].1,
                    ),
            decreases commands@.len() - k,
        {
            let (player, command) = &commands[k];
            if !self.sim.accepts(*player, command) {
                proof {
                    assert(!command_fits(
                        self.spec_sim().spec_units(),
                        commands@[k as int].0,
                        commands@[k as int].1,
                    ));
                }
                return false;
            }
            k += 1;
        }
        true
    }

    /// Runs one tick; requires `buffered_ticks() > 0`. The commands of a turn are applied
    /// at the start of its first tick. Returns the number of the turn that this tick
    /// completed, if any.
    pub fn step(&mut self) -> (r: Option<u32>)
        requires
            old(self).wf(),
            old(self).spec_turns().len() > 0,
            old(self).spec_sim().spec_tick() < u64::MAX,
            old(self).spec_tick_in_turn() == 0 ==> commands_fit(
                old(self).spec_sim().spec_units(),
                old(self).spec_turns()[0].commands@,
            ),
        ensures
            final(self).wf(),
            old(self).steps_to(*final(self), r),
    {
        let tick_in_turn = self.tick_in_turn();
        let ghost w = old(self).spec_sim().world_raw();
        let ghost units0 = old(self).spec_sim().spec_units();
        if tick_in_turn == 0 {
            let turn = &self.turns[0];
            let ghost cmds = turn.commands@;
            let mut k: usize = 0;
            while k < turn.commands.len()
                invariant
                    cmds == turn.commands@,
                    self.spec_turns() == old(self).spec_turns(),
                    self.spec_next_turn() == old(self).spec_next_turn(),
                    self.spec_origin() == old(self).spec_origin(),
                    self.spec_turns().len() > 0,
                    *turn == self.spec_turns()[0],
                    k <= cmds.len(),
                    self.sim.wf(),
                    self.sim.world_raw() == w,
                    self.sim.spec_tick() == old(self).spec_sim().spec_tick(),
                    self.sim.spec_terrain() == old(self).spec_sim().spec_terrain(),
                    ids_sorted(units0),
                    commands_fit(units0, cmds),
                    self.sim.spec_units() == applied_commands(w, units0, cmds.subrange(0, k as int)),
                decreases cmds.len() - k,
            {
                let (player, command) = &turn.commands[k];
                proof {
                    lemma_applied_commands_roster(w, units0, cmds.subrange(0, k as int));
                    assert(command_fits(units0, cmds[k as int].0, cmds[k as int].1));
                    let next = cmds.subrange(0, k + 1);
                    assert(next.drop_last() =~= cmds.subrange(0, k as int));
                    assert(next.last() == cmds[k as int]);
                }
                self.sim.apply(*player, command);
                k += 1;
            }
            proof {
                assert(cmds.subrange(0, cmds.len() as int) =~= cmds);
            }
        }
        self.sim.step();
        if tick_in_turn + 1 < TICKS_PER_TURN {
            return None;
        }
        match self.turns.pop_front() {
            Some(turn) => Some(turn.number),
            None => None,
        }
    }

    fn tick_in_turn(&self) -> (r: u32)
        ensures
            r == self.spec_tick_in_turn(),
    {
        (self.sim.tick() % TICKS_PER_TURN as u64) as u32
    }
}

/// The simulation never runs ahead of the turns received: the ticks it can still run
/// are those of every turn received, less those it ran since the lockstep took it over.
pub proof fn lemma_ticks_follow_turns(l: Lockstep)
    requires
        l.wf(),
    ensures
        l.spec_buffered_ticks() == TICKS_PER_TURN * l.spec_next_turn() - (
        l.spec_sim().spec_tick() - l.spec_origin()),
        l.spec_origin() <= l.spec_sim().spec_tick() <= l.spec_origin() + TICKS_PER_TURN
            * l.spec_next_turn(),
{
}

/// The units after `n` ticks in which no command is applied.
pub open spec fn stepped_n(units: Seq<Unit>, n: nat) -> Seq<Unit>
    decreases n,
{
    if n == 0 {
        units
    } else {
        stepped_units(stepped_n(units, (n - 1) as nat))
    }
}

/// The units after a whole turn, on a map of side `w`: its commands are applied in order,
/// then every tick of the turn moves the units one step.
pub open spec fn played_turn(w: int, units: Seq<Unit>, cmds: Seq<(PlayerId, Command)>) -> Seq<Unit> {
    stepped_n(applied_commands(w, units, cmds), TICKS_PER_TURN as nat)
}

/// The units after the turns `turns`, played in order from `units`.
pub open spec fn replayed(w: int, units: Seq<Unit>, turns: Seq<Turn>) -> Seq<Unit>
    decreases turns.len(),
{
    if turns.len() == 0 {
        units
    } else {
        played_turn(w, replayed(w, units, turns.drop_last()), turns.last().commands@)
    }
}

/// A replay of the turn list: from the start of a turn, as many steps as `k` whole turns
/// play the first `k` buffered turns in order, consume them, and report each one's number
/// on its last tick. The game reached depends only on where it started and on those turns.
pub proof fn lemma_steps_replay_turns(states: Seq<Lockstep>, results: Seq<Option<u32>>, k: nat)
    requires
        states.len() == k * TICKS_PER_TURN + 1,
        results.len() == k * TICKS_PER_TURN,
        states[0].spec_tick_in_turn() == 0,
        k <= states[0].spec_turns().len(),
        forall|i: int|
            #![trigger results[i]]
            0 <= i < results.len() ==> states[i].steps_to(states[i + 1], results[i]),
    ensures
        states.last().spec_sim().spec_units() == replayed(
            states[0].spec_sim().world_raw(),
            states[0].spec_sim().spec_units(),
            states[0].spec_turns().take(k as int),
        ),
        states.last().spec_sim().spec_tick() == states[0].spec_sim().spec_tick() + k
            * TICKS_PER_TURN,
        states.last().spec_sim().spec_terrain() == states[0].spec_sim().spec_terrain(),
        states.last().spec_turns() == states[0].spec_turns().skip(k as int),
        forall|j: int|
            0 <= j < k ==> results[j * TICKS_PER_TURN + TICKS_PER_TURN - 1] == Some(
                #[trigger] states[0].spec_turns()[j].number,
            ),
        forall|i: int|
            0 <= i < results.len() && i % (TICKS_PER_TURN as int) != TICKS_PER_TURN - 1
                ==> #[trigger] results[i] is None,
    decreases k,
{
    let s0 = states[0];
    let w = s0.spec_sim().world_raw();
    let turns0 = s0.spec_turns();
    if k == 0 {
        assert(turns0.take(0) =~= Seq::<Turn>::empty());
        assert(turns0.skip(0) =~= turns0);
    } else {
        let m = (k - 1) * TICKS_PER_TURN;
        let head = states.subrange(0, m + 1);
        let head_results = results.subrange(0, m);
        assert forall|i: int|
            #![trigger head_results[i]]
            0 <= i < head_results.len() implies head[i].steps_to(
            head[i + 1],
            head_results[i],
        ) by {
            assert(results[i] == head_results[i]);
        }
        lemma_steps_replay_turns(head, head_results, (k - 1) as nat);
        assert(head.last() == states[m]);
        let s = states[m];
        let a = states[m + 1];
        let b = states[m + 2];
        let c = states[m + 3];
        assert(results[m] == results[m]);
        assert(results[m + 1] == results[m + 1]);
        assert(results[m + 2] == results[m + 2]);
        assert(s.steps_to(a, results[m]));
        assert(a.steps_to(b, results[m + 1]));
        assert(b.steps_to(c, results[m + 2]));
        assert(s.spec_tick_in_turn() == 0);
        assert(a.spec_tick_in_turn() == 1);
        assert(b.spec_tick_in_turn() == 2);
        assert(s.spec_turns() == turns0.skip(k - 1));
        assert(s.spec_turns()[0] == turns0[k - 1]);
        assert(s.spec_sim().world_raw() == w);
        let cmds = turns0[k - 1].commands@;
        let before = replayed(w, s0.spec_sim().spec_units(), turns0.take(k - 1));
        assert(c.spec_sim().spec_units() == played_turn(w, before, cmds)) by {
            reveal_with_fuel(stepped_n, 4);
        }
        let taken = turns0.take(k as int);
        assert(taken.drop_last() =~= turns0.take(k - 1));
        assert(taken.last() == turns0[k - 1]);
        assert(states.last() == c);
        assert(c.spec_turns() =~= turns0.skip(k as int));
        assert forall|j: int| 0 <= j < k implies results[j * TICKS_PER_TURN + TICKS_PER_TURN
            - 1] == Some(#[trigger] turns0[j].number) by {
            if j < k - 1 {
                assert(head_results[j * TICKS_PER_TURN + TICKS_PER_TURN - 1] == results[j
                    * TICKS_PER_TURN + TICKS_PER_TURN - 1]);
            } else {
                assert(j * TICKS_PER_TURN + TICKS_PER_TURN - 1 == m + 2);
            }
        }
        assert forall|i: int|
            0 <= i < results.len() && i % (TICKS_PER_TURN as int) != TICKS_PER_TURN - 1
                implies #[trigger] results[i] is None by {
            if i < m {
                assert(head_results[i] == results[i]);
            }
        }
    }
}

/// The same turns give the same game: two runs that start from the same simulation, at
/// the start of a turn, and step through the same turns reach the same state.
pub proof fn lemma_same_turns_same_game(
    a: Seq<Lockstep>,
    ra: Seq<Option<u32>>,
    b: Seq<Lockstep>,
    rb: Seq<Option<u32>>,
    k: nat,
)
    requires
        a.len() == k * TICKS_PER_TURN + 1,
        ra.len() == k * TICKS_PER_TURN,
        b.len() == k * TICKS_PER_TURN + 1,
        rb.len() == k * TICKS_PER_TURN,
        a[0].spec_tick_in_turn() == 0,
        k <= a[0].spec_turns().len(),
        k <= b[0].spec_turns().len(),
        forall|i: int|
            #![trigger ra[i]]
            0 <= i < ra.len() ==> a[i].steps_to(a[i + 1], ra[i]),
        forall|i: int|
            #![trigger rb[i]]
            0 <= i < rb.len() ==> b[i].steps_to(b[i + 1], rb[i]),
        a[0].spec_sim().spec_tick() == b[0].spec_sim().spec_tick(),
        a[0].spec_sim().spec_terrain() == b[0].spec_sim().spec_terrain(),
        a[0].spec_sim().spec_units() == b[0].spec_sim().spec_units(),
        a[0].spec_turns().take(k as int) == b[0].spec_turns().take(k as int),
    ensures
        a.last().spec_sim().spec_tick() == b.last().spec_sim().spec_tick(),
        a.last().spec_sim().spec_terrain() == b.last().spec_sim().spec_terrain(),
        a.last().spec_sim().spec_units() == b.last().spec_sim().spec_units(),
        ra == rb,
{
    lemma_steps_replay_turns(a, ra, k);
    lemma_steps_replay_turns(b, rb, k);
    assert forall|i: int| 0 <= i < ra.len() implies ra[i] == rb[i] by {
        let j = i / (TICKS_PER_TURN as int);
        if i % (TICKS_PER_TURN as int) == TICKS_PER_TURN - 1 {
            assert(i == j * TICKS_PER_TURN + TICKS_PER_TURN - 1);
            assert(0 <= j < k);
            assert(a[0].spec_turns().take(k as int)[j] == a[0].spec_turns()[j]);
            assert(b[0].spec_turns().take(k as int)[j] == b[0].spec_turns()[j]);
            assert(a[0].spec_turns()[j].number == b[0].spec_turns()[j].number);
        }
    }
    assert(ra =~= rb);
}

/// Applying commands one by one, as [`Sim::apply`] states it, applies them in order.
proof fn lemma_commands_by_hand(states: Seq<Sim>, cmds: Seq<(PlayerId, Command)>, j: int)
    requires
        states.len() >= cmds.len() + 1,
        0 <= j <= cmds.len(),
        forall|i: int|
            #![trigger states[i]]
            0 <= i < cmds.len() ==> states[i].moved_by(states[i + 1], Some(cmds[i])),
    ensures
        states[j].spec_units() == applied_commands(
            states[0].world_raw(),
            states[0].spec_units(),
            cmds.take(j),
        ),
        states[j].spec_tick() == states[0].spec_tick(),
        states[j].spec_terrain() == states[0].spec_terrain(),
    decreases j,
{
    if j == 0 {
        assert(cmds.take(0) =~= Seq::<(PlayerId, Command)>::empty());
    } else {
        lemma_commands_by_hand(states, cmds, j - 1);
        assert(states[j - 1].moved_by(states[j], Some(cmds[j - 1])));
        assert(cmds.take(j).drop_last() =~= cmds.take(j - 1));
        assert(cmds.take(j).last() == cmds[j - 1]);
    }
}

/// Playing a turn through the lockstep is playing it by hand: applying its commands in
/// order, as [`Sim::apply`] states it, then one step per tick of the turn, as
/// [`Sim::step`] states it, gives the units of [`played_turn`].
pub proof fn lemma_turn_by_hand(states: Seq<Sim>, cmds: Seq<(PlayerId, Command)>)
    requires
        states.len() == cmds.len() + TICKS_PER_TURN + 1,
        forall|i: int|
            #![trigger states[i]]
            0 <= i < cmds.len() ==> states[i].moved_by(states[i + 1], Some(cmds[i])),
        forall|i: int|
            #![trigger states[i]]
            cmds.len() <= i < cmds.len() + TICKS_PER_TURN ==> states[i].moved_by(
                states[i + 1],
                None,
            ),
    ensures
        states.last().spec_units() == played_turn(
            states[0].world_raw(),
            states[0].spec_units(),
            cmds,
        ),
        states.last().spec_tick() == states[0].spec_tick() + TICKS_PER_TURN,
        states.last().spec_terrain() == states[0].spec_terrain(),
{
    let m = cmds.len() as int;
    lemma_commands_by_hand(states, cmds, m);
    assert(cmds.take(m) =~= cmds);
    assert(states[m].moved_by(states[m + 1], None));
    assert(states[m + 1].moved_by(states[m + 2], None));
    assert(states[m + 2].moved_by(states[m + 3], None));
    assert(states.last() == states[m + 3]);
    reveal_with_fuel(stepped_n, 4);
}

} // verus!
