use ta_reborn::{Command, Fx, FxVec2, Lockstep, Sim, Turn, TICKS_PER_TURN};

fn turn(number: u32, commands: Vec<(u8, Command)>) -> Turn {
    Turn { number, commands }
}

#[test]
fn runs_only_buffered_ticks_and_reports_completed_turns() {
    let mut lockstep = Lockstep::new(Sim::new(1, 1));
    assert_eq!(lockstep.buffered_ticks(), 0);
    lockstep.push_turn(turn(0, vec![]));
    lockstep.push_turn(turn(1, vec![]));
    assert_eq!(lockstep.buffered_ticks(), 2 * TICKS_PER_TURN);
    let completed: Vec<Option<u32>> =
        (0..2 * TICKS_PER_TURN).map(|_| lockstep.step()).collect();
    assert_eq!(completed, [None, None, Some(0), None, None, Some(1)]);
    assert_eq!(lockstep.buffered_ticks(), 0);
}

#[test]
fn commands_apply_at_turn_start() {
    let mut lockstep = Lockstep::new(Sim::new(1, 1));
    let id = lockstep.sim().units()[0].id;
    let target = FxVec2::new(Fx::from_int(10), Fx::from_int(10));
    lockstep.push_turn(turn(
        0,
        vec![(
            0,
            Command::Move {
                units: vec![id],
                target,
            },
        )],
    ));
    lockstep.step();
    assert_eq!(lockstep.sim().unit(id).unwrap().target, Some(target));
}

#[test]
fn turns_are_numbered_from_zero() {
    let mut lockstep = Lockstep::new(Sim::new(1, 1));
    assert_eq!(lockstep.next_turn(), 0);
    lockstep.push_turn(turn(0, vec![]));
    assert_eq!(lockstep.next_turn(), 1);
    assert_eq!(lockstep.queued_turns(), 1);
    lockstep.push_turn(turn(1, vec![]));
    assert_eq!(lockstep.queued_turns(), 2);
}

#[test]
fn can_step_needs_a_buffered_turn() {
    let mut lockstep = Lockstep::new(Sim::new(1, 1));
    assert!(!lockstep.can_step());
    lockstep.push_turn(turn(0, vec![]));
    assert!(lockstep.can_step());
    for _ in 0..TICKS_PER_TURN {
        assert!(lockstep.can_step());
        lockstep.step();
    }
    assert!(!lockstep.can_step());
    assert_eq!(lockstep.queued_turns(), 0);
    assert_eq!(lockstep.sim().tick(), TICKS_PER_TURN as u64);
}

#[test]
fn can_step_rejects_a_turn_whose_orders_overflow() {
    let mut lockstep = Lockstep::new(Sim::new(1, 1));
    let units: Vec<_> = lockstep.sim().units().iter().map(|u| u.id).collect();
    let far = FxVec2::new(Fx::from_raw(i64::MAX), Fx::from_int(0));
    lockstep.push_turn(turn(0, vec![(0, Command::Move { units, target: far })]));
    assert!(!lockstep.can_step());
}

#[test]
fn buffered_ticks_count_down_within_a_turn() {
    let mut lockstep = Lockstep::new(Sim::new(1, 1));
    lockstep.push_turn(turn(0, vec![]));
    assert_eq!(lockstep.buffered_ticks(), 3);
    assert_eq!(lockstep.step(), None);
    assert_eq!(lockstep.buffered_ticks(), 2);
    lockstep.push_turn(turn(1, vec![]));
    assert_eq!(lockstep.buffered_ticks(), 5);
}

#[test]
fn same_turns_give_the_same_game() {
    let run = || {
        let mut lockstep = Lockstep::new(Sim::new(7, 2));
        let a: Vec<_> = lockstep.sim().units().iter().filter(|u| u.owner == 0).map(|u| u.id).collect();
        let b: Vec<_> = lockstep.sim().units().iter().filter(|u| u.owner == 1).map(|u| u.id).collect();
        let target = FxVec2::new(Fx::from_int(128), Fx::from_int(128));
        lockstep.push_turn(turn(0, vec![(0, Command::Move { units: a, target })]));
        lockstep.push_turn(turn(1, vec![(1, Command::Move { units: b.clone(), target })]));
        lockstep.push_turn(turn(2, vec![(1, Command::Stop { units: b })]));
        while lockstep.buffered_ticks() > 0 {
            lockstep.step();
        }
        lockstep.sim().checksum()
    };
    assert_eq!(run(), run());
}

#[test]
fn ticks_never_run_ahead_of_the_turns() {
    let mut lockstep = Lockstep::new(Sim::new(1, 1));
    for number in 0..4 {
        lockstep.push_turn(turn(number, vec![]));
        for _ in 0..2 {
            lockstep.step();
            let ran = lockstep.sim().tick() as u32;
            assert_eq!(lockstep.buffered_ticks(), 3 * lockstep.next_turn() - ran);
        }
    }
    assert!(lockstep.sim().tick() as u32 <= 3 * lockstep.next_turn());
}
