use ta_reborn::session::{Advance, Session, MAX_BUFFERED_TICKS};
use ta_reborn::{ClientMsg, Command, Fx, FxVec2, Sim, Turn};

fn point(x: i32, z: i32) -> FxVec2 {
    FxVec2::new(Fx::from_int(x), Fx::from_int(z))
}

#[test]
fn solo_commands_wait_for_the_next_turn() {
    let mut session = Session::new(Sim::new(1, 1), 0);
    let id = session.lockstep().sim().units()[0].id;
    let command = Command::Move { units: vec![id], target: point(20, 20) };
    assert_eq!(session.issue(command, false), None);
    assert!(session.can_advance(false));
    assert_eq!(session.advance(false), Advance::Ran(None));
    assert_eq!(session.lockstep().next_turn(), 1);
    assert_eq!(session.lockstep().sim().unit(id).unwrap().target, Some(point(20, 20)));
}

#[test]
fn solo_turns_complete_every_three_ticks_without_checksums() {
    let mut session = Session::new(Sim::new(1, 1), 0);
    for _ in 0..9 {
        assert_eq!(session.advance(false), Advance::Ran(None));
    }
    assert_eq!(session.lockstep().next_turn(), 3);
    assert_eq!(session.lockstep().sim().tick(), 9);
}

#[test]
fn online_commands_go_to_the_server() {
    let mut session = Session::new(Sim::new(1, 2), 1);
    let command = Command::Stop { units: vec![] };
    assert_eq!(session.issue(command.clone(), true), Some(ClientMsg::Command(command)));
    // No turn from the server yet: wait.
    assert!(session.can_advance(true));
    assert_eq!(session.advance(true), Advance::Wait);
    assert_eq!(session.lockstep().sim().tick(), 0);
}

#[test]
fn online_reports_checksums_of_every_tenth_turn() {
    let mut session = Session::new(Sim::new(1, 2), 1);
    for number in 0..11 {
        session.receive_turn(Turn { number, commands: vec![] });
    }
    assert!(session.lagging());
    let mut reports = Vec::new();
    for _ in 0..33 {
        if let Advance::Ran(Some(msg)) = session.advance(true) {
            reports.push((msg, session.lockstep().sim().checksum()));
        }
    }
    assert_eq!(reports.len(), 2);
    for (msg, hash) in &reports[..1] {
        assert_eq!(*msg, ClientMsg::Checksum { turn: 0, hash: *hash });
    }
    assert_eq!(reports[1].0, ClientMsg::Checksum { turn: 10, hash: reports[1].1 });
    assert!(!session.lagging());
    assert!(MAX_BUFFERED_TICKS == 6);
}

#[test]
fn previous_positions_are_those_before_the_last_tick() {
    let mut session = Session::new(Sim::new(1, 1), 0);
    let id = session.lockstep().sim().units()[0].id;
    assert_eq!(session.previous_position(id), None);
    let start = session.lockstep().sim().unit(id).unwrap().pos;
    session.issue(Command::Move { units: vec![id], target: point(200, 200) }, false);
    session.advance(false);
    assert_eq!(session.previous_position(id), Some(start));
    assert_ne!(session.lockstep().sim().unit(id).unwrap().pos, start);
}
