use ta_reborn::relay::{handshake, join_lobby, Match};
use ta_reborn::{ClientMsg, Command, ServerMsg, Turn, UnitId, PROTOCOL_VERSION};

#[test]
fn handshake_accepts_the_same_protocol_only() {
    assert_eq!(
        handshake(&Some(ClientMsg::Join { version: PROTOCOL_VERSION })),
        Ok(ServerMsg::Waiting)
    );
    assert_eq!(
        handshake(&Some(ClientMsg::Join { version: PROTOCOL_VERSION + 1 })),
        Err(Some(ServerMsg::VersionMismatch { server: PROTOCOL_VERSION }))
    );
    assert_eq!(handshake(&Some(ClientMsg::Checksum { turn: 0, hash: 0 })), Err(None));
    assert_eq!(handshake(&None), Err(None));
}

#[test]
fn lobby_starts_a_match_with_two_players() {
    let (waiting, full) = join_lobby(vec![], &vec![], "a");
    assert_eq!(waiting, vec!["a"]);
    assert_eq!(full, None);
    let (waiting, full) = join_lobby(waiting, &vec![true], "b");
    assert!(waiting.is_empty());
    assert_eq!(full, Some(vec!["a", "b"]));
}

#[test]
fn lobby_forgets_players_who_left() {
    let (waiting, full) = join_lobby(vec!["a"], &vec![false], "b");
    assert_eq!(waiting, vec!["b"]);
    assert_eq!(full, None);
}

#[test]
fn match_starts_each_player_with_its_number() {
    let m = Match::new(2);
    assert_eq!(
        m.start_message(42, 1),
        ServerMsg::Start { seed: 42, players: 2, you: 1 }
    );
}

#[test]
fn turns_hold_commands_in_order_of_arrival() {
    let mut m = Match::new(2);
    let stop = Command::Stop { units: vec![UnitId(3)] };
    let other = Command::Stop { units: vec![] };
    assert_eq!(m.on_inbound(1, Some(ClientMsg::Command(stop.clone()))), None);
    assert_eq!(m.on_inbound(0, Some(ClientMsg::Command(other.clone()))), None);
    assert_eq!(
        m.on_tick(),
        ServerMsg::Turn(Turn { number: 0, commands: vec![(1, stop), (0, other)] })
    );
    // A turn goes out even when empty.
    assert_eq!(m.on_tick(), ServerMsg::Turn(Turn { number: 1, commands: vec![] }));
    assert_eq!(m.turn(), 2);
}

#[test]
fn different_checksums_are_a_desync() {
    let mut m = Match::new(2);
    assert_eq!(m.on_inbound(0, Some(ClientMsg::Checksum { turn: 10, hash: 7 })), None);
    assert_eq!(
        m.on_inbound(1, Some(ClientMsg::Checksum { turn: 10, hash: 8 })),
        Some(ServerMsg::Desync { turn: 10 })
    );
    // Every player reported turn 10: it is forgotten, and a new report starts afresh.
    assert_eq!(m.on_inbound(1, Some(ClientMsg::Checksum { turn: 10, hash: 9 })), None);
    assert_eq!(m.on_inbound(0, Some(ClientMsg::Checksum { turn: 20, hash: 5 })), None);
    assert_eq!(m.on_inbound(1, Some(ClientMsg::Checksum { turn: 20, hash: 5 })), None);
}

#[test]
fn leaving_players_are_announced() {
    let mut m = Match::new(2);
    assert_eq!(m.on_inbound(1, None), Some(ServerMsg::PlayerLeft { player: 1 }));
    assert_eq!(m.on_inbound(0, Some(ClientMsg::Join { version: 1 })), None);
}

#[test]
fn rejects_other_protocol_versions() {
    assert_eq!(
        handshake(&Some(ClientMsg::Join { version: PROTOCOL_VERSION + 1 })),
        Err(Some(ServerMsg::VersionMismatch { server: PROTOCOL_VERSION }))
    );
}

#[test]
fn players_of_a_match_receive_the_same_turns() {
    // Two players join, and each is first told to wait; the second one fills the match.
    let join = Some(ClientMsg::Join { version: PROTOCOL_VERSION });
    assert_eq!(handshake(&join), Ok(ServerMsg::Waiting));
    let (waiting, full) = join_lobby(vec![], &vec![], 'a');
    assert_eq!(full, None);
    assert_eq!(handshake(&join), Ok(ServerMsg::Waiting));
    let (waiting, full) = join_lobby(waiting, &vec![true], 'b');
    assert!(waiting.is_empty());
    let players = full.expect("expected both players to start");
    assert_eq!(players, vec!['a', 'b']);

    let mut m = Match::new(players.len() as u8);
    let starts: Vec<ServerMsg> = (0..players.len()).map(|you| m.start_message(7, you as u8)).collect();
    assert_eq!(starts[0], ServerMsg::Start { seed: 7, players: 2, you: 0 });
    assert_eq!(starts[1], ServerMsg::Start { seed: 7, players: 2, you: 1 });

    // One message per turn is broadcast to every player, so both see the same turn.
    let command = Command::Stop { units: vec![] };
    assert_eq!(m.on_inbound(1, Some(ClientMsg::Command(command.clone()))), None);
    let turn = m.on_tick();
    assert_eq!(turn, ServerMsg::Turn(Turn { number: 0, commands: vec![(1, command)] }));

    assert_eq!(m.on_inbound(1, None), Some(ServerMsg::PlayerLeft { player: 1 }));
}
