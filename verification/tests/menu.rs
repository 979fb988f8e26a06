use ta_reborn::menu::{menu_on_event, start_session, start_solo, MenuStep, SOLO_SEED};
use ta_reborn::{ClientMsg, ServerMsg, Sim, Turn, PROTOCOL_VERSION};

#[test]
fn opened_connection_sends_join() {
    assert_eq!(
        menu_on_event(None),
        MenuStep::Send(ClientMsg::Join { version: PROTOCOL_VERSION })
    );
}

#[test]
fn handshake_answers_are_followed() {
    assert_eq!(menu_on_event(Some(ServerMsg::Waiting)), MenuStep::Waiting);
    assert_eq!(
        menu_on_event(Some(ServerMsg::Start { seed: 9, players: 2, you: 1 })),
        MenuStep::Start { seed: 9, players: 2, you: 1 }
    );
    assert_eq!(
        menu_on_event(Some(ServerMsg::VersionMismatch { server: 7 })),
        MenuStep::VersionMismatch { server: 7 }
    );
    assert_eq!(
        menu_on_event(Some(ServerMsg::Turn(Turn { number: 0, commands: vec![] }))),
        MenuStep::Ignore
    );
}

#[test]
fn start_session_checks_the_number_of_players() {
    assert!(start_session(3, 0, 0).is_none());
    assert!(start_session(3, 3, 0).is_none());
    let session = start_session(3, 2, 1).expect("two players are supported");
    assert_eq!(session.local_player(), 1);
    assert_eq!(session.lockstep().next_turn(), 0);
    assert_eq!(session.lockstep().sim().checksum(), Sim::new(3, 2).checksum());
}

#[test]
fn solo_uses_the_solo_map_and_one_player() {
    let session = start_solo();
    assert_eq!(session.local_player(), 0);
    assert_eq!(session.lockstep().sim().checksum(), Sim::new(SOLO_SEED, 1).checksum());
}
