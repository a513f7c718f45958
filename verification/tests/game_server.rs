use relay_server::game::server::{
    GameAction, GameEvent, GameMessage, GameServer, GameServerConfig,
};
use relay_server::transport::common::TransferChannels;

fn config(whitelist: &[&str], versions: &[&str], relay_id: Option<&str>, registry: bool) -> GameServerConfig {
    GameServerConfig {
        app_whitelist: whitelist.iter().map(|s| s.to_string()).collect(),
        allowed_versions: versions.iter().map(|s| s.to_string()).collect(),
        relay_id: relay_id.map(|s| s.to_string()),
        registry_url: if registry { Some("http://registry".to_string()) } else { None },
        relay_api_key: if registry { Some("key".to_string()) } else { None },
    }
}

fn message(server: &mut GameServer, client_id: u64, m: GameMessage) -> Vec<GameAction> {
    let event = GameEvent::MessageReceived { client_id, message: Some(m), channel: TransferChannels::Reliable };
    assert!(server.handles(&event));
    server.handle_event(event)
}

fn auth(server: &mut GameServer, client_id: u64, app: &str, version: &str) -> Vec<GameAction> {
    message(
        server,
        client_id,
        GameMessage::Authenticate { app_id: app.to_string(), version: version.to_string() },
    )
}

fn sent(action: &GameAction) -> (u64, &GameMessage) {
    match action {
        GameAction::Send { target, message, channel: TransferChannels::Reliable } => (*target, message),
        _ => panic!("not a reliable send"),
    }
}

#[test]
fn app_outside_whitelist_is_refused_and_dropped() {
    let mut s = GameServer::new(config(&["good"], &[], None, false));
    let outs = auth(&mut s, 1, "bad", "1");
    assert_eq!(outs.len(), 2);
    match sent(&outs[0]).1 {
        GameMessage::Error { error_code, error_message } => {
            assert_eq!(*error_code, 401);
            assert_eq!(error_message, "Unauthorized");
        }
        m => panic!("unexpected {:?}", m),
    }
    assert!(matches!(outs[1], GameAction::Disconnect { target: 1 }));
    // Still unauthenticated.
    let outs = message(&mut s, 1, GameMessage::CreateRoom);
    match sent(&outs[0]).1 {
        GameMessage::Error { error_code: 0, error_message } => assert_eq!(error_message, "Unauthorized"),
        m => panic!("unexpected {:?}", m),
    }
}

#[test]
fn version_refusal_lists_the_allowed_versions() {
    let mut s = GameServer::new(config(&[], &["1.0", "1.1"], None, false));
    let outs = auth(&mut s, 1, "game", "0.9");
    match sent(&outs[0]).1 {
        GameMessage::Error { error_code: 401, error_message } => {
            assert_eq!(error_message, "Version 0.9 is not allowed\nAllowed versions: 1.0, 1.1")
        }
        m => panic!("unexpected {:?}", m),
    }
    assert!(matches!(outs[1], GameAction::Disconnect { target: 1 }));
}

#[test]
fn create_join_ready_and_play() {
    let mut s = GameServer::new(config(&[], &[], Some("eu"), true));
    let outs = auth(&mut s, 10, "game", "1");
    assert!(matches!(sent(&outs[0]), (10, GameMessage::ClientAuthenticated)));
    auth(&mut s, 20, "game", "1");
    auth(&mut s, 30, "game", "1");

    let outs = message(&mut s, 10, GameMessage::CreateRoom);
    assert_eq!(outs.len(), 2);
    match &outs[0] {
        GameAction::RegisterRoom { room_id, app_id } => {
            assert_eq!(room_id, "eu_10");
            assert_eq!(app_id, "game");
        }
        _ => panic!("expected a registration"),
    }
    match sent(&outs[1]) {
        (10, GameMessage::ConnectedToRoom { room_id, peer_id: 1, existing_peers }) => {
            assert_eq!(room_id, "eu_10");
            assert!(existing_peers.is_empty());
        }
        m => panic!("unexpected {:?}", m),
    }

    let outs = message(&mut s, 20, GameMessage::JoinRoom { room_id: "eu_10".to_string() });
    match sent(&outs[0]) {
        (20, GameMessage::ConnectedToRoom { peer_id: 2, existing_peers, .. }) => {
            assert_eq!(existing_peers, &vec![1])
        }
        m => panic!("unexpected {:?}", m),
    }
    let outs = message(&mut s, 30, GameMessage::JoinRoom { room_id: "eu_10".to_string() });
    match sent(&outs[0]) {
        (30, GameMessage::ConnectedToRoom { peer_id: 3, existing_peers, .. }) => {
            assert_eq!(existing_peers, &vec![1, 2])
        }
        m => panic!("unexpected {:?}", m),
    }

    // Ready: the others learn that peer 3 joined; a second ready is ignored.
    let outs = message(&mut s, 30, GameMessage::PeerReady);
    let mut targets: Vec<u64> = outs
        .iter()
        .map(|a| match sent(a) {
            (t, GameMessage::PeerJoinedRoom { peer_id: 3 }) => t,
            m => panic!("unexpected {:?}", m),
        })
        .collect();
    targets.sort();
    assert_eq!(targets, vec![10, 20]);
    assert!(message(&mut s, 30, GameMessage::PeerReady).is_empty());

    // Game data goes to the peer named, marked with the sender's peer id.
    let outs = message(&mut s, 20, GameMessage::GameData { from_peer: 1, data: vec![5, 6] });
    match sent(&outs[0]) {
        (10, GameMessage::GameData { from_peer: 2, data }) => assert_eq!(data, &vec![5, 6]),
        m => panic!("unexpected {:?}", m),
    }
    assert!(message(&mut s, 20, GameMessage::GameData { from_peer: 9, data: vec![] }).is_empty());
}

#[test]
fn unknown_room_is_reported() {
    let mut s = GameServer::new(config(&[], &[], None, false));
    auth(&mut s, 1, "g", "1");
    let outs = message(&mut s, 1, GameMessage::JoinRoom { room_id: "nope".to_string() });
    match sent(&outs[0]).1 {
        GameMessage::Error { error_code: 404, error_message } => assert_eq!(error_message, "Room not found"),
        m => panic!("unexpected {:?}", m),
    }
}

#[test]
fn room_name_without_relay_id_is_the_client_id() {
    let mut s = GameServer::new(config(&[], &[], None, false));
    auth(&mut s, 77, "g", "1");
    let outs = message(&mut s, 77, GameMessage::CreateRoom);
    assert_eq!(outs.len(), 1);
    match sent(&outs[0]).1 {
        GameMessage::ConnectedToRoom { room_id, .. } => assert_eq!(room_id, "77"),
        m => panic!("unexpected {:?}", m),
    }
}

#[test]
fn member_leaving_is_announced_and_host_leaving_closes_the_room() {
    let mut s = GameServer::new(config(&[], &[], Some("r"), true));
    auth(&mut s, 1, "g", "1");
    auth(&mut s, 2, "g", "1");
    auth(&mut s, 3, "g", "1");
    message(&mut s, 1, GameMessage::CreateRoom);
    message(&mut s, 2, GameMessage::JoinRoom { room_id: "r_1".to_string() });
    message(&mut s, 3, GameMessage::JoinRoom { room_id: "r_1".to_string() });

    let outs = s.handle_event(GameEvent::ClientDisconnected { client_id: 3 });
    let mut targets: Vec<u64> = outs
        .iter()
        .map(|a| match sent(a) {
            (t, GameMessage::PeerLeftRoom { peer_id: 3 }) => t,
            m => panic!("unexpected {:?}", m),
        })
        .collect();
    targets.sort();
    assert_eq!(targets, vec![1, 2]);

    let outs = s.handle_event(GameEvent::ClientDisconnected { client_id: 1 });
    assert_eq!(outs.len(), 2);
    assert!(matches!(sent(&outs[0]), (2, GameMessage::ForceDisconnect)));
    match &outs[1] {
        GameAction::DeregisterRoom { room_id } => assert_eq!(room_id, "r_1"),
        _ => panic!("expected a deregistration"),
    }
    // The kicked member's session ended with the room.
    let outs = message(&mut s, 2, GameMessage::CreateRoom);
    assert!(matches!(sent(&outs[0]).1, GameMessage::Error { error_code: 0, .. }));
}

#[test]
fn room_request_for_a_forgotten_application_is_not_handled() {
    let mut s = GameServer::new(config(&[], &[], None, false));
    auth(&mut s, 1, "g", "1");
    auth(&mut s, 2, "g", "1");
    message(&mut s, 1, GameMessage::CreateRoom);
    // The host leaves: its room closes and the application, now without
    // rooms, is forgotten while client 2 is still authenticated for it.
    s.handle_event(GameEvent::ClientDisconnected { client_id: 1 });
    let event = GameEvent::MessageReceived {
        client_id: 2,
        message: Some(GameMessage::CreateRoom),
        channel: TransferChannels::Reliable,
    };
    assert!(!s.handles(&event));
}

#[test]
fn undecodable_and_connect_events_change_nothing() {
    let mut s = GameServer::new(config(&[], &[], None, false));
    assert!(s.handle_event(GameEvent::ClientConnected { client_id: 1 }).is_empty());
    let e = GameEvent::MessageReceived { client_id: 1, message: None, channel: TransferChannels::Unreliable };
    assert!(s.handle_event(e).is_empty());
}
