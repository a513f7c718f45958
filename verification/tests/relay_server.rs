use relay_server::config::loader::{Config, WhitelistFailurePolicy};
use relay_server::relay::handlers::sender::RelayAction;
use relay_server::relay::message::Packet;
use relay_server::relay::server::{RelayEvent, RelayServer};
use relay_server::udp::common::TransferChannel;

fn config(whitelist: &[&str], versions: &[&str], remote: bool, policy: WhitelistFailurePolicy) -> Config {
    Config {
        udp_bind_address: "0.0.0.0:8080".to_string(),
        whitelist: whitelist.iter().map(|s| s.to_string()).collect(),
        allowed_versions: versions.iter().map(|s| s.to_string()).collect(),
        remote_whitelist_endpoint: if remote { "http://wl".to_string() } else { String::new() },
        remote_whitelist_token: if remote { "secret".to_string() } else { String::new() },
        whitelist_failure_policy: policy,
        relay_id: String::new(),
    }
}

fn event(s: &mut RelayServer, e: RelayEvent) -> Vec<RelayAction> {
    assert!(s.handles(&e));
    s.handle_event(e)
}

fn packet(s: &mut RelayServer, client_id: u64, p: Packet) -> Vec<RelayAction> {
    event(s, RelayEvent::PacketReceived { client_id, packet: Some(p), channel: TransferChannel::Reliable })
}

fn sent(a: &RelayAction) -> (u64, &Packet) {
    match a {
        RelayAction::Send { target, packet, channel: TransferChannel::Reliable } => (*target, packet),
        _ => panic!("not a reliable send"),
    }
}

fn error_text(a: &RelayAction) -> String {
    match sent(a).1 {
        Packet::Error { error_code: 401, error_message } => error_message.clone(),
        p => panic!("unexpected {:?}", p),
    }
}

fn authenticated(s: &mut RelayServer, id: u64) {
    event(s, RelayEvent::ClientConnected { client_id: id });
    let outs = packet(s, id, Packet::Authenticate { app_id: "game".to_string(), version: "1".to_string() });
    assert!(matches!(sent(&outs[0]).1, Packet::ClientAuthenticated));
}

fn join_code(a: &RelayAction) -> String {
    match sent(a).1 {
        Packet::ConnectedToRoom { room_id, .. } => room_id.clone(),
        p => panic!("unexpected {:?}", p),
    }
}

#[test]
fn unexpected_packets_get_an_error_reply() {
    let mut s = RelayServer::new(config(&[], &["1"], false, WhitelistFailurePolicy::FailClosed));
    event(&mut s, RelayEvent::ClientConnected { client_id: 1 });
    let outs = packet(&mut s, 1, Packet::ReqRooms);
    assert_eq!(outs.len(), 1);
    assert_eq!(error_text(&outs[0]), "Unexpected packet");
    authenticated(&mut s, 2);
    let outs = packet(&mut s, 2, Packet::GameData { from_peer: 1, data: vec![] });
    assert_eq!(error_text(&outs[0]), "Unexpected packet");
}

#[test]
fn packets_from_unknown_clients_are_ignored() {
    let mut s = RelayServer::new(config(&[], &["1"], false, WhitelistFailurePolicy::FailClosed));
    assert!(packet(&mut s, 9, Packet::ReqRooms).is_empty());
    event(&mut s, RelayEvent::ClientConnected { client_id: 9 });
    let e = RelayEvent::PacketReceived { client_id: 9, packet: None, channel: TransferChannel::Unreliable };
    assert!(event(&mut s, e).is_empty());
}

#[test]
fn disallowed_version_is_refused_and_expelled() {
    let mut s = RelayServer::new(config(&[], &["2"], false, WhitelistFailurePolicy::FailClosed));
    event(&mut s, RelayEvent::ClientConnected { client_id: 1 });
    let outs = packet(&mut s, 1, Packet::Authenticate { app_id: "g".to_string(), version: "1".to_string() });
    assert_eq!(outs.len(), 3);
    assert_eq!(error_text(&outs[0]), "Version 1 is not allowed.");
    assert!(matches!(sent(&outs[1]), (1, Packet::ForceDisconnect)));
    assert!(matches!(outs[2], RelayAction::Disconnect { target: 1 }));
}

#[test]
fn empty_version_list_allows_no_version() {
    let mut s = RelayServer::new(config(&[], &[], false, WhitelistFailurePolicy::FailClosed));
    event(&mut s, RelayEvent::ClientConnected { client_id: 1 });
    let outs = packet(&mut s, 1, Packet::Authenticate { app_id: "g".to_string(), version: "1".to_string() });
    assert_eq!(error_text(&outs[0]), "Version 1 is not allowed.");
}

#[test]
fn local_whitelist_refuses_other_tokens() {
    let mut s = RelayServer::new(config(&["good"], &["1"], false, WhitelistFailurePolicy::FailClosed));
    event(&mut s, RelayEvent::ClientConnected { client_id: 1 });
    let outs = packet(&mut s, 1, Packet::Authenticate { app_id: "bad".to_string(), version: "1".to_string() });
    assert_eq!(error_text(&outs[0]), "App token bad is not allowed.");
    assert!(matches!(outs[2], RelayAction::Disconnect { target: 1 }));
    let outs = packet(&mut s, 1, Packet::Authenticate { app_id: "good".to_string(), version: "1".to_string() });
    assert!(matches!(sent(&outs[0]).1, Packet::ClientAuthenticated));
}

#[test]
fn remote_whitelist_is_asked_and_its_answer_applied() {
    let mut s = RelayServer::new(config(&["local"], &["1"], true, WhitelistFailurePolicy::FailOpenToLocal));
    event(&mut s, RelayEvent::ClientConnected { client_id: 1 });
    let outs = packet(&mut s, 1, Packet::Authenticate { app_id: "local".to_string(), version: "1".to_string() });
    match &outs[..] {
        [RelayAction::CheckRemoteWhitelist { client_id: 1, app_token }] => assert_eq!(app_token, "local"),
        _ => panic!("expected a remote check"),
    }
    // The remote whitelist could not be reached: fall back to the local one.
    let outs = event(
        &mut s,
        RelayEvent::WhitelistChecked { client_id: 1, app_token: "local".to_string(), answer: None },
    );
    assert!(matches!(sent(&outs[0]).1, Packet::ClientAuthenticated));
    // A definite "no" from the remote whitelist is final.
    event(&mut s, RelayEvent::ClientConnected { client_id: 2 });
    let outs = event(
        &mut s,
        RelayEvent::WhitelistChecked { client_id: 2, app_token: "local".to_string(), answer: Some(false) },
    );
    assert_eq!(error_text(&outs[0]), "App token local is not allowed.");
}

#[test]
fn fail_closed_refuses_when_remote_whitelist_fails() {
    let mut s = RelayServer::new(config(&[], &["1"], true, WhitelistFailurePolicy::FailClosed));
    event(&mut s, RelayEvent::ClientConnected { client_id: 1 });
    let outs = event(
        &mut s,
        RelayEvent::WhitelistChecked { client_id: 1, app_token: "g".to_string(), answer: None },
    );
    assert_eq!(error_text(&outs[0]), "App token g is not allowed.");
}

#[test]
fn rooms_are_created_listed_and_joined_with_the_hosts_consent() {
    let mut s = RelayServer::new(config(&[], &["1"], false, WhitelistFailurePolicy::FailClosed));
    authenticated(&mut s, 1);
    authenticated(&mut s, 2);
    authenticated(&mut s, 3);

    let outs = packet(&mut s, 1, Packet::CreateRoom { is_public: true, metadata: "m".to_string() });
    let code = join_code(&outs[0]);
    assert!(matches!(sent(&outs[0]).1, Packet::ConnectedToRoom { peer_id: 1, .. }));
    assert_eq!(code.chars().count(), 5);

    let outs = packet(&mut s, 2, Packet::ReqRooms);
    match sent(&outs[0]) {
        (2, Packet::GetRooms { rooms }) => {
            assert_eq!(rooms.len(), 1);
            assert_eq!(rooms[0].join_code, code);
            assert_eq!(rooms[0].metadata, "m");
            assert_eq!(rooms[0].players, 1);
        }
        p => panic!("unexpected {:?}", p),
    }

    let outs = packet(&mut s, 2, Packet::ReqJoin { room_id: code.clone(), metadata: "hi".to_string() });
    match sent(&outs[0]) {
        (1, Packet::PeerJoinAttempt { target_id: 2, metadata }) => assert_eq!(metadata, "hi"),
        p => panic!("unexpected {:?}", p),
    }
    let outs = packet(&mut s, 2, Packet::ReqJoin { room_id: "ZZZZZ".to_string(), metadata: String::new() });
    if code != "ZZZZZ" {
        assert_eq!(error_text(&outs[0]), "Room not found");
    }

    // The host refuses 3 and admits 2.
    let outs = packet(&mut s, 1, Packet::JoinRes { target_id: 3, room_id: code.clone(), allowed: false });
    assert!(matches!(sent(&outs[0]).0, 3));
    assert_eq!(error_text(&outs[0]), "Room host denied entry");
    let outs = packet(&mut s, 1, Packet::JoinRes { target_id: 2, room_id: code.clone(), allowed: true });
    assert_eq!(outs.len(), 2);
    assert!(matches!(sent(&outs[0]), (2, Packet::ConnectedToRoom { peer_id: 2, .. })));
    assert_eq!(join_code(&outs[0]), code);
    assert!(matches!(sent(&outs[1]), (1, Packet::PeerJoinedRoom { peer_id: 2 })));

    // Game data between the two peers.
    let outs = packet(&mut s, 2, Packet::GameData { from_peer: 1, data: vec![1, 2] });
    match sent(&outs[0]) {
        (1, Packet::GameData { from_peer: 2, data }) => assert_eq!(data, &vec![1, 2]),
        p => panic!("unexpected {:?}", p),
    }

    // The host updates the metadata.
    assert!(packet(&mut s, 1, Packet::UpdateRoom { room_id: code.clone(), metadata: "new".to_string() }).is_empty());
    let outs = packet(&mut s, 3, Packet::ReqRooms);
    match sent(&outs[0]).1 {
        Packet::GetRooms { rooms } => {
            assert_eq!(rooms[0].metadata, "new");
            assert_eq!(rooms[0].players, 2);
        }
        p => panic!("unexpected {:?}", p),
    }

    // A member leaves: the host is told.
    let outs = event(&mut s, RelayEvent::ClientDisconnected { client_id: 2 });
    assert!(matches!(sent(&outs[0]), (1, Packet::PeerLeftRoom { peer_id: 2 })));
}

#[test]
fn host_leaving_expels_the_members() {
    let mut s = RelayServer::new(config(&[], &["1"], false, WhitelistFailurePolicy::FailClosed));
    authenticated(&mut s, 1);
    authenticated(&mut s, 2);
    let outs = packet(&mut s, 1, Packet::CreateRoom { is_public: false, metadata: String::new() });
    let code = join_code(&outs[0]);
    packet(&mut s, 1, Packet::JoinRes { target_id: 2, room_id: code, allowed: true });
    let outs = event(&mut s, RelayEvent::ClientDisconnected { client_id: 1 });
    assert_eq!(outs.len(), 2);
    assert!(matches!(sent(&outs[0]), (2, Packet::ForceDisconnect)));
    assert!(matches!(outs[1], RelayAction::Disconnect { target: 2 }));
    // The expelled member is forgotten.
    assert!(packet(&mut s, 2, Packet::ReqRooms).is_empty());
}

#[test]
fn private_rooms_are_not_listed() {
    let mut s = RelayServer::new(config(&[], &["1"], false, WhitelistFailurePolicy::FailClosed));
    authenticated(&mut s, 1);
    authenticated(&mut s, 2);
    packet(&mut s, 1, Packet::CreateRoom { is_public: false, metadata: String::new() });
    match sent(&packet(&mut s, 2, Packet::ReqRooms)[0]).1 {
        Packet::GetRooms { rooms } => assert!(rooms.is_empty()),
        p => panic!("unexpected {:?}", p),
    }
}

#[test]
fn cleanup_expels_every_member_and_closes_every_room() {
    let mut s = RelayServer::new(config(&[], &["1"], false, WhitelistFailurePolicy::FailClosed));
    authenticated(&mut s, 1);
    authenticated(&mut s, 2);
    authenticated(&mut s, 3);
    packet(&mut s, 1, Packet::CreateRoom { is_public: true, metadata: String::new() });
    packet(&mut s, 2, Packet::CreateRoom { is_public: true, metadata: String::new() });
    let outs = s.cleanup();
    let mut targets: Vec<u64> = outs
        .iter()
        .map(|a| match sent(a) {
            (t, Packet::ForceDisconnect) => t,
            p => panic!("unexpected {:?}", p),
        })
        .collect();
    targets.sort();
    assert_eq!(targets, vec![1, 2]);
    match sent(&packet(&mut s, 3, Packet::ReqRooms)[0]).1 {
        Packet::GetRooms { rooms } => assert!(rooms.is_empty()),
        p => panic!("unexpected {:?}", p),
    }
}
