use relay_server::packet_type::PacketType;
use relay_server::relay_server::{Outgoing, RelayServer};
use relay_server::renet_connection::{Packet, RenetChannel, RenetEvent};

fn send(s: &mut RelayServer, from: u64, p: PacketType) -> Vec<Outgoing> {
    s.process_packet(Packet { renet_id: from, data: p.to_bytes(), channel: RenetChannel::ReliableOrdered })
}

#[test]
fn renet_whitelist_refusal_disconnects() {
    let mut s = RelayServer::new(vec!["ok".to_string()]);
    let outs = send(&mut s, 1, PacketType::Authenticate("no".to_string()));
    assert_eq!(outs.len(), 1);
    assert!(matches!(outs[0].packet, PacketType::ForceDisconnect()));
    // Not authenticated: a room request is ignored.
    assert!(send(&mut s, 1, PacketType::CreateRoom).is_empty());
}

#[test]
fn renet_rooms_are_named_after_their_host() {
    let mut s = RelayServer::new(vec![]);
    let outs = send(&mut s, 5, PacketType::Authenticate("app".to_string()));
    assert!(matches!(outs[0].packet, PacketType::ClientAuthenticated()));
    send(&mut s, 6, PacketType::Authenticate("app".to_string()));
    let outs = send(&mut s, 5, PacketType::CreateRoom);
    match &outs[0].packet {
        PacketType::ConnectedToRoom(name, 1) => assert_eq!(name, "5"),
        p => panic!("unexpected {:?}", p),
    }
    let outs = send(&mut s, 6, PacketType::JoinRoom("5".to_string()));
    assert_eq!(outs.len(), 2);
    assert!(matches!(&outs[0].packet, PacketType::ConnectedToRoom(_, 2)));
    assert_eq!(outs[1].target, 5);
    assert!(matches!(outs[1].packet, PacketType::PeerJoinedRoom(2)));
    let outs = send(&mut s, 6, PacketType::GameData(1, vec![3]));
    assert_eq!(outs[0].target, 5);
    assert!(matches!(&outs[0].packet, PacketType::GameData(2, d) if d == &vec![3]));
    // The member leaves: the host is told.
    let outs = s.process_event(RenetEvent::ClientDisconnected { client_id: 6, reason: "gone".to_string() });
    assert_eq!(outs.len(), 1);
    assert_eq!(outs[0].target, 5);
    assert!(matches!(outs[0].packet, PacketType::PeerLeftRoom(2)));
}

#[test]
fn renet_undecodable_messages_are_ignored() {
    let mut s = RelayServer::new(vec![]);
    let outs = s.process_packet(Packet { renet_id: 1, data: vec![99], channel: RenetChannel::Unreliable });
    assert!(outs.is_empty());
}

#[test]
fn short_peer_packets_cannot_be_handled() {
    let s = RelayServer::new(vec![]);
    let short = Packet { renet_id: 1, data: vec![4, 0, 0, 1], channel: RenetChannel::ReliableOrdered };
    assert!(!s.handles_packet(&short));
    assert!(!relay_server::packet_type::decodable(&[5, 0, 0, 0]));
    assert!(relay_server::packet_type::decodable(&[4, 0, 0, 0, 1]));
    let fine = Packet { renet_id: 1, data: vec![0], channel: RenetChannel::ReliableOrdered };
    assert!(s.handles_packet(&fine));
}
