use relay_server::transport::common::{ServerEvent, TransferChannels};
use relay_server::transport::server::PaperTransport;
use relay_server::udp::sessions::{ConnectionManager, Endpoint};

fn ep(port: u16) -> Endpoint {
    Endpoint { ip: 0x7f000001, port }
}

#[test]
fn endpoints_get_increasing_ids_once() {
    let mut m = ConnectionManager::new();
    assert_eq!(m.get_or_create(ep(1), 0), (1, true));
    assert_eq!(m.get_or_create(ep(2), 0), (2, true));
    assert_eq!(m.get_or_create(ep(1), 5), (1, false));
    assert_eq!(m.get_by_id(2).unwrap().addr, ep(2));
    assert_eq!(m.find(ep(3)), None);
}

#[test]
fn silent_sessions_expire() {
    let mut m = ConnectionManager::new();
    m.get_or_create(ep(1), 0);
    m.get_or_create(ep(2), 0);
    assert!(m.touch(2, 4_000));
    assert!(!m.touch(9, 4_000));
    let expired = m.cleanup_sessions(6_000, 5_000);
    assert_eq!(expired, vec![1]);
    assert!(m.get_by_id(1).is_none());
    assert!(m.get_by_id(2).is_some());
    // Exactly at the timeout a session is not yet expired.
    assert!(m.cleanup_sessions(9_000, 5_000).is_empty());
    m.remove_session(2);
    assert!(m.get_by_id(2).is_none());
    // A removed endpoint comes back with a new id.
    assert_eq!(m.get_or_create(ep(1), 10_000), (3, true));
}

#[test]
fn first_datagram_connects_and_payloads_follow() {
    let mut t = PaperTransport::new();
    let id = t.accept_datagram(ep(9), 0);
    assert_eq!(id, 1);
    t.deliver(id, vec![vec![1], vec![2, 3]]);
    assert_eq!(t.accept_datagram(ep(9), 10), 1);
    let events = t.take_events();
    assert_eq!(events.len(), 3);
    assert!(matches!(events[0], ServerEvent::ClientConnected { client_id: 1 }));
    match &events[2] {
        ServerEvent::PacketReceived { client_id: 1, data, channel: TransferChannels::Reliable } => {
            assert_eq!(data, &vec![2, 3])
        }
        e => panic!("unexpected {:?}", e),
    }
    assert!(t.take_events().is_empty());
}

#[test]
fn dropped_and_silent_clients_are_reported() {
    let mut t = PaperTransport::new();
    t.accept_datagram(ep(1), 0);
    t.accept_datagram(ep(2), 100);
    t.take_events();
    t.disconnect_client(1);
    t.disconnect_client(1);
    t.cleanup_sessions(10_000, 1_000);
    let events = t.take_events();
    assert_eq!(events.len(), 2);
    assert!(matches!(events[0], ServerEvent::ClientDisconnected { client_id: 1 }));
    assert!(matches!(events[1], ServerEvent::ClientDisconnected { client_id: 2 }));
}
