use relay_server::transport::client::{ClientEvent, ClientTransport};
use relay_server::transport::common::TransferChannels;

fn buffer(frame: &[u8]) -> (Vec<u8>, usize) {
    let mut buf = vec![0u8; 64];
    buf[..frame.len()].copy_from_slice(frame);
    (buf, frame.len())
}

#[test]
fn frames_carry_kind_sequence_and_payload() {
    let mut t = ClientTransport::new();
    assert_eq!(t.send(vec![7, 8], TransferChannels::Reliable), vec![0, 0, 0, 0, 0, 7, 8]);
    assert_eq!(t.send(vec![9], TransferChannels::Reliable), vec![0, 0, 0, 0, 1, 9]);
    assert_eq!(t.send(vec![5], TransferChannels::Unreliable), vec![1, 5]);
}

#[test]
fn reliable_frames_are_delivered_in_order_and_acknowledged() {
    let mut t = ClientTransport::new();
    let (b, n) = buffer(&[0, 0, 0, 0, 1, 20]);
    t.receive_datagram(&b, n);
    assert!(t.take_events().is_empty());
    let (b, n) = buffer(&[0, 0, 0, 0, 0, 10]);
    t.receive_datagram(&b, n);
    let events = t.take_events();
    assert_eq!(events.len(), 2);
    match (&events[0], &events[1]) {
        (
            ClientEvent::PacketReceived { data: d0, channel: TransferChannels::Reliable },
            ClientEvent::PacketReceived { data: d1, channel: TransferChannels::Reliable },
        ) => {
            assert_eq!(d0, &vec![10]);
            assert_eq!(d1, &vec![20]);
        }
        other => panic!("unexpected {:?}", other),
    }
    // The acknowledgements go out once more than 10ms have passed.
    let frames = t.poll_at(20_000_000);
    assert_eq!(frames, vec![vec![2, 0, 0, 0, 1], vec![2, 0, 0, 0, 0], vec![2, 0, 0, 0, 1]]);
}

#[test]
fn unreliable_frames_are_delivered_at_once() {
    let mut t = ClientTransport::new();
    let (b, n) = buffer(&[1, 4, 5]);
    t.receive_datagram(&b, n);
    match t.take_events().as_slice() {
        [ClientEvent::PacketReceived { data, channel: TransferChannels::Unreliable }] => {
            assert_eq!(data, &vec![4, 5])
        }
        other => panic!("unexpected {:?}", other),
    }
}

#[test]
fn empty_and_unknown_frames_change_nothing() {
    let mut t = ClientTransport::new();
    let (b, _) = buffer(&[]);
    t.receive_datagram(&b, 0);
    let (b, n) = buffer(&[9, 1, 2]);
    t.receive_datagram(&b, n);
    assert!(t.take_events().is_empty());
}

#[test]
fn acknowledged_payload_is_not_resent() {
    let mut t = ClientTransport::new();
    t.send(vec![1], TransferChannels::Reliable);
    let (b, n) = buffer(&[2, 0, 0, 0, 0]);
    t.receive_datagram(&b, n);
    // Far in the future: nothing left to resend, no acknowledgement waiting.
    assert!(t.poll_at(1_000_000_000_000).is_empty());
}

#[test]
fn nothing_is_due_right_away() {
    let mut t = ClientTransport::new();
    assert!(t.poll_at(5_000_000).is_empty());
}
