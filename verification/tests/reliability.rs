use relay_server::transport::reliability::{ReliableReceiver, ReliableSender, SequenceNumber};

#[test]
fn sequence_numbers_wrap() {
    assert_eq!(SequenceNumber::new(u32::MAX).next(), SequenceNumber(0));
    assert_eq!(SequenceNumber::new(5).next(), SequenceNumber(6));
}

#[test]
fn newer_counts_around_the_wrap() {
    assert!(SequenceNumber(1).is_newer_than(SequenceNumber(u32::MAX)));
    assert!(!SequenceNumber(u32::MAX).is_newer_than(SequenceNumber(1)));
    assert!(SequenceNumber(7).is_newer_than(SequenceNumber(7)));
    assert!(!SequenceNumber(0).is_newer_than(SequenceNumber(2_147_483_648)));
}

#[test]
fn sender_numbers_payloads_in_order() {
    let mut s = ReliableSender::new();
    assert_eq!(s.send_at(vec![1], 0), SequenceNumber(0));
    assert_eq!(s.send_at(vec![2], 0), SequenceNumber(1));
    assert!(s.has_unacked());
}

#[test]
fn overdue_payloads_are_resent_until_acknowledged() {
    let mut s = ReliableSender::new();
    let a = s.send_at(vec![1], 0);
    let b = s.send_at(vec![2], 100_000_000);
    // Too early for a look at all.
    assert!(s.get_resends_at(10_000_000).is_empty());
    // At 250ms only the first is more than 200ms old.
    let r = s.get_resends_at(250_000_000);
    assert_eq!(r, vec![(a, vec![1])]);
    // At 350ms the second is overdue; the first was stamped at 250ms.
    let r = s.get_resends_at(350_000_000);
    assert_eq!(r, vec![(b, vec![2])]);
    s.ack_received(a);
    s.ack_received(b);
    assert!(!s.has_unacked());
    assert!(s.get_resends_at(10_000_000_000).is_empty());
}

#[test]
fn acknowledgements_wait_in_order() {
    let mut s = ReliableSender::new();
    s.queue_ack(SequenceNumber(3));
    s.queue_ack(SequenceNumber(1));
    assert_eq!(s.get_pending_acks(), vec![SequenceNumber(3), SequenceNumber(1)]);
    assert!(s.get_pending_acks().is_empty());
}

#[test]
fn receiver_delivers_in_order() {
    let mut r = ReliableReceiver::new();
    assert_eq!(r.receive(SequenceNumber(1), vec![11]), vec![SequenceNumber(1)]);
    assert!(r.pop_packet().is_none());
    assert_eq!(
        r.receive(SequenceNumber(0), vec![10]),
        vec![SequenceNumber(0), SequenceNumber(1)]
    );
    assert_eq!(r.take_all_packets(), vec![vec![10], vec![11]]);
}

#[test]
fn receiver_drops_duplicates_but_acknowledges_them() {
    let mut r = ReliableReceiver::new();
    r.receive(SequenceNumber(0), vec![1]);
    assert_eq!(r.pop_packet(), Some(vec![1]));
    assert_eq!(r.receive(SequenceNumber(0), vec![1]), vec![SequenceNumber(0)]);
    assert!(r.pop_packet().is_none());
}

#[test]
fn fresh_sender_counts_sends_whatever_comes_between() {
    let mut s = ReliableSender::new();
    assert!(!s.has_unacked());
    let q0 = s.send(vec![1]);
    s.queue_ack(SequenceNumber(9));
    let q1 = s.send(vec![2]);
    s.ack_received(q0);
    let _ = s.get_pending_acks();
    let _ = s.get_resends_at(1_000_000_000);
    let q2 = s.send(vec![3]);
    assert_eq!((q0, q1, q2), (SequenceNumber(0), SequenceNumber(1), SequenceNumber(2)));
    assert!(s.has_unacked());
    s.ack_received(q1);
    assert!(s.has_unacked());
    s.ack_received(q2);
    assert!(!s.has_unacked());
}

#[test]
fn payloads_in_any_order_with_repeats_come_out_in_order() {
    let mut r = ReliableReceiver::new();
    let order = [3u32, 1, 4, 1, 0, 2, 4, 3];
    for seq in order {
        let acks = r.receive(SequenceNumber(seq), vec![seq as u8 * 10]);
        assert!(acks.contains(&SequenceNumber(seq)));
    }
    let out = r.take_all_packets();
    assert_eq!(out, vec![vec![0], vec![10], vec![20], vec![30], vec![40]]);
}
