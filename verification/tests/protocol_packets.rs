use relay_server::protocol::error::ProtocolError;
use relay_server::protocol::ids::{AUTHENTICATE, CREATE_ROOM, ERROR_PACKET, GAME_DATA, PEER_JOINED};
use relay_server::protocol::packet::{PacketError, PacketType};
use relay_server::protocol::serialize::{
    push_i32, push_string, push_vec_i32, read_i32, read_string, read_vec_i32,
};

#[test]
fn i32_is_written_big_endian() {
    let mut buf = Vec::new();
    push_i32(&mut buf, 0x01020304);
    push_i32(&mut buf, -1);
    assert_eq!(buf, vec![1, 2, 3, 4, 255, 255, 255, 255]);
}

#[test]
fn i32_reads_back_and_leaves_the_rest() {
    let bytes = [0u8, 0, 1, 0, 9, 8];
    let (v, rest) = read_i32(&bytes).unwrap();
    assert_eq!(v, 256);
    assert_eq!(rest, &[9u8, 8][..]);
}

#[test]
fn short_i32_is_refused_with_counts() {
    match read_i32(&[1u8, 2]) {
        Err(ProtocolError::NotEnoughBytes(m)) => assert_eq!(m, "for i32 (need 4 bytes, have 2)"),
        other => panic!("unexpected {:?}", other),
    }
}

#[test]
fn string_is_length_prefixed() {
    let mut buf = Vec::new();
    push_string(&mut buf, "héllo");
    assert_eq!(&buf[..4], &[0u8, 0, 0, 6]);
    let (s, rest) = read_string(&buf).unwrap();
    assert_eq!(s, "héllo");
    assert!(rest.is_empty());
}

#[test]
fn short_string_is_refused_with_counts() {
    let bytes = [0u8, 0, 0, 5, b'a', b'b'];
    match read_string(&bytes) {
        Err(ProtocolError::NotEnoughBytes(m)) => assert_eq!(m, "for string (need 5 bytes, have 2)"),
        other => panic!("unexpected {:?}", other),
    }
}

#[test]
fn negative_string_length_is_refused() {
    let bytes = [255u8, 255, 255, 255];
    match read_string(&bytes) {
        Err(ProtocolError::NotEnoughBytes(m)) => assert_eq!(m, "for string (need -1 bytes, have 0)"),
        other => panic!("unexpected {:?}", other),
    }
}

#[test]
fn invalid_utf8_string_is_refused() {
    let bytes = [0u8, 0, 0, 1, 0xff];
    assert!(matches!(read_string(&bytes), Err(ProtocolError::InvalidUtf8)));
}

#[test]
fn vector_reads_back() {
    let mut buf = Vec::new();
    push_vec_i32(&mut buf, &[3, -4, 5]);
    assert_eq!(buf.len(), 16);
    let (v, rest) = read_vec_i32(&buf).unwrap();
    assert_eq!(v, vec![3, -4, 5]);
    assert!(rest.is_empty());
}

#[test]
fn negative_vector_length_is_refused() {
    let bytes = [255u8, 255, 255, 254];
    assert!(matches!(read_vec_i32(&bytes), Err(ProtocolError::NegativeVectorLength())));
}

#[test]
fn truncated_vector_is_refused() {
    let bytes = [0u8, 0, 0, 2, 0, 0, 0, 1];
    assert!(matches!(read_vec_i32(&bytes), Err(ProtocolError::NotEnoughBytes(_))));
}

#[test]
fn authenticate_packet_layout() {
    let p = PacketType::Authenticate { app_id: "app".to_string(), version: "1".to_string() };
    let bytes = p.to_bytes();
    assert_eq!(bytes, vec![AUTHENTICATE, 0, 0, 0, 3, b'a', b'p', b'p', 0, 0, 0, 1, b'1']);
    match PacketType::from_bytes(&bytes).unwrap() {
        PacketType::Authenticate { app_id, version } => {
            assert_eq!(app_id, "app");
            assert_eq!(version, "1");
        }
        other => panic!("unexpected {:?}", other),
    }
}

#[test]
fn every_packet_round_trips() {
    let packets = vec![
        PacketType::Authenticate { app_id: "a".to_string(), version: "v2".to_string() },
        PacketType::ClientAuthenticated,
        PacketType::CreateRoom,
        PacketType::JoinRoom { room_id: "ROOM1".to_string() },
        PacketType::ConnectedToRoom { room_id: "R".to_string(), peer_id: 7 },
        PacketType::PeerJoinedRoom { peer_id: 2 },
        PacketType::PeerLeftRoom { peer_id: -3 },
        PacketType::GameData { from_peer: 4, data: vec![1, 2, 3] },
        PacketType::ForceDisconnect,
        PacketType::Error { error_code: 401, error_message: "no".to_string() },
    ];
    for p in packets {
        let bytes = p.to_bytes();
        let back = PacketType::from_bytes(&bytes).unwrap();
        assert_eq!(format!("{:?}", back), format!("{:?}", p));
        assert_eq!(back.to_bytes(), bytes);
    }
}

#[test]
fn game_data_keeps_every_trailing_byte() {
    let bytes = vec![GAME_DATA, 0, 0, 0, 9, 10, 20, 30];
    match PacketType::from_bytes(&bytes).unwrap() {
        PacketType::GameData { from_peer, data } => {
            assert_eq!(from_peer, 9);
            assert_eq!(data, vec![10, 20, 30]);
        }
        other => panic!("unexpected {:?}", other),
    }
}

#[test]
fn empty_packet_is_refused() {
    assert!(matches!(PacketType::from_bytes(&[]), Err(PacketError::Empty)));
}

#[test]
fn unknown_packet_kind_is_refused() {
    assert!(matches!(PacketType::from_bytes(&[200u8]), Err(PacketError::UnknownType(200))));
}

#[test]
fn truncated_field_is_a_protocol_error() {
    let bytes = [PEER_JOINED, 0, 1];
    match PacketType::from_bytes(&bytes) {
        Err(PacketError::Protocol(ProtocolError::NotEnoughBytes(m))) => {
            assert_eq!(m, "for i32 (need 4 bytes, have 2)")
        }
        other => panic!("unexpected {:?}", other),
    }
}

#[test]
fn trailing_bytes_after_fields_are_ignored() {
    let bytes = [CREATE_ROOM, 1, 2, 3];
    assert!(matches!(PacketType::from_bytes(&bytes), Ok(PacketType::CreateRoom)));
    let bytes = [ERROR_PACKET, 0, 0, 1, 0x91, 0, 0, 0, 2, b'o', b'k', 99];
    match PacketType::from_bytes(&bytes).unwrap() {
        PacketType::Error { error_code, error_message } => {
            assert_eq!(error_code, 401);
            assert_eq!(error_message, "ok");
        }
        other => panic!("unexpected {:?}", other),
    }
}
