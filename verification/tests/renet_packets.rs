use relay_server::packet_type::{PacketType, PacketTypeError};

#[test]
fn renet_layouts() {
    assert_eq!(PacketType::CreateRoom.to_bytes(), vec![0]);
    assert_eq!(PacketType::JoinRoom("ab".to_string()).to_bytes(), vec![1, b'a', b'b']);
    assert_eq!(PacketType::ConnectedToRoom("r".to_string(), 2).to_bytes(), vec![2, 0, 0, 0, 2, b'r']);
    assert_eq!(PacketType::GameData(1, vec![9]).to_bytes(), vec![3, 0, 0, 0, 1, 9]);
    assert_eq!(PacketType::PeerJoinedRoom(3).to_bytes(), vec![4, 0, 0, 0, 3]);
    assert_eq!(PacketType::PeerLeftRoom(4).to_bytes(), vec![5, 0, 0, 0, 4]);
    assert_eq!(PacketType::ForceDisconnect().to_bytes(), vec![6]);
    assert_eq!(PacketType::Authenticate("x".to_string()).to_bytes(), vec![7, b'x']);
    assert_eq!(PacketType::ClientAuthenticated().to_bytes(), vec![8]);
}

#[test]
fn renet_packets_round_trip() {
    let packets = vec![
        PacketType::CreateRoom,
        PacketType::JoinRoom("12345".to_string()),
        PacketType::ConnectedToRoom("12345".to_string(), 1),
        PacketType::GameData(-2, vec![0, 1]),
        PacketType::PeerJoinedRoom(6),
        PacketType::PeerLeftRoom(7),
        PacketType::ForceDisconnect(),
        PacketType::Authenticate("game".to_string()),
        PacketType::ClientAuthenticated(),
    ];
    for p in packets {
        let back = PacketType::from_bytes(&p.to_bytes()).unwrap();
        assert_eq!(format!("{:?}", back), format!("{:?}", p));
    }
}

#[test]
fn renet_errors() {
    assert!(matches!(PacketType::from_bytes(&[]), Err(PacketTypeError::Empty)));
    assert!(matches!(PacketType::from_bytes(&[42]), Err(PacketTypeError::Unknown(42))));
    assert!(matches!(PacketType::from_bytes(&[1, 0xff]), Err(PacketTypeError::InvalidUtf8)));
    match PacketType::from_bytes(&[3, 0, 0]) {
        Err(PacketTypeError::TooShort(m)) => assert_eq!(m, "Packet too short for GameData"),
        other => panic!("unexpected {:?}", other),
    }
    match PacketType::from_bytes(&[2, 0]) {
        Err(PacketTypeError::TooShort(m)) => assert_eq!(m, "Packet too short for ConnectedToRoom"),
        other => panic!("unexpected {:?}", other),
    }
    match PacketType::from_bytes(&[4, 0, 0]) {
        Err(PacketTypeError::TooShort(m)) => assert_eq!(m, "Packet too short for PeerJoinedRoom"),
        other => panic!("unexpected {:?}", other),
    }
}
