use relay_server::game::app::App;
use relay_server::game::room::Room as GameRoom;
use relay_server::peers::PeerTable;
use relay_server::relay::room::{Room as NamedRoom, RoomIds, ID_LENGTH};
use relay_server::room::Room as RenetRoom;

#[test]
fn peer_ids_count_up_from_one_and_are_never_reused() {
    let mut t = PeerTable::new();
    assert_eq!(t.add_peer(100), 1);
    assert_eq!(t.add_peer(200), 2);
    assert_eq!(t.remove_peer(100), Some(1));
    assert_eq!(t.remove_peer(100), None);
    assert_eq!(t.add_peer(300), 3);
    assert_eq!(t.godot_id(300), Some(3));
    assert_eq!(t.client_id(2), Some(200));
    assert_eq!(t.client_id(1), None);
    let mut ids = t.client_ids();
    ids.sort();
    assert_eq!(ids, vec![200, 300]);
}

#[test]
fn game_room_tracks_pending_peers() {
    let mut r = GameRoom::new("R".to_string(), 1);
    assert_eq!(r.add_peer(1), 1);
    assert_eq!(r.add_peer(2), 2);
    r.mark_pending(2);
    assert!(r.is_pending(2));
    assert!(r.mark_ready(2));
    assert!(!r.mark_ready(2));
    assert!(!r.is_pending(2));
    assert_eq!(r.get_host(), 1);
    assert_eq!(r.get_renet_id(2), Some(2));
    let mut g = r.get_godot_ids();
    g.sort();
    assert_eq!(g, vec![1, 2]);
    r.remove_peer(1);
    r.remove_peer(2);
    assert!(r.is_empty());
    assert_eq!(r.get_peers().len(), 0);
}

#[test]
fn app_files_rooms_by_id() {
    let mut app = App::new("game".to_string());
    app.add_room(GameRoom::new("a".to_string(), 1));
    app.add_room(GameRoom::new("b".to_string(), 2));
    assert_eq!(app.get_room("b").unwrap().get_host(), 2);
    // A room stored under an id in use replaces the old one.
    app.add_room(GameRoom::new("a".to_string(), 3));
    assert_eq!(app.get_rooms().len(), 2);
    assert_eq!(app.get_room("a").unwrap().get_host(), 3);
    assert!(app.remove_room("a").is_some());
    assert!(app.get_room("a").is_none());
    assert!(app.remove_room("a").is_none());
}

#[test]
fn renet_room_membership() {
    let mut r = RenetRoom::new("42".to_string(), 42);
    assert_eq!(r.add_peer(42), 1);
    assert_eq!(r.add_peer(7), 2);
    assert!(r.contains_renet_id(7));
    assert_eq!(r.get_godot_id(7), Some(2));
    assert_eq!(r.remove_peer(7), Some(2));
    assert!(!r.contains_renet_id(7));
    assert!(!r.is_empty());
}

#[test]
fn generated_room_ids_are_five_unambiguous_characters() {
    let mut ids = RoomIds::new();
    let mut seen = std::collections::HashSet::new();
    for _ in 0..50 {
        let id = ids.generate();
        assert_eq!(id.chars().count(), ID_LENGTH);
        assert!(id.chars().all(|c| "ABCDEFGHJKLMNPQRSTUVWXYZ123456789".contains(c)));
        assert!(seen.insert(id));
    }
    assert_eq!(ids.len(), 50);
}

#[test]
fn freed_room_ids_are_no_longer_in_use() {
    let mut ids = RoomIds::new();
    let a = ids.generate();
    let _b = ids.generate();
    ids.free(&a);
    assert_eq!(ids.len(), 1);
    // Text that is no identifier frees nothing.
    ids.free("not-an-id");
    ids.free("AAAA0");
    assert_eq!(ids.len(), 1);
}

#[test]
fn named_room_limits() {
    let mut r = NamedRoom::new("ABCDE".to_string(), 1, true, "lobby".to_string(), 2);
    assert!(!r.is_full());
    r.add_peer(1);
    r.add_peer(2);
    assert_eq!(r.get_player_count(), 2);
    assert!(r.is_full());
    let info = r.to_info();
    assert_eq!(info.id, "ABCDE");
    assert_eq!(info.players, 2);
    assert_eq!(info.name, "lobby");
    assert_eq!(info.max_players, 2);
    let mut unlimited = NamedRoom::new("X".to_string(), 1, false, "n".to_string(), -1);
    unlimited.add_peer(5);
    assert!(!unlimited.is_full());
    unlimited.remove_peer(5);
    assert!(unlimited.is_empty());
}

#[test]
fn room_peer_lists_agree_through_adds_and_removes() {
    let mut r = NamedRoom::new("ABCDE".to_string(), 9, true, "lobby".to_string(), -1);
    assert!(r.is_empty());
    assert_eq!(r.get_player_count(), 0);
    let a = r.add_peer(10);
    let b = r.add_peer(20);
    let c = r.add_peer(30);
    r.remove_peer(20);
    assert_eq!(r.get_player_count(), 2);
    assert_eq!(r.get_renet_ids().len(), 2);
    assert_eq!(r.get_godot_ids().len(), 2);
    for (client, id) in [(10u64, a), (30u64, c)] {
        assert_eq!(r.get_godot_id(client), Some(id));
        assert_eq!(r.get_renet_id(id), Some(client));
    }
    assert_eq!(r.get_renet_id(b), None);
    r.remove_peer(10);
    r.remove_peer(30);
    assert!(r.is_empty());
    assert_eq!(r.get_player_count(), 0);
}

#[test]
fn peer_ids_grow_past_every_id_handed_out() {
    let mut r = RenetRoom::new("r".to_string(), 1);
    let mut last = 0;
    for client in 1..=5u64 {
        let id = r.add_peer(client);
        assert!(id > last);
        last = id;
        if client % 2 == 0 {
            assert_eq!(r.remove_peer(client), Some(id));
        }
    }
    assert_eq!(r.add_peer(2), 6);
    let mut g = GameRoom::new("g".to_string(), 1);
    assert_eq!(g.add_peer(4), 1);
    g.remove_peer(4);
    assert!(g.is_empty());
    assert_eq!(g.add_peer(4), 2);
    assert_eq!(g.get_godot_ids().len(), g.get_renet_ids().len());
}

#[test]
fn removing_an_added_room_twice() {
    let mut app = App::new("game".to_string());
    app.add_room(GameRoom::new("other".to_string(), 5));
    app.add_room(GameRoom::new("k".to_string(), 7));
    let removed = app.remove_room("k").unwrap();
    assert_eq!(removed.get_host(), 7);
    assert!(app.get_room("k").is_none());
    assert!(app.remove_room("k").is_none());
    assert_eq!(app.get_room("other").unwrap().get_host(), 5);
}
