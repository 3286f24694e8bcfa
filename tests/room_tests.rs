use marble_game::room::RoomManager;

#[test]
fn rooms_are_numbered_from_one() {
    let mut rm = RoomManager::default();
    assert_eq!(rm.room_count(), 0);
    let a = rm.create_room("first".to_string(), 4);
    let b = rm.create_room("second".to_string(), 2);
    assert_eq!(a, "room-1");
    assert_eq!(b, "room-2");
    assert_eq!(rm.room_count(), 2);
    assert_eq!(rm.get_room("room-2").unwrap().name, "second");
    assert_eq!(rm.get_room("room-2").unwrap().max_players, 2);
    assert!(rm.get_room("room-3").is_none());
    assert_eq!(rm.find_room("room-1"), Some(0));
}

#[test]
fn rooms_are_listed_oldest_first() {
    let mut rm = RoomManager::new();
    rm.create_room("a".to_string(), 4);
    rm.create_room("b".to_string(), 4);
    rm.create_room("c".to_string(), 4);
    rm.rooms[0].created_at = 300;
    rm.rooms[1].created_at = 100;
    rm.rooms[2].created_at = 300;
    let list = rm.list_rooms();
    let names: Vec<&str> = list.iter().map(|r| r.name.as_str()).collect();
    assert_eq!(names, vec!["b", "a", "c"]);
    assert!(list.iter().all(|r| r.players == 0 && r.max_players == 4));
}

#[test]
fn endpoints_are_tracked_per_room() {
    let mut rm = RoomManager::new();
    rm.assign_player_to_room(7, "room-1".to_string());
    rm.assign_player_to_room(8, "room-2".to_string());
    rm.assign_player_to_room(7, "room-3".to_string());
    assert_eq!(rm.get_player_room(7), Some("room-3".to_string()));
    assert_eq!(rm.get_player_room(8), Some("room-2".to_string()));
    rm.remove_player(7);
    assert_eq!(rm.get_player_room(7), None);
    assert_eq!(rm.get_player_room(8), Some("room-2".to_string()));
    assert_eq!(rm.player_rooms.len(), 1);
}

#[test]
fn empty_rooms_are_cleaned_up() {
    let mut rm = RoomManager::new();
    rm.create_room("empty".to_string(), 4);
    let busy = rm.create_room("busy".to_string(), 4);
    rm.create_room("also empty".to_string(), 4);
    rm.rooms[1].game.join_with_token(None, 3);
    rm.cleanup_empty_rooms();
    assert_eq!(rm.room_count(), 1);
    assert_eq!(rm.rooms[0].id, busy);
    assert_eq!(rm.rooms[0].info().players, 1);
}

#[test]
fn clashing_room_id_is_made_unique() {
    let mut rm = RoomManager::new();
    let a = rm.create_room("a".to_string(), 4);
    rm.next_room_id = 1;
    let b = rm.create_room("b".to_string(), 4);
    assert_eq!(a, "room-1");
    assert_eq!(b, "room-1-");
    rm.cleanup_empty_rooms();
    assert_eq!(rm.next_room_id, 2);
}
