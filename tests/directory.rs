use diloti::directory::{Directory, GameId};

#[test]
fn random_ids_are_alphanumeric() {
    let id = GameId::new_random();
    let s = id.to_string();
    assert_eq!(s.chars().count(), 16);
    assert!(s.chars().all(|c| c.is_ascii_alphanumeric()));
    assert_eq!(GameId::len(), 16);
}

#[test]
fn id_text_round_trip() {
    let id = GameId::from_string("abcdefghij012345").unwrap();
    assert_eq!(id.to_string(), "abcdefghij012345");
    assert!(GameId::from_string("short").is_none());
}

#[test]
fn directory_lookup() {
    let mut d: Directory<u32> = Directory::new();
    let id = d.new_game_id().unwrap();
    assert!(d.insert(id, 7).is_ok());
    assert_eq!(d.get_game_handle(id), Some(&7));
    assert_eq!(d.insert(id, 8), Err(8));
    let other = GameId::from_string("0000000000000000").unwrap();
    assert!(d.get_game_handle(other).is_none());
}

#[test]
fn directory_new_game() {
    let mut d: Directory<String> = Directory::new();
    let id = d.new_game(|gid| format!("session {}", gid.to_string())).unwrap();
    assert_eq!(d.get_game_handle(id).unwrap(), &format!("session {}", id.to_string()));
    let id2 = d.new_game(|_| "second".to_string()).unwrap();
    assert_ne!(id.to_string(), id2.to_string());
    assert_eq!(d.ht.len(), 2);
}
