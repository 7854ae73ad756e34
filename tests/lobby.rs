use diloti::srvcli::{LobbyInfo, PlayerId, PlayerInfo};
use diloti::table::PlayerTpos;

fn info() -> LobbyInfo {
    let p = |admin: bool, t: u8, name: &str, connected: bool| PlayerInfo { admin, tpos: PlayerTpos(t), name: name.to_string(), connected };
    LobbyInfo {
        players: vec![p(true, 2, "ann", true), p(false, 0, "bob", false), p(false, 1, "cat", true)],
        self_id: PlayerId(2),
        nplayers: 4,
    }
}

#[test]
fn lobby_queries() {
    let li = info();
    assert_eq!(li.player_from_tpos(PlayerTpos(0)).unwrap().name, "bob");
    assert!(li.player_from_tpos(PlayerTpos(3)).is_none());
    assert!(!li.all_ready());
    assert!(li.is_self(PlayerId(2)));
    assert!(li.is_self_from_tpos(PlayerTpos(1)));
    assert!(!li.is_self_from_tpos(PlayerTpos(2)));
    assert!(li.is_admin(PlayerId(0)));
    assert!(!li.is_admin(PlayerId(9)));
    assert!(!li.am_i_admin());
    assert_eq!(li.my_tpos(), PlayerTpos(1));
    assert_eq!(li.player_id_from_tpos(PlayerTpos(2)), Some(PlayerId(0)));
    assert_eq!(li.nteams(), 2);
    assert_eq!(li.team_tpos(1), vec![PlayerTpos(1), PlayerTpos(3)]);
    assert_eq!(li.disconnected_players(), vec![PlayerId(1)]);
    let order: Vec<u8> = li.iter_players_tpos().iter().map(|(t, _)| t.0).collect();
    assert_eq!(order, vec![0, 1, 2]);
    assert_eq!(li.iter_players().len(), 3);
    assert_eq!(li.get_player(PlayerId(1)).unwrap().name, "bob");
}
