use std::convert::TryFrom;

use diloti::actions::PlayerAction;
use diloti::card::Card;
use diloti::repr::{DeckRepr, TableRepr};
use diloti::session::{GameConfig, GameDebug, PlayerTaskId, Reply, Session, SessionState};
use diloti::srvcli::{ClientMsg, CreateReq, CreateReqDebug, ServerMsg};
use diloti::table::PlayerTpos;
use rand::SeedableRng;

fn rng() -> rand_pcg::Pcg64 {
    rand_pcg::Pcg64::seed_from_u64(3)
}

fn session(n: u8) -> Session {
    Session::new(GameConfig { nplayers: n, debug: None }, rng())
}

#[test]
fn registration_and_names() {
    let mut s = session(2);
    let a = s.register_player("ann".to_string()).unwrap();
    let b = s.register_player("ann".to_string()).unwrap();
    assert_eq!(a, PlayerTaskId(0));
    assert_eq!(b, PlayerTaskId(1));
    assert_eq!(s.players[1].name, "ann_");
    assert_eq!(s.players[0].tpos, PlayerTpos(0));
    assert_eq!(s.players[1].tpos, PlayerTpos(1));
    // full
    assert!(s.register_player("bob".to_string()).is_err());
    assert_eq!(s.players.len(), 2);
}

#[test]
fn admin_only_commands() {
    let mut s = session(2);
    let a = s.register_player("ann".to_string()).unwrap();
    let b = s.register_player("bob".to_string()).unwrap();
    assert!(matches!(s.handle_clireq(b, ClientMsg::StartGame), Reply::Ignored));
    assert_eq!(s.state, SessionState::InLobby);
    assert!(matches!(s.handle_clireq(a, ClientMsg::SwapTpos(PlayerTpos(0), PlayerTpos(1))), Reply::LobbyUpdate));
    assert_eq!(s.players[0].tpos, PlayerTpos(1));
    assert!(matches!(s.handle_clireq(a, ClientMsg::StartGame), Reply::GameUpdate));
    assert_eq!(s.state, SessionState::InGame);
    // no registration while in game
    assert!(s.register_player("cat".to_string()).is_err());
}

#[test]
fn actions_only_from_current_seat() {
    let mut s = session(2);
    let a = s.register_player("ann".to_string()).unwrap();
    let b = s.register_player("bob".to_string()).unwrap();
    s.handle_clireq(a, ClientMsg::StartGame);
    let card = s.curr_game.players[1].hand.cards[0];
    match s.handle_clireq(b, ClientMsg::PlayerAction(PlayerAction::LayDown(card))) {
        Reply::Invalid(_) => {},
        _ => panic!("expected the action to be rejected"),
    }
    assert!(matches!(s.game_update_for(0), ServerMsg::GameUpdate(_)));
}

#[test]
fn debug_session_plays() {
    let cfg = GameConfig {
        nplayers: 1,
        debug: Some(GameDebug {
            hand: DeckRepr::new("D9 C2").parse().unwrap(),
            table: TableRepr::new("S4").parse().unwrap(),
        }),
    };
    let mut s = Session::new(cfg, rng());
    let a = s.register_player("solo".to_string()).unwrap();
    s.handle_clireq(a, ClientMsg::StartGame);
    let r = s.handle_clireq(a, ClientMsg::PlayerAction(PlayerAction::LayDown(Card::try_from("D9").unwrap())));
    assert!(matches!(r, Reply::GameUpdate));
    assert_eq!(s.curr_game.table.entries.len(), 2);
}

#[test]
fn disconnects_end_session() {
    let mut s = session(2);
    let a = s.register_player("ann".to_string()).unwrap();
    let b = s.register_player("bob".to_string()).unwrap();
    assert!(!s.player_terminated(a));
    assert!(s.players[0].task.is_none());
    assert_eq!(s.players.len(), 2);
    assert!(s.player_terminated(b));
}

#[test]
fn broadcast_survives_a_drop() {
    let mut s = session(4);
    for n in ["a", "b", "c", "d"] {
        s.register_player(n.to_string()).unwrap();
    }
    // player 2's connection is gone: every delivery to it fails
    let dead = 2usize;
    let mut delivered: Vec<usize> = vec![];
    let mut next = s.broadcast_next(None);
    let mut steps = 0;
    while let Some(i) = next {
        steps += 1;
        assert!(steps < 50);
        let ok = i != dead;
        if ok {
            delivered.push(i);
        } else {
            delivered.clear();
        }
        next = s.broadcast_next(Some((i, ok)));
    }
    assert_eq!(delivered, vec![0, 1, 3]);
    assert!(s.players[dead].task.is_none());
    assert_eq!(s.nconnected(), 3);
    let li = s.lobby_info_for(1);
    assert_eq!(li.players.len(), 4);
    assert!(!li.players[2].connected);
    assert!(li.players[0].admin);
}

#[test]
fn create_req_debug() {
    let mut req = CreateReq { nplayers: 1, debug: Some(CreateReqDebug { hand_s: "D9 C2".to_string(), table_s: "S4".to_string() }) };
    assert_eq!(req.get_debug_hand().unwrap().cards.len(), 2);
    assert_eq!(req.get_debug_table().unwrap().entries.len(), 1);
    req.verify_debug();
    assert!(req.debug.is_some());
    let cfg = GameConfig::from_req(req.clone());
    assert!(cfg.debug.is_some());
    let mut bad = CreateReq { nplayers: 1, debug: Some(CreateReqDebug { hand_s: "D9 ZZ".to_string(), table_s: "S4".to_string() }) };
    bad.verify_debug();
    assert!(bad.debug.is_none());
    let empty = CreateReq { nplayers: 2, debug: Some(CreateReqDebug { hand_s: "".to_string(), table_s: "S4".to_string() }) };
    assert!(empty.get_debug_hand().is_none());
    assert!(GameConfig::from_req(empty).debug.is_none());
}
