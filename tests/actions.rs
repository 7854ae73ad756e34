use std::convert::TryFrom;

use diloti::actions::{CaptureAction, DeclAction, DeclActionBuilder, CaptureActionBuilder, PlayerAction};
use diloti::card::Card;
use diloti::game::Game;
use diloti::repr::{DeckRepr, TableEntryRepr, TableRepr};
use diloti::table::{Declaration, PlayerTpos, Table, TableEntry};
use rand::SeedableRng;

fn mk_te(s: &str) -> TableEntry {
    TableEntryRepr::new(s).parse().unwrap()
}

fn mk_table(s: &str) -> Table {
    TableRepr::new(s).parse().unwrap()
}

fn rng() -> rand_pcg::Pcg64 {
    rand_pcg::Pcg64::seed_from_u64(7)
}

#[test]
fn act_t0() {
    let table_ = TableRepr::new("S4 HT H9").parse().unwrap();
    let hand_ = DeckRepr::new("D5 D9 C3 C9").parse().unwrap();
    let tpos = PlayerTpos(0);
    let game = Game::new_1p_debug(rng(), table_, hand_);
    let hand = &game.players[0].hand;
    let table = &game.table;

    println!("hand: {}", DeckRepr::fmt_deck(hand));
    println!("table: {}", TableRepr::fmt_table(table));

    {
        let decl_act = DeclAction { tentries: vec![vec![mk_te("C9")]] };
        println!("action: {:?} is be invalid (no cards from table)", decl_act);
        assert!(decl_act.validate_decl(&table, &hand).is_err());
    }

    {
        let decl_act = PlayerAction::Declare(DeclAction { tentries: vec![vec![mk_te("♦5"), mk_te("♠4")]] });
        let game = game.apply_action(tpos, decl_act).unwrap();
        println!("{}", TableRepr::fmt_table(&mk_table("♥T 0:[ ♦5 ♠4 ][ H9 ]:")));
        // NB: equality is based on order, so we might just need to rearrange the result
        assert_eq!(game.table.entries, mk_table("♥T 0:[ ♦5 ♠4 ][ ♥9 ]:").entries);
    }
}

#[test]
fn no_two_decls() {
    let table_ = TableRepr::new("S2 S5").parse().unwrap();
    let hand_ = DeckRepr::new("D2 H2 D5 H5").parse().unwrap();
    let tpos = PlayerTpos(0);
    let game = Game::new_1p_debug(rng(), table_, hand_);
    let hand = &game.players[0].hand;
    let table = &game.table;

    let act1 = PlayerAction::Declare(DeclAction { tentries: vec![vec![mk_te("D2")], vec![mk_te("S2")]] });
    println!("hand: {}", DeckRepr::fmt_deck(hand));
    println!("table: {}", TableRepr::fmt_table(table));
    println!("act1: {:?}", act1);
    let game = game.apply_action(tpos, act1).unwrap();

    let act2 = PlayerAction::Declare(DeclAction { tentries: vec![vec![mk_te("D5")], vec![mk_te("S5")]] });
    println!("act2: {:?}", act2);
    let res = game.apply_action(tpos, act2);
    assert!(res.is_err());
    println!("table: {:?}", res.map(|g| g.table.entries));
}

#[test]
fn two_figs_on_table() {
    let table_ = TableRepr::new("SK HK").parse().unwrap();
    // NB: The D2 card is needed because otherwise, the game will end the the last table cards will
    // end up in the scoring sheet
    let hand_ = DeckRepr::new("DK D2").parse().unwrap();
    let tpos = PlayerTpos(0);
    let game = Game::new_1p_debug(rng(), table_, hand_);
    {
        let act1 = PlayerAction::Capture(CaptureAction {
            handcard: Card::try_from("DK").unwrap(),
            tentries: vec![vec![mk_te("SK")], vec![mk_te("HK")]],
        });
        let res1 = game.apply_action(tpos, act1);
        println!("res: {:?}", res1.as_ref().map(|g| &g.table.entries));
        assert!(res1.is_err());
    }
    {
        let act2 = PlayerAction::Capture(CaptureAction {
            handcard: Card::try_from("DK").unwrap(),
            tentries: vec![vec![mk_te("HK")]],
        });
        println!("table before action: {:?}", game.table.entries);
        let res2 = game.apply_action(tpos, act2);
        assert!(res2.is_ok());
        let game = res2.unwrap();
        println!("game after action: {:?}", game.table.entries);
        assert_eq!(game.table.entries, mk_table("SK").entries);
    }
}

#[test]
fn three_figs_on_table() {
    let table_ = TableRepr::new("SK HK CK").parse().unwrap();
    // NB: The D2 card is needed because otherwise, the game will end the the last table cards will
    // end up in the scoring sheet
    let hand_ = DeckRepr::new("DK D2").parse().unwrap();
    let tpos = PlayerTpos(0);
    let game = Game::new_1p_debug(rng(), table_, hand_);

    {
        let act = PlayerAction::Capture(CaptureAction {
            handcard: Card::try_from("DK").unwrap(),
            tentries: vec![vec![mk_te("SK")]],
        });
        let res = game.apply_action(tpos, act);
        assert!(res.is_err());
    }

    {
        let act = PlayerAction::Capture(CaptureAction {
            handcard: Card::try_from("DK").unwrap(),
            tentries: vec![vec![mk_te("SK")], vec![mk_te("HK")]],
        });
        let res = game.apply_action(tpos, act);
        assert!(res.is_err());
    }

    {
        let act = PlayerAction::Capture(CaptureAction {
            handcard: Card::try_from("DK").unwrap(),
            tentries: vec![vec![mk_te("SK")], vec![mk_te("HK")], vec![mk_te("CK")]],
        });
        println!("table before action: {:?}", game.table.entries);
        let res = game.apply_action(tpos, act);
        assert!(res.is_ok());
        let game = res.unwrap();
        assert_eq!(game.table.entries, vec![]);
    }
}

#[test]
fn declaration_bound_rejected() {
    // value 11 is above the bound
    let table_ = TableRepr::new("S6 H9").parse().unwrap();
    let hand_ = DeckRepr::new("D5 DJ").parse().unwrap();
    let game = Game::new_1p_debug(rng(), table_, hand_);
    let act = PlayerAction::Declare(DeclAction { tentries: vec![vec![mk_te("D5"), mk_te("S6")]] });
    assert!(game.apply_action(PlayerTpos(0), act).is_err());
    // value 9 with no other 9 in the hand
    let table_ = TableRepr::new("S4").parse().unwrap();
    let hand_ = DeckRepr::new("D5 C3").parse().unwrap();
    let game = Game::new_1p_debug(rng(), table_, hand_);
    let act = PlayerAction::Declare(DeclAction { tentries: vec![vec![mk_te("D5"), mk_te("S4")]] });
    assert!(game.apply_action(PlayerTpos(0), act).is_err());
}

#[test]
fn laydown_rules() {
    let table_ = TableRepr::new("S4 HT").parse().unwrap();
    let hand_ = DeckRepr::new("D4 D9 C2").parse().unwrap();
    let game = Game::new_1p_debug(rng(), table_, hand_);
    // a card of a value on the table may not be laid down
    assert!(game.apply_action(PlayerTpos(0), PlayerAction::LayDown(Card::try_from("D4").unwrap())).is_err());
    let g = game.apply_action(PlayerTpos(0), PlayerAction::LayDown(Card::try_from("D9").unwrap())).unwrap();
    assert_eq!(g.table.entries, mk_table("S4 HT D9").entries);
    assert_eq!(g.players[0].hand.cards.len(), 2);
    // a card not in the hand cannot be laid down
    assert!(g.apply_action(PlayerTpos(0), PlayerAction::LayDown(Card::try_from("S7").unwrap())).is_err());
}

#[test]
fn numeric_capture_sweeps() {
    let table_ = TableRepr::new("S4 H4 C1 D3").parse().unwrap();
    let hand_ = DeckRepr::new("D4 C9").parse().unwrap();
    let game = Game::new_1p_debug(rng(), table_, hand_);
    let act = PlayerAction::Capture(CaptureAction {
        handcard: Card::try_from("D4").unwrap(),
        tentries: vec![vec![mk_te("C1"), mk_te("D3")]],
    });
    let g = game.apply_action(PlayerTpos(0), act).unwrap();
    // both fours were swept in: the table is empty, a xeri
    assert_eq!(g.table.entries, vec![]);
    let last = g.last_action.as_ref().unwrap();
    assert!(last.xeri);
    assert_eq!(last.forced_cards.len(), 2);
    assert_eq!(g.teams[0].captures.0.len(), 5);
}

#[test]
fn wrong_seat_rejected() {
    let table_ = TableRepr::new("S4").parse().unwrap();
    let hand_ = DeckRepr::new("D9").parse().unwrap();
    let game = Game::new_1p_debug(rng(), table_, hand_);
    assert!(game.apply_action(PlayerTpos(1), PlayerAction::LayDown(Card::try_from("D9").unwrap())).is_err());
}

#[test]
fn decl_builder() {
    let hc = Card::try_from("D5").unwrap();
    assert!(DeclActionBuilder::new(&hc, 11).is_err());
    assert!(DeclActionBuilder::new(&hc, 4).is_err());
    let mut b = DeclActionBuilder::new(&hc, 9).unwrap();
    assert!(!b.is_ready());
    assert!(b.add_table_entry(&mk_te("S6")).is_err());
    assert!(b.add_table_entry(&mk_te("S4")).is_ok());
    assert!(b.has_tentry(&mk_te("S4")));
    assert!(b.add_table_entry(&mk_te("H9")).is_ok());
    assert!(b.is_ready());
    assert_eq!(b.hand_card(), hc);
    match b.make_action() {
        PlayerAction::Declare(da) => {
            assert_eq!(da.tentries.len(), 2);
            assert_eq!(da.tentries[0], vec![mk_te("D5"), mk_te("S4")]);
            assert_eq!(da.tentries[1], vec![mk_te("H9")]);
        },
        _ => panic!("expected a declaration"),
    }
    b.reset();
    assert!(!b.is_ready());
    assert!(!b.has_tentry(&mk_te("S4")));
}

#[test]
fn capture_builder() {
    let hc = Card::try_from("DK").unwrap();
    let mut b = CaptureActionBuilder::new(&hc);
    assert!(b.add_table_entry(&mk_te("SQ")).is_err());
    assert!(b.add_table_entry(&mk_te("0:[ S2 S3 ]:")).is_err());
    assert!(b.add_table_entry(&mk_te("SK")).is_ok());
    assert!(b.is_ready());
    let hc = Card::try_from("D7").unwrap();
    let mut b = CaptureActionBuilder::new(&hc);
    assert!(b.add_table_entry(&mk_te("S3")).is_ok());
    assert!(!b.is_ready());
    assert!(b.add_table_entry(&mk_te("S5")).is_err());
    assert!(b.add_table_entry(&mk_te("S4")).is_ok());
    assert!(b.add_table_entry(&mk_te("0:[ H3 H4 ]:")).is_ok());
    assert!(b.is_ready());
    match b.make_action() {
        PlayerAction::Capture(ca) => {
            assert_eq!(ca.tentries.len(), 2);
            assert_eq!(ca.get_table_cards().len(), 4);
        },
        _ => panic!("expected a capture"),
    }
}

#[test]
fn declaration_new_bounds() {
    let c = |s: &str| Card::try_from(s).unwrap();
    assert!(Declaration::new(vec![vec![c("SK")]], PlayerTpos(0)).is_none());
    assert!(Declaration::new(vec![], PlayerTpos(0)).is_none());
    assert!(Declaration::new(vec![vec![c("S4"), c("D5")], vec![c("H9")]], PlayerTpos(1)).is_some());
    assert!(Declaration::new(vec![vec![c("S4"), c("D5")], vec![c("H8")]], PlayerTpos(1)).is_none());
}

#[test]
fn capture_credits_team_in_order() {
    let table_ = TableRepr::new("S4 H4 C1 D3 HT").parse().unwrap();
    let hand_ = DeckRepr::new("D4 C9").parse().unwrap();
    let game = Game::new_1p_debug(rng(), table_, hand_);
    let act = PlayerAction::Capture(CaptureAction {
        handcard: Card::try_from("D4").unwrap(),
        tentries: vec![vec![mk_te("C1"), mk_te("D3")]],
    });
    let g = game.apply_action(PlayerTpos(0), act).unwrap();
    assert_eq!(g.table.entries, mk_table("HT").entries);
    let last = g.last_action.as_ref().unwrap();
    assert!(!last.xeri);
    assert_eq!(last.forced_cards, vec![Card::try_from("S4").unwrap(), Card::try_from("H4").unwrap()]);
    let caps: Vec<Card> = g.teams[0].captures.0.iter().map(|c| c.unwrap()).collect();
    assert_eq!(caps, vec![
        Card::try_from("D4").unwrap(),
        Card::try_from("C1").unwrap(),
        Card::try_from("D3").unwrap(),
        Card::try_from("S4").unwrap(),
        Card::try_from("H4").unwrap(),
    ]);
    assert_eq!(g.players[0].hand.cards, vec![Card::try_from("C9").unwrap()]);
}
