use std::convert::TryFrom;

use diloti::actions::{CaptureAction, PlayerAction};
use diloti::card::Card;
use diloti::deck::Deck;
use diloti::game::{Game, GameState};
use diloti::repr::{DeckRepr, TableEntryRepr, TableRepr};
use diloti::table::PlayerTpos;
use rand::SeedableRng;

fn rng() -> rand_pcg::Pcg64 {
    rand_pcg::Pcg64::seed_from_u64(11)
}

fn all_cards(g: &Game) -> Vec<Card> {
    let mut v: Vec<Card> = g.main_deck.cards.clone();
    for p in g.players.iter() {
        v.extend(p.hand.cards.iter().cloned());
    }
    let mut t = g.table.clone();
    v.extend(t.remove_all_cards());
    for tm in g.teams.iter() {
        v.extend(tm.captures.0.iter().map(|c| c.unwrap()));
    }
    v
}

fn sorted_key(v: &[Card]) -> Vec<(u8, u8)> {
    let mut k: Vec<(u8, u8)> = v.iter().map(|c| (c.suit.to_symbol() as u8, c.rank.0)).collect();
    k.sort();
    k
}

#[test]
fn full_deck_has_52_distinct_cards() {
    let d = Deck::full_52();
    assert_eq!(d.ncards(), 52);
    let mut k = sorted_key(&d.cards);
    k.dedup();
    assert_eq!(k.len(), 52);
}

#[test]
fn shuffle_permutes() {
    let mut d = Deck::full_52();
    let before = d.cards.clone();
    let mut r = rng();
    d.shuffle(&mut r);
    assert_eq!(d.ncards(), 52);
    assert_ne!(d.cards, before);
    assert_eq!(sorted_key(&d.cards), sorted_key(&before));
}

#[test]
fn new_games_deal() {
    for (g, n) in [(Game::new_1p(rng()), 1usize), (Game::new_2p(rng()), 2), (Game::new_4p(rng()), 4)] {
        assert_eq!(g.players.len(), n);
        assert_eq!(g.table.entries.len(), 4);
        for p in g.players.iter() {
            assert_eq!(p.hand.ncards(), 6);
        }
        assert_eq!(g.main_deck.ncards(), 52 - 4 - 6 * n);
        let mut k = sorted_key(&all_cards(&g));
        k.dedup();
        assert_eq!(k.len(), 52);
        assert!(matches!(g.state(), GameState::NextTurn(PlayerTpos(0))));
    }
}

#[test]
fn conservation_over_moves() {
    let mut g = Game::new_2p(rng());
    let before = sorted_key(&all_cards(&g));
    // lay down whatever is legal, capture otherwise, for a few turns
    for _ in 0..8 {
        let tpos = match g.state() {
            GameState::NextTurn(t) => *t,
            _ => break,
        };
        let hand = g.players[tpos.0 as usize].hand.cards.clone();
        let mut next = None;
        for c in hand.iter() {
            if let Ok(ng) = g.apply_action(tpos, PlayerAction::LayDown(*c)) {
                next = Some(ng);
                break;
            }
            let targets: Vec<_> = g.table.entries.iter().filter(|e| e.is_card() && e.value() == c.rank.0).cloned().collect();
            if !targets.is_empty() {
                let act = PlayerAction::Capture(CaptureAction { handcard: *c, tentries: vec![vec![targets[0].clone()]] });
                if let Ok(ng) = g.apply_action(tpos, act) {
                    next = Some(ng);
                    break;
                }
            }
        }
        match next {
            Some(ng) => g = ng,
            None => break,
        }
        if let GameState::RoundDone = g.state() {
            g.new_round();
        }
        assert_eq!(sorted_key(&all_cards(&g)), before);
    }
}

#[test]
fn game_done_scores_each_team() {
    // one player, one card left: capturing ends the game
    let table = TableRepr::new("S4 HA").parse().unwrap();
    let hand = DeckRepr::new("D4").parse().unwrap();
    let g = Game::new_1p_debug(rng(), table, hand);
    let act = PlayerAction::Capture(CaptureAction {
        handcard: Card::try_from("D4").unwrap(),
        tentries: vec![vec![TableEntryRepr::new("S4").parse().unwrap()]],
    });
    let g = g.apply_action(PlayerTpos(0), act).unwrap();
    match g.state() {
        GameState::GameDone(sheets) => {
            assert_eq!(sheets.len(), 1);
            // D4, S4 and the swept HA: three cards, one ace
            assert_eq!(sheets[0].0.nr_cards, 3);
            assert_eq!(sheets[0].0.score, 1);
            assert_eq!(sheets[0].1, 1);
        },
        _ => panic!("expected the game to be done"),
    }
    assert!(g.table.entries.is_empty());
}

#[test]
fn round_done_then_new_round() {
    let mut g = Game::new_2p(rng());
    // play out the first round by laying down or capturing as possible
    let mut guard = 0;
    while let GameState::NextTurn(tpos) = *g.state() {
        guard += 1;
        assert!(guard < 100);
        let hand = g.players[tpos.0 as usize].hand.cards.clone();
        let mut moved = false;
        for c in hand.iter() {
            if let Ok(ng) = g.apply_action(tpos, PlayerAction::LayDown(*c)) {
                g = ng;
                moved = true;
                break;
            }
            let targets: Vec<_> = g.table.entries.iter().filter(|e| e.value() == c.rank.0).cloned().collect();
            if !targets.is_empty() {
                let groups: Vec<_> = if c.rank.is_figure() { vec![vec![targets[0].clone()]] } else { targets.iter().map(|t| vec![t.clone()]).collect() };
                let act = PlayerAction::Capture(CaptureAction { handcard: *c, tentries: groups });
                if let Ok(ng) = g.apply_action(tpos, act) {
                    g = ng;
                    moved = true;
                    break;
                }
            }
        }
        if !moved {
            break;
        }
    }
    if let GameState::RoundDone = g.state() {
        assert!(g.all_players_done());
        let deck_before = g.main_deck.ncards();
        g.new_round();
        assert_eq!(g.main_deck.ncards(), deck_before - 12);
        assert!(matches!(g.state(), GameState::NextTurn(PlayerTpos(0))));
        for p in g.players.iter() {
            assert_eq!(p.hand.ncards(), 6);
        }
    }
}

#[test]
fn view_of_a_player() {
    let g = Game::new_4p(rng());
    let v = g.get_player_game_view(PlayerTpos(2));
    assert_eq!(v.pid, PlayerTpos(2));
    assert_eq!(v.own_hand.cards, g.players[2].hand.cards);
    assert_eq!(v.player_decks_sz, vec![6, 6, 6, 6]);
    assert_eq!(v.main_deck_sz, 24);
    assert!(!v.is_my_turn());
    assert_eq!(v.active_tpos(), Some(PlayerTpos(0)));
    assert!(v.card_in_hand(&g.players[2].hand.cards[0]));
    assert_eq!(v.enum_hand_cards().len(), 6);
    assert_eq!(v.enum_table_entries().len(), 4);
}
