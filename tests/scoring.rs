use diloti::card::{Card, Rank, Suit};
use diloti::scoring::{card_value, Capture, Captures, ScoreSheet};

fn c(suit: Suit, r: u8) -> Card {
    Card { suit, rank: Rank(r) }
}

#[test]
fn scoring_card_values() {
    assert_eq!(card_value(&c(Suit::Heart, 1)), 1);
    assert_eq!(card_value(&c(Suit::Spade, 1)), 1);
    assert_eq!(card_value(&c(Suit::Diamond, 10)), 2);
    assert_eq!(card_value(&c(Suit::Heart, 10)), 0);
    assert_eq!(card_value(&c(Suit::Club, 2)), 1);
    assert_eq!(card_value(&c(Suit::Spade, 2)), 0);
    assert_eq!(card_value(&c(Suit::Club, 13)), 0);
}

#[test]
fn score_of_captures() {
    let mut caps = Captures::new();
    caps.add_cards(vec![c(Suit::Diamond, 10), c(Suit::Club, 2), c(Suit::Heart, 5)], true);
    caps.add_cards(vec![c(Suit::Heart, 1), c(Suit::Spade, 7)], false);
    let s = caps.score();
    assert_eq!(s.nr_cards, 5);
    assert_eq!(s.nr_xeres, 1);
    // a xeri (10), the ten of diamonds (2), the two of clubs (1), an ace (1)
    assert_eq!(s.score, 14);
    assert_eq!(s.score_cards, vec![c(Suit::Diamond, 10), c(Suit::Club, 2), c(Suit::Heart, 1)]);
    assert!(!s.has_the_cards());
}

#[test]
fn cards_bonus_past_half() {
    let mut caps = Captures::new();
    let mut cards = vec![];
    for r in 3..=9u8 {
        for suit in [Suit::Spade, Suit::Club, Suit::Heart, Suit::Diamond] {
            cards.push(c(suit, r));
        }
    }
    // 28 cards with no scoring card among them
    caps.add_final_cards(cards[..26].to_vec(), false);
    let s = caps.score();
    assert_eq!(s.nr_cards, 26);
    assert_eq!(s.score, 0);
    caps.add_final_cards(cards[26..27].to_vec(), false);
    let s = caps.score();
    assert_eq!(s.nr_cards, 27);
    assert!(s.has_the_cards());
    assert_eq!(s.score, 4);
}

#[test]
fn add_capture_step() {
    let s = ScoreSheet::new();
    let s = s.add_capture(&Capture::Xeri(c(Suit::Heart, 1)));
    assert_eq!(s.nr_xeres, 1);
    assert_eq!(s.score, 11);
    assert_eq!(Capture::Card(c(Suit::Club, 4)).unwrap(), c(Suit::Club, 4));
}
