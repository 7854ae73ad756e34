use std::convert::TryFrom;

use diloti::card::{u8_to_decimal, Card, CardClone, Rank, Suit};
use diloti::deck::Deck;
use diloti::error::Error;

#[test]
fn try_from_tests() {
    // rank
    assert_eq!(Rank::try_from('1').unwrap(), Rank(1));
    assert_eq!(Rank::try_from('A').unwrap(), Rank(1));
    assert!(Rank::try_from('x').is_err());
    // suit
    assert_eq!(Suit::try_from('♥').unwrap(), Suit::Heart);
    assert!(Suit::try_from('x').is_err());
    // card
    assert_eq!(Card::try_from(['♥', 'T']).unwrap(), Card { suit: Suit::Heart, rank: Rank(10) });
}

#[test]
fn rank_from_number() {
    assert_eq!(Rank::from_u8(13u8).unwrap(), Rank(13));
    match Rank::from_u8(0u8) {
        Err(Error::InvalidRankNumber(s)) => assert_eq!(s, "0"),
        _ => panic!("expected an invalid rank number"),
    }
    match Rank::from_u8(200u8) {
        Err(Error::InvalidRankNumber(s)) => assert_eq!(s, "200"),
        _ => panic!("expected an invalid rank number"),
    }
}

#[test]
fn rank_chars() {
    assert_eq!(Rank::try_from('t').unwrap(), Rank(10));
    assert_eq!(Rank::try_from('J').unwrap(), Rank(11));
    assert_eq!(Rank::try_from('q').unwrap(), Rank(12));
    assert_eq!(Rank::try_from('K').unwrap(), Rank(13));
    assert_eq!(Rank::try_from('9').unwrap(), Rank(9));
    assert!(matches!(Rank::try_from('0'), Err(Error::InvalidRankChar('0'))));
}

#[test]
fn card_from_text() {
    assert_eq!(Card::try_from("DK").unwrap(), Card { suit: Suit::Diamond, rank: Rank(13) });
    assert_eq!(Card::try_from("s5").unwrap(), Card { suit: Suit::Spade, rank: Rank(5) });
    assert!(matches!(Card::try_from("D"), Err(Error::InvalidStringLen)));
    assert!(matches!(Card::try_from("D10"), Err(Error::InvalidStringLen)));
    assert!(matches!(Card::try_from("X5"), Err(Error::InvalidSuitChar('X'))));
    assert!(matches!(Card::try_from("HZ"), Err(Error::InvalidRankChar('Z'))));
}

#[test]
fn symbols_and_colours() {
    assert_eq!(Rank(1).to_symbol(), 'A');
    assert_eq!(Rank(7).to_symbol(), '7');
    assert_eq!(Rank(10).to_symbol(), 'T');
    assert_eq!(Rank(12).to_symbol(), 'Q');
    assert!(Rank(11).is_figure());
    assert!(!Rank(10).is_figure());
    assert!(Suit::Heart.is_red());
    assert!(Suit::Diamond.is_red());
    assert!(!Suit::Club.is_red());
    assert_eq!(Suit::Spade.to_symbol(), '♠');
    let c = Card { suit: Suit::Club, rank: Rank(2) };
    assert_eq!(c.to_text(), "♣2");
    let cc: CardClone = c.get_clone();
    assert_eq!(cc.suit, Suit::Club);
    assert_eq!(cc.rank, Rank(2));
}

#[test]
fn decimal_text() {
    assert_eq!(u8_to_decimal(0), "0");
    assert_eq!(u8_to_decimal(9), "9");
    assert_eq!(u8_to_decimal(10), "10");
    assert_eq!(u8_to_decimal(255), "255");
}

#[test]
fn deck_from_text() {
    let d = Deck::from_text("S4  HT\tH9").unwrap();
    assert_eq!(d.cards, vec![
        Card { suit: Suit::Spade, rank: Rank(4) },
        Card { suit: Suit::Heart, rank: Rank(10) },
        Card { suit: Suit::Heart, rank: Rank(9) },
    ]);
    assert!(matches!(Deck::from_text("S4 Q9 HX"), Err(Error::InvalidSuitChar('Q'))));
    assert!(matches!(Deck::from_text("S4 H10"), Err(Error::InvalidStringLen)));
    assert_eq!(Deck::from_text("").unwrap().ncards(), 0);
}
