use diloti::card::{Card, Rank, Suit};
use diloti::repr::{tokenize, DeckRepr, DeclRepr, TableEntryRepr, TableRepr};
use diloti::table::{PlayerTpos, TableEntry};

#[test]
fn tokens() {
    assert_eq!(tokenize("  S4 \t HT\nH9 "), vec![vec!['S', '4'], vec!['H', 'T'], vec!['H', '9']]);
    assert!(tokenize("   ").is_empty());
}

#[test]
fn parse_and_format_deck() {
    let d = DeckRepr::new("D5 D9 C3 C9").parse().unwrap();
    assert_eq!(d.cards, vec![
        Card { suit: Suit::Diamond, rank: Rank(5) },
        Card { suit: Suit::Diamond, rank: Rank(9) },
        Card { suit: Suit::Club, rank: Rank(3) },
        Card { suit: Suit::Club, rank: Rank(9) },
    ]);
    assert_eq!(DeckRepr::fmt_deck(&d), "♦5 ♦9 ♣3 ♣9");
    assert!(DeckRepr::new("D5 XX").parse().is_none());
    assert_eq!(DeckRepr::new("").parse().unwrap().cards.len(), 0);
}

#[test]
fn parse_and_format_table() {
    let t = TableRepr::new("♥T 0:[ ♦5 ♠4 ][ H9 ]:").parse().unwrap();
    assert_eq!(t.entries.len(), 2);
    match &t.entries[1] {
        TableEntry::Decl(d) => {
            assert_eq!(d.player, PlayerTpos(0));
            assert_eq!(d.cards.len(), 2);
            assert_eq!(d.cards[1], vec![Card { suit: Suit::Heart, rank: Rank(9) }]);
            assert_eq!(d.value(), 9);
        },
        _ => panic!("expected a declaration"),
    }
    assert_eq!(TableRepr::fmt_table(&t), "♥T 0:[ ♦5 ♠4 ][ ♥9 ]:");
    // round trip through the text form
    let again = TableRepr::new(&TableRepr::fmt_table(&t)).parse().unwrap();
    assert_eq!(again.entries, t.entries);
    // unterminated declarations and bad tokens are rejected
    assert!(TableRepr::new("S4 1:[ D2").parse().is_none());
    assert!(TableRepr::new("S4 5:[ D2 ]:").parse().is_none());
}

#[test]
fn parse_entry_and_decl() {
    let e = TableEntryRepr::new("SK HK").parse().unwrap();
    assert_eq!(e, TableEntry::Card(Card { suit: Suit::Spade, rank: Rank(13) }));
    assert!(TableEntryRepr::new("").parse().is_none());
    let d = DeclRepr::new("3:[ S2 S3 ]: trailing").parse().unwrap();
    assert_eq!(d.player, PlayerTpos(3));
    assert_eq!(DeclRepr::fmt_declaration(&d), "3:[ ♠2 ♠3 ]:");
    assert!(DeclRepr::new("S2").parse().is_none());
    assert_eq!(TableEntryRepr::fmt_table_entry(&e), "♠K");
}
