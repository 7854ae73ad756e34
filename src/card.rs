use vstd::prelude::*;
use std::convert::TryFrom;

use crate::error::Error;

verus! {

#[derive(Debug, Clone, Copy, PartialEq, Eq, Structural, Hash)]
pub enum Suit {
    /// spades
    Spade,
    /// clubs
    Club,
    /// hearts
    Heart,
    /// diamonds
    Diamond,
}

/// A card rank: 1 (ace) to 13 (king); 11 to 13 are the figures.
#[derive(Debug, Clone, Copy, PartialEq, Eq, Structural, Hash)]
pub struct Rank(pub u8);

/// A game card.
#[derive(Debug, Clone, Copy, PartialEq, Eq, Structural, Hash)]
pub struct Card {
    pub suit: Suit,
    pub rank: Rank,
}

/// A plain copy of a card.
#[derive(Debug, Clone, Copy, PartialEq, Eq, Structural, Hash)]
pub struct CardClone {
    pub suit: Suit,
    pub rank: Rank,
}

impl Rank {
    pub open spec fn wf(self) -> bool {
        1 <= self.0 <= 13
    }

    pub open spec fn is_figure_spec(self) -> bool {
        self.0 >= 11
    }

    pub open spec fn symbol_spec(self) -> char {
        if self.0 == 1 {
            'A'
        } else if self.0 == 10 {
            'T'
        } else if self.0 == 11 {
            'J'
        } else if self.0 == 12 {
            'Q'
        } else if self.0 == 13 {
            'K'
        } else {
            (('0' as u8) + self.0) as char
        }
    }

    pub fn to_symbol(&self) -> (r: char)
        requires
            self.wf(),
        ensures
            r == self.symbol_spec(),
    {
        match self.0 {
            1 => 'A',
            10 => 'T',
            11 => 'J',
            12 => 'Q',
            13 => 'K',
            _ => (('0' as u8) + self.0) as char,
        }
    }

    pub fn is_figure(&self) -> (r: bool)
        ensures
            r == self.is_figure_spec(),
    {
        self.0 >= 11
    }

    /// The rank of a number, if it is one of 1 to 13.
    pub fn from_u8(val: u8) -> (r: Result<Rank, Error>)
        ensures
            r is Ok <==> 1 <= val <= 13,
            r is Ok ==> r->Ok_0 == Rank(val),
            r is Err ==> r->Err_0 is InvalidRankNumber
                && r->Err_0->InvalidRankNumber_0@ == decimal_of(val as nat),
    {
        if val < 1 || val > 13 {
            Err(Error::InvalidRankNumber(u8_to_decimal(val)))
        } else {
            Ok(Rank(val))
        }
    }

    /// The rank that a character names: a digit 1-9, or A, T, J, Q, K in either case.
    pub fn from_char(val: char) -> (r: Result<Rank, Error>)
        ensures
            r == rank_char_result(val),
    {
        match val {
            'a' | 'A' => Ok(Rank(1)),
            't' | 'T' => Ok(Rank(10)),
            'j' | 'J' => Ok(Rank(11)),
            'q' | 'Q' => Ok(Rank(12)),
            'k' | 'K' => Ok(Rank(13)),
            '1'..='9' => Ok(Rank((val as u8) - ('0' as u8))),
            _ => Err(Error::InvalidRankChar(val)),
        }
    }
}

/// The rank that a character names, if any.
pub open spec fn rank_of_char(c: char) -> Option<u8> {
    if c == 'a' || c == 'A' {
        Some(1u8)
    } else if c == 't' || c == 'T' {
        Some(10u8)
    } else if c == 'j' || c == 'J' {
        Some(11u8)
    } else if c == 'q' || c == 'Q' {
        Some(12u8)
    } else if c == 'k' || c == 'K' {
        Some(13u8)
    } else if '1' <= c <= '9' {
        Some(((c as u8) - ('0' as u8)) as u8)
    } else {
        None
    }
}

pub open spec fn rank_char_result(c: char) -> Result<Rank, Error> {
    match rank_of_char(c) {
        Some(v) => Ok(Rank(v)),
        None => Err(Error::InvalidRankChar(c)),
    }
}

/// The suit that a character names: S, C, H, D in either case, or the suit's symbol.
pub open spec fn suit_of_char(c: char) -> Option<Suit> {
    if c == 's' || c == 'S' || c == '\u{2660}' {
        Some(Suit::Spade)
    } else if c == 'c' || c == 'C' || c == '\u{2663}' {
        Some(Suit::Club)
    } else if c == 'd' || c == 'D' || c == '\u{2666}' {
        Some(Suit::Diamond)
    } else if c == 'h' || c == 'H' || c == '\u{2665}' {
        Some(Suit::Heart)
    } else {
        None
    }
}

pub open spec fn suit_char_result(c: char) -> Result<Suit, Error> {
    match suit_of_char(c) {
        Some(s) => Ok(s),
        None => Err(Error::InvalidSuitChar(c)),
    }
}

/// A card from its two characters, suit first.
pub open spec fn card_chars_result(s: char, r: char) -> Result<Card, Error> {
    match suit_of_char(s) {
        None => Err(Error::InvalidSuitChar(s)),
        Some(suit) => match rank_of_char(r) {
            None => Err(Error::InvalidRankChar(r)),
            Some(v) => Ok(Card { suit, rank: Rank(v) }),
        },
    }
}

/// A card from text, which must be exactly two characters long.
pub open spec fn card_text_result(s: Seq<char>) -> Result<Card, Error> {
    if s.len() != 2 {
        Err(Error::InvalidStringLen)
    } else {
        card_chars_result(s[0], s[1])
    }
}

/// The decimal digits of a number, most significant first.
pub open spec fn decimal_of(n: nat) -> Seq<char>
    decreases n,
{
    if n < 10 {
        seq![(('0' as nat) + n) as char]
    } else {
        decimal_of(n / 10).push((('0' as nat) + (n % 10)) as char)
    }
}

/// Relies on String::push: appends one character at the end.
#[verifier::external_body]
pub(crate) fn push_char(s: &mut String, c: char)
    ensures
        final(s)@ == old(s)@.push(c),
{
    s.push(c)
}

fn digit_char(d: u8) -> (r: char)
    requires
        d < 10,
    ensures
        r == (('0' as nat) + d) as char,
{
    (('0' as u8) + d) as char
}

/// The decimal text of a byte.
pub fn u8_to_decimal(v: u8) -> (r: String)
    ensures
        r@ == decimal_of(v as nat),
{
    let mut s = String::new();
    if v >= 100 {
        push_char(&mut s, digit_char(v / 100));
        push_char(&mut s, digit_char((v / 10) % 10));
        push_char(&mut s, digit_char(v % 10));
        assert(decimal_of(v as nat / 100) == seq![(('0' as nat) + (v / 100) as nat) as char]);
        assert((v as nat / 10) / 10 == v as nat / 100);
        assert(decimal_of(v as nat / 10) == decimal_of(v as nat / 100).push(
            (('0' as nat) + ((v / 10) % 10) as nat) as char));
    } else if v >= 10 {
        push_char(&mut s, digit_char(v / 10));
        push_char(&mut s, digit_char(v % 10));
        assert(decimal_of(v as nat / 10) == seq![(('0' as nat) + (v / 10) as nat) as char]);
    } else {
        push_char(&mut s, digit_char(v));
    }
    assert(s@ =~= decimal_of(v as nat));
    s
}

impl Suit {
    pub open spec fn is_red_spec(self) -> bool {
        self is Heart || self is Diamond
    }

    pub open spec fn symbol_spec(self) -> char {
        match self {
            Suit::Spade => '\u{2660}',
            Suit::Club => '\u{2663}',
            Suit::Heart => '\u{2665}',
            Suit::Diamond => '\u{2666}',
        }
    }

    pub fn is_red(&self) -> (r: bool)
        ensures
            r == self.is_red_spec(),
    {
        match self {
            Suit::Spade => false,
            Suit::Club => false,
            Suit::Heart => true,
            Suit::Diamond => true,
        }
    }

    pub fn to_symbol(&self) -> (r: char)
        ensures
            r == self.symbol_spec(),
    {
        match self {
            Suit::Spade => '\u{2660}',
            Suit::Club => '\u{2663}',
            Suit::Heart => '\u{2665}',
            Suit::Diamond => '\u{2666}',
        }
    }

    /// The suit that a character names.
    pub fn from_char(val: char) -> (r: Result<Suit, Error>)
        ensures
            r == suit_char_result(val),
    {
        match val {
            's' | 'S' | '\u{2660}' => Ok(Suit::Spade),
            'c' | 'C' | '\u{2663}' => Ok(Suit::Club),
            'd' | 'D' | '\u{2666}' => Ok(Suit::Diamond),
            'h' | 'H' | '\u{2665}' => Ok(Suit::Heart),
            _ => Err(Error::InvalidSuitChar(val)),
        }
    }
}

impl Card {
    pub open spec fn wf(self) -> bool {
        self.rank.wf()
    }

    /// The numeric value of the card, which is its rank.
    pub open spec fn val(self) -> u8 {
        self.rank.0
    }

    pub fn get_clone(&self) -> (r: CardClone)
        ensures
            r.suit == self.suit && r.rank == self.rank,
    {
        CardClone { suit: self.suit, rank: self.rank }
    }

    /// The card that two characters name, suit first.
    pub fn from_chars(s: char, r: char) -> (res: Result<Card, Error>)
        ensures
            res == card_chars_result(s, r),
    {
        let suit = match Suit::from_char(s) {
            Ok(x) => x,
            Err(e) => return Err(e),
        };
        let rank = match Rank::from_char(r) {
            Ok(x) => x,
            Err(e) => return Err(e),
        };
        Ok(Card { suit: suit, rank: rank })
    }

    /// The card that a two-character text names, suit first.
    pub fn from_text(s: &str) -> (res: Result<Card, Error>)
        ensures
            res == card_text_result(s@),
    {
        let n = s.unicode_len();
        if n != 2 {
            return Err(Error::InvalidStringLen);
        }
        let c0 = s.get_char(0);
        let c1 = s.get_char(1);
        Card::from_chars(c0, c1)
    }

    /// The card that a token names.
    pub fn from_token(t: &Vec<char>) -> (res: Result<Card, Error>)
        ensures
            res == card_text_result(t@),
    {
        if t.len() != 2 {
            return Err(Error::InvalidStringLen);
        }
        Card::from_chars(t[0], t[1])
    }

    /// The card's text: the suit's symbol, then the rank's symbol.
    pub fn to_text(&self) -> (r: String)
        requires
            self.wf(),
        ensures
            r@ == seq![self.suit.symbol_spec(), self.rank.symbol_spec()],
    {
        let mut s = String::new();
        push_char(&mut s, self.suit.to_symbol());
        push_char(&mut s, self.rank.to_symbol());
        assert(s@ =~= seq![self.suit.symbol_spec(), self.rank.symbol_spec()]);
        s
    }
}

impl TryFrom<char> for Rank {
    type Error = Error;

    fn try_from(val: char) -> Result<Rank, Error> {
        Rank::from_char(val)
    }
}

impl vstd::std_specs::convert::TryFromSpecImpl<char> for Rank {
    open spec fn obeys_try_from_spec() -> bool {
        true
    }

    open spec fn try_from_spec(v: char) -> Result<Rank, Error> {
        rank_char_result(v)
    }
}

impl TryFrom<char> for Suit {
    type Error = Error;

    fn try_from(val: char) -> Result<Suit, Error> {
        Suit::from_char(val)
    }
}

impl vstd::std_specs::convert::TryFromSpecImpl<char> for Suit {
    open spec fn obeys_try_from_spec() -> bool {
        true
    }

    open spec fn try_from_spec(v: char) -> Result<Suit, Error> {
        suit_char_result(v)
    }
}

impl TryFrom<[char; 2]> for Card {
    type Error = Error;

    fn try_from(val: [char; 2]) -> Result<Card, Error> {
        Card::from_chars(val[0], val[1])
    }
}

impl vstd::std_specs::convert::TryFromSpecImpl<[char; 2]> for Card {
    open spec fn obeys_try_from_spec() -> bool {
        true
    }

    open spec fn try_from_spec(v: [char; 2]) -> Result<Card, Error> {
        card_chars_result(v@[0], v@[1])
    }
}

impl<'a> TryFrom<&'a str> for Card {
    type Error = Error;

    fn try_from(val: &'a str) -> Result<Card, Error> {
        Card::from_text(val)
    }
}

impl<'a> vstd::std_specs::convert::TryFromSpecImpl<&'a str> for Card {
    open spec fn obeys_try_from_spec() -> bool {
        true
    }

    open spec fn try_from_spec(v: &'a str) -> Result<Card, Error> {
        card_text_result(v@)
    }
}

} // verus!
