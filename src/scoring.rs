use vstd::prelude::*;
use vstd::multiset::Multiset;

use crate::card::{Card, Rank, Suit};

verus! {

/// What a team has captured, in order of capture.
#[derive(Clone, Debug)]
pub struct Captures(pub Vec<Capture>);

/// A captured card; a xeri is the card that emptied the table.
#[derive(Clone, Copy, Debug, PartialEq, Eq, Structural)]
pub enum Capture {
    Card(Card),
    Xeri(Card),
}

/// Points for the team that holds more than half of the cards.
pub const NCARDS_SCORE: usize = 4;
/// Points for each xeri.
pub const XERI_SCORE: usize = 10;
/// Cards in the game.
pub const NCARDS: usize = 52;

/// Points of a scoring card: every ace 1, the ten of diamonds 2, the two of clubs 1.
pub open spec fn card_points(c: Card) -> nat {
    if c.rank.0 == 1 {
        1
    } else if c.rank.0 == 10 && c.suit == Suit::Diamond {
        2
    } else if c.rank.0 == 2 && c.suit == Suit::Club {
        1
    } else {
        0
    }
}

pub fn card_value(c: &Card) -> (r: usize)
    ensures
        r == card_points(*c),
{
    match c {
        Card { rank: Rank(1), suit: _ } => 1,
        Card { rank: Rank(10), suit: Suit::Diamond } => 2,
        Card { rank: Rank(2), suit: Suit::Club } => 1,
        _ => 0,
    }
}

#[derive(Clone, Debug)]
pub struct ScoreSheet {
    /// cards captured
    pub nr_cards: usize,
    /// xeres made
    pub nr_xeres: usize,
    /// captured cards that score
    pub score_cards: Vec<Card>,
    /// total score
    pub score: usize,
}

impl Capture {
    pub open spec fn card(self) -> Card {
        match self {
            Capture::Card(c) => c,
            Capture::Xeri(c) => c,
        }
    }

    pub fn unwrap(self) -> (r: Card)
        ensures
            r == self.card(),
    {
        match self {
            Capture::Card(c) => c,
            Capture::Xeri(c) => c,
        }
    }
}

/// The number of xeres among some captures.
pub open spec fn count_xeres(caps: Seq<Capture>) -> nat
    decreases caps.len(),
{
    if caps.len() == 0 {
        0
    } else {
        count_xeres(caps.drop_last()) + if caps.last() is Xeri { 1nat } else { 0nat }
    }
}

/// The points of the scoring cards among some captures.
pub open spec fn sum_points(caps: Seq<Capture>) -> nat
    decreases caps.len(),
{
    if caps.len() == 0 {
        0
    } else {
        sum_points(caps.drop_last()) + card_points(caps.last().card())
    }
}

/// The scoring cards among some captures, in order of capture.
pub open spec fn scoring_cards(caps: Seq<Capture>) -> Seq<Card>
    decreases caps.len(),
{
    if caps.len() == 0 {
        Seq::empty()
    } else if card_points(caps.last().card()) > 0 {
        scoring_cards(caps.drop_last()).push(caps.last().card())
    } else {
        scoring_cards(caps.drop_last())
    }
}

/// The cards bonus: earned by holding more than half of the 52 cards.
pub open spec fn cards_bonus(n: nat) -> nat {
    if n > NCARDS / 2 {
        NCARDS_SCORE as nat
    } else {
        0
    }
}

/// The score of some captures: the cards bonus, 10 per xeri, and the scoring cards.
pub open spec fn score_of(caps: Seq<Capture>) -> nat {
    (cards_bonus(caps.len()) + XERI_SCORE * count_xeres(caps) + sum_points(caps)) as nat
}

/// The captured cards as a multiset.
pub open spec fn captures_ms(caps: Seq<Capture>) -> Multiset<Card> {
    caps.map_values(|c: Capture| c.card()).to_multiset()
}

/// Cards tagged as captures: the first one as a xeri when `xeri` holds.
pub open spec fn tagged(cs: Seq<Card>, xeri: bool) -> Seq<Capture> {
    Seq::new(cs.len(), |i: int| if xeri && i == 0 { Capture::Xeri(cs[i]) } else { Capture::Card(cs[i]) })
}

pub proof fn lemma_count_bounds(caps: Seq<Capture>)
    ensures
        count_xeres(caps) <= caps.len(),
        sum_points(caps) <= 2 * caps.len(),
        scoring_cards(caps).len() <= caps.len(),
    decreases caps.len(),
{
    if caps.len() > 0 {
        lemma_count_bounds(caps.drop_last());
    }
}

pub proof fn lemma_tagged_ms(cs: Seq<Card>, xeri: bool)
    ensures
        captures_ms(tagged(cs, xeri)) == cs.to_multiset(),
{
    assert(tagged(cs, xeri).map_values(|c: Capture| c.card()) =~= cs);
}

pub proof fn lemma_captures_ms_concat(a: Seq<Capture>, b: Seq<Capture>)
    ensures
        captures_ms(a + b) == captures_ms(a).add(captures_ms(b)),
{
    let f = |c: Capture| c.card();
    assert((a + b).map_values(f) =~= a.map_values(f) + b.map_values(f));
    vstd::seq_lib::lemma_multiset_commutative(a.map_values(f), b.map_values(f));
}

impl ScoreSheet {
    pub fn new() -> (r: ScoreSheet)
        ensures
            r.nr_cards == 0 && r.nr_xeres == 0 && r.score_cards@.len() == 0 && r.score == 0,
    {
        ScoreSheet { nr_cards: 0, nr_xeres: 0, score_cards: Vec::new(), score: 0 }
    }

    /// Whether the team holds more than half of the cards.
    pub fn has_the_cards(&self) -> (r: bool)
        ensures
            r == (self.nr_cards > NCARDS / 2),
    {
        self.nr_cards > (NCARDS / 2)
    }

    /// The sheet after one more capture.
    pub fn add_capture(self, capture: &Capture) -> (r: ScoreSheet)
        requires
            self.nr_cards < usize::MAX,
            self.score + XERI_SCORE + NCARDS_SCORE + 2 <= usize::MAX,
            self.nr_xeres < usize::MAX,
        ensures
            r.nr_cards == self.nr_cards + 1,
            r.nr_xeres == self.nr_xeres + if *capture is Xeri { 1int } else { 0int },
            r.score_cards@ == if card_points(capture.card()) > 0 {
                self.score_cards@.push(capture.card())
            } else {
                self.score_cards@
            },
            r.score == self.score + (if *capture is Xeri { XERI_SCORE as int } else { 0int })
                + (if r.nr_cards == NCARDS / 2 + 1 { NCARDS_SCORE as int } else { 0int })
                + card_points(capture.card()),
    {
        let mut s = self;
        let card = match capture {
            Capture::Card(c) => *c,
            Capture::Xeri(c) => {
                s.nr_xeres = s.nr_xeres + 1;
                s.score = s.score + XERI_SCORE;
                *c
            },
        };
        s.nr_cards = s.nr_cards + 1;
        if s.nr_cards == (NCARDS / 2) + 1 {
            s.score = s.score + NCARDS_SCORE;
        }
        let v = card_value(&card);
        if v != 0 {
            s.score_cards.push(card);
            s.score = s.score + v;
        }
        s
    }
}

impl Captures {
    pub open spec fn ms(&self) -> Multiset<Card> {
        captures_ms(self.0@)
    }

    pub fn new() -> (r: Captures)
        ensures
            r.0@.len() == 0,
    {
        Captures(Vec::new())
    }

    /// Appends captured cards; the first one is tagged as a xeri when `is_xeri` holds.
    pub fn add_cards_(&mut self, cards: Vec<Card>, is_xeri: bool)
        requires
            is_xeri ==> cards@.len() > 0,
        ensures
            final(self).0@ == old(self).0@ + tagged(cards@, is_xeri),
    {
        let mut i: usize = 0;
        while i < cards.len()
            invariant
                0 <= i <= cards@.len(),
                self.0@ == old(self).0@ + tagged(cards@, is_xeri).subrange(0, i as int),
            decreases cards.len() - i,
        {
            if is_xeri && i == 0 {
                self.0.push(Capture::Xeri(cards[i]));
            } else {
                self.0.push(Capture::Card(cards[i]));
            }
            i = i + 1;
            assert(self.0@ =~= old(self).0@ + tagged(cards@, is_xeri).subrange(0, i as int));
        }
        assert(tagged(cards@, is_xeri).subrange(0, cards@.len() as int) =~= tagged(cards@, is_xeri));
    }

    /// Appends the cards left on the table at the end of a game.
    pub fn add_final_cards(&mut self, cards: Vec<Card>, is_xeri: bool)
        requires
            is_xeri ==> cards@.len() > 0,
        ensures
            final(self).0@ == old(self).0@ + tagged(cards@, is_xeri),
    {
        self.add_cards_(cards, is_xeri);
    }

    /// Appends the cards of a capture: at least the hand card and one from the table.
    pub fn add_cards(&mut self, cards: Vec<Card>, is_xeri: bool)
        requires
            cards@.len() > 1,
        ensures
            final(self).0@ == old(self).0@ + tagged(cards@, is_xeri),
    {
        self.add_cards_(cards, is_xeri);
    }

    /// The score sheet of all captures so far.
    pub fn score(&self) -> (r: ScoreSheet)
        requires
            12 * self.0@.len() + 4 <= usize::MAX,
        ensures
            r.nr_cards == self.0@.len(),
            r.nr_xeres == count_xeres(self.0@),
            r.score_cards@ == scoring_cards(self.0@),
            r.score == score_of(self.0@),
    {
        let mut ss = ScoreSheet::new();
        let mut i: usize = 0;
        while i < self.0.len()
            invariant
                0 <= i <= self.0@.len(),
                12 * self.0@.len() + 4 <= usize::MAX,
                ss.nr_cards == i,
                ss.nr_xeres == count_xeres(self.0@.subrange(0, i as int)),
                ss.score_cards@ == scoring_cards(self.0@.subrange(0, i as int)),
                ss.score == score_of(self.0@.subrange(0, i as int)),
            decreases self.0.len() - i,
        {
            let ghost pre = self.0@.subrange(0, i as int);
            proof {
                assert(self.0@.subrange(0, i + 1).drop_last() =~= pre);
                lemma_count_bounds(pre);
            }
            ss = ss.add_capture(&self.0[i]);
            i = i + 1;
        }
        assert(self.0@.subrange(0, self.0@.len() as int) =~= self.0@);
        ss
    }
}

} // verus!
