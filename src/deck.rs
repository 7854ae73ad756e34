use vstd::prelude::*;
use rand::seq::SliceRandom;

use crate::card::{card_text_result, Card, Rank, Suit};
use crate::error::Error;
use crate::repr::{split_ws, tokenize, toks_view};

verus! {

#[verifier::external_type_specification]
#[verifier::external_body]
pub struct ExPcg64(rand_pcg::Lcg128Xsl64);

/// Relies on rand's `SliceRandom::shuffle` for slices, which permutes the slice in
/// place by swapping elements: the same cards stay, in some order.
#[verifier::external_body]
fn shuffle_cards(cards: &mut Vec<Card>, rng: &mut rand_pcg::Lcg128Xsl64)
    ensures
        final(cards)@.to_multiset() == old(cards)@.to_multiset(),
        final(cards)@.len() == old(cards)@.len(),
{
    cards.as_mut_slice().shuffle(rng)
}

/// Relies on the `Clone` impl of rand_pcg's `Lcg128Xsl64`, which copies the generator
/// state; nothing is stated of the copy.
#[verifier::external_body]
pub(crate) fn clone_rng(rng: &rand_pcg::Lcg128Xsl64) -> (r: rand_pcg::Lcg128Xsl64) {
    rng.clone()
}

/// An ordered collection of cards; the last card is the top one.
#[derive(Debug, Clone)]
pub struct Deck {
    pub cards: Vec<Card>,
}

impl View for Deck {
    type V = Seq<Card>;

    open spec fn view(&self) -> Seq<Card> {
        self.cards@
    }
}

pub open spec fn suit_at(i: int) -> Suit {
    if i == 0 {
        Suit::Spade
    } else if i == 1 {
        Suit::Club
    } else if i == 2 {
        Suit::Heart
    } else {
        Suit::Diamond
    }
}

/// The 52 cards in order: spades, clubs, hearts, diamonds, each from ace to king.
pub open spec fn full_deck() -> Seq<Card> {
    Seq::new(52, |i: int| Card { suit: suit_at(i / 13), rank: Rank((i % 13 + 1) as u8) })
}

impl Deck {
    pub fn empty() -> (r: Deck)
        ensures
            r@.len() == 0,
    {
        Deck { cards: Vec::new() }
    }

    pub fn full_52() -> (r: Deck)
        ensures
            r@ == full_deck(),
    {
        let mut cards: Vec<Card> = Vec::new();
        let suits: [Suit; 4] = [Suit::Spade, Suit::Club, Suit::Heart, Suit::Diamond];
        let mut s: usize = 0;
        while s < 4
            invariant
                0 <= s <= 4,
                suits@ == seq![Suit::Spade, Suit::Club, Suit::Heart, Suit::Diamond],
                cards@ == full_deck().subrange(0, 13 * s as int),
            decreases 4 - s,
        {
            let suit = suits[s];
            let mut rank: u8 = 1;
            while rank <= 13
                invariant
                    0 <= s < 4,
                    1 <= rank <= 14,
                    suit == suit_at(s as int),
                    cards@ == full_deck().subrange(0, 13 * s + rank - 1),
                decreases 14 - rank,
            {
                cards.push(Card { suit: suit, rank: Rank(rank) });
                proof {
                    let k = 13 * s + rank - 1;
                    assert((k / 13) == s as int) by (nonlinear_arith)
                        requires k == 13 * s + rank - 1, 1 <= rank <= 13;
                    assert((k % 13) == rank - 1) by (nonlinear_arith)
                        requires k == 13 * s + rank - 1, 1 <= rank <= 13;
                }
                rank = rank + 1;
                assert(cards@ =~= full_deck().subrange(0, 13 * s + rank - 1));
            }
            s = s + 1;
        }
        assert(cards@ =~= full_deck());
        Deck { cards: cards }
    }

    /// Takes the top card.
    pub fn pop(&mut self) -> (r: Option<Card>)
        ensures
            old(self)@.len() == 0 ==> r is None && final(self)@ == old(self)@,
            old(self)@.len() > 0 ==> r == Some(old(self)@.last()) && final(self)@ == old(self)@.drop_last(),
    {
        self.cards.pop()
    }

    /// Puts a card on top.
    pub fn push(&mut self, card: Card)
        ensures
            final(self)@ == old(self)@.push(card),
    {
        self.cards.push(card)
    }

    /// Puts the cards in a random order.
    pub fn shuffle(&mut self, rng: &mut rand_pcg::Lcg128Xsl64)
        ensures
            final(self)@.to_multiset() == old(self)@.to_multiset(),
            final(self)@.len() == old(self)@.len(),
    {
        shuffle_cards(&mut self.cards, rng)
    }

    pub fn ncards(&self) -> (r: usize)
        ensures
            r == self@.len(),
    {
        self.cards.len()
    }

    pub fn to_inner(self) -> (r: Vec<Card>)
        ensures
            r@ == self@,
    {
        self.cards
    }

    /// The deck that a text lists: whitespace-separated cards, suit first. The error
    /// is that of the first token that is not a card.
    pub fn from_text(s: &str) -> (r: Result<Deck, Error>)
        ensures
            r is Ok <==> forall|i: int| 0 <= i < split_ws(s@).len() ==> card_text_result(#[trigger] split_ws(s@)[i]) is Ok,
            r is Ok ==> r->Ok_0@.len() == split_ws(s@).len() && forall|i: int|
                0 <= i < split_ws(s@).len() ==> r->Ok_0@[i] == card_text_result(#[trigger] split_ws(s@)[i])->Ok_0,
            r is Err ==> exists|k: int|
                0 <= k < split_ws(s@).len() && r == Err::<Deck, Error>(card_text_result(split_ws(s@)[k])->Err_0)
                    && (forall|i: int| 0 <= i < k ==> card_text_result(#[trigger] split_ws(s@)[i]) is Ok),
    {
        let ts = tokenize(s);
        let ghost tv = split_ws(s@);
        let mut cards: Vec<Card> = Vec::new();
        let mut i: usize = 0;
        while i < ts.len()
            invariant
                tv == toks_view(ts),
                tv == split_ws(s@),
                0 <= i <= ts@.len(),
                cards@.len() == i,
                forall|k: int| 0 <= k < i ==> card_text_result(#[trigger] tv[k]) is Ok && cards@[k] == card_text_result(tv[k])->Ok_0,
            decreases ts.len() - i,
        {
            assert(tv[i as int] == ts@[i as int]@);
            match Card::from_token(&ts[i]) {
                Ok(c) => cards.push(c),
                Err(e) => {
                    assert(card_text_result(tv[i as int]) is Err);
                    return Err(e);
                },
            }
            i = i + 1;
        }
        Ok(Deck { cards: cards })
    }

    pub(crate) fn duplicate(&self) -> (r: Deck)
        ensures
            r@ == self@,
    {
        Deck { cards: crate::table::copy_cards(&self.cards) }
    }
}

} // verus!
