use vstd::prelude::*;
use vstd::multiset::Multiset;

use crate::actions::{CaptureAction, DeclAction, PerformedAction, PlayerAction};
use crate::card::Card;
use crate::deck::{clone_rng, Deck};
use crate::scoring::{captures_ms, score_of, Captures, ScoreSheet};
use crate::actions::{action_ok_parts, decl_value};
use crate::table::{
    cards_of, DeclView, append_groups, entries_view, entry_cards, keep_not, keep_not_loose, lemma_remove_first, loose_of, remove_first, swept,
    vv_view, Declaration, EntryView, PlayerTpos, Table, TableEntry,
};
use crate::scoring::{lemma_captures_ms_concat, lemma_tagged_ms, tagged};

verus! {

#[derive(Clone, Debug)]
pub struct Player {
    pub hand: Deck,
}

#[derive(Clone, Debug)]
pub struct Team {
    pub captures: Captures,
    /// score accumulated over the finished games
    pub score: usize,
}

/// Where a game stands: whose turn it is, a round that waits for a new deal, or a
/// finished game with one (score sheet, total score) per team.
#[derive(Clone, Debug)]
pub enum GameState {
    NextTurn(PlayerTpos),
    RoundDone,
    GameDone(Vec<(ScoreSheet, usize)>),
}

/// A player's point of view of the game.
#[derive(Debug, Clone)]
pub struct PlayerGameView {
    pub pid: PlayerTpos,
    pub table: Table,
    pub own_hand: Deck,
    pub state: GameState,
    pub last_action: Option<PerformedAction>,
    pub main_deck_sz: usize,
    pub player_decks_sz: Vec<usize>,
}

impl GameState {
    pub fn is_round_done(&self) -> (r: bool)
        ensures
            r == (*self is RoundDone),
    {
        match self {
            GameState::RoundDone => true,
            _ => false,
        }
    }

    pub fn is_game_done(&self) -> (r: bool)
        ensures
            r == (*self is GameDone),
    {
        match self {
            GameState::GameDone(_) => true,
            _ => false,
        }
    }
}

impl PlayerGameView {
    pub open spec fn my_turn(&self) -> bool {
        self.state is NextTurn && self.state->NextTurn_0 == self.pid
    }

    /// The cards of the own hand.
    pub fn iter_hand_cards(&self) -> (r: &Vec<Card>)
        ensures
            r@ == self.own_hand@,
    {
        &self.own_hand.cards
    }

    /// The cards of the own hand with their positions.
    pub fn enum_hand_cards(&self) -> (r: Vec<(usize, Card)>)
        ensures
            r@.len() == self.own_hand@.len(),
            forall|i: int| 0 <= i < r@.len() ==> (#[trigger] r@[i]) == (i as usize, self.own_hand@[i]),
    {
        let mut r: Vec<(usize, Card)> = Vec::new();
        let mut i: usize = 0;
        while i < self.own_hand.cards.len()
            invariant
                0 <= i <= self.own_hand@.len(),
                r@.len() == i,
                forall|k: int| 0 <= k < i ==> (#[trigger] r@[k]) == (k as usize, self.own_hand@[k]),
            decreases self.own_hand.cards.len() - i,
        {
            r.push((i, self.own_hand.cards[i]));
            i = i + 1;
        }
        r
    }

    pub fn get_hand_card(&self, idx: usize) -> (r: &Card)
        requires
            idx < self.own_hand@.len(),
        ensures
            *r == self.own_hand@[idx as int],
    {
        &self.own_hand.cards[idx]
    }

    /// The table entries.
    pub fn iter_table_entries(&self) -> (r: &Vec<TableEntry>)
        ensures
            r == &self.table.entries,
    {
        &self.table.entries
    }

    /// The table entries with their positions.
    pub fn enum_table_entries(&self) -> (r: Vec<(usize, &TableEntry)>)
        ensures
            r@.len() == self.table@.len(),
            forall|i: int| 0 <= i < r@.len() ==> (#[trigger] r@[i]).0 == i && r@[i].1@ == self.table@[i],
    {
        let mut r: Vec<(usize, &TableEntry)> = Vec::new();
        let mut i: usize = 0;
        while i < self.table.entries.len()
            invariant
                0 <= i <= self.table@.len(),
                r@.len() == i,
                forall|k: int| 0 <= k < i ==> (#[trigger] r@[k]).0 == k && r@[k].1@ == self.table@[k],
            decreases self.table.entries.len() - i,
        {
            r.push((i, &self.table.entries[i]));
            i = i + 1;
        }
        r
    }

    pub fn get_table_entry(&self, idx: usize) -> (r: &TableEntry)
        requires
            idx < self.table@.len(),
        ensures
            r@ == self.table@[idx as int],
    {
        &self.table.entries[idx]
    }

    pub fn card_in_hand(&self, c: &Card) -> (r: bool)
        ensures
            r == self.own_hand@.contains(*c),
    {
        let mut i: usize = 0;
        while i < self.own_hand.cards.len()
            invariant
                0 <= i <= self.own_hand@.len(),
                forall|k: int| 0 <= k < i ==> self.own_hand@[k] != *c,
            decreases self.own_hand.cards.len() - i,
        {
            if self.own_hand.cards[i] == *c {
                return true;
            }
            i = i + 1;
        }
        false
    }

    pub fn is_my_turn(&self) -> (r: bool)
        ensures
            r == self.my_turn(),
    {
        match self.state {
            GameState::NextTurn(tpos) => tpos == self.pid,
            _ => false,
        }
    }

    pub fn active_tpos(&self) -> (r: Option<PlayerTpos>)
        ensures
            self.state is NextTurn ==> r == Some(self.state->NextTurn_0),
            !(self.state is NextTurn) ==> r is None,
    {
        match self.state {
            GameState::NextTurn(tpos) => Some(tpos),
            _ => None,
        }
    }
}

impl Default for Team {
    fn default() -> (r: Team)
        ensures
            r.captures.0@.len() == 0 && r.score == 0,
    {
        Team::new()
    }
}

impl Team {
    pub fn new() -> (r: Team)
        ensures
            r.captures.0@.len() == 0 && r.score == 0,
    {
        Team { captures: Captures::new(), score: 0 }
    }

    /// Scores the captures of the finished game, adds the score to the total (which
    /// saturates at the largest usize) and starts the next game with no captures.
    pub fn update_score(&mut self) -> (r: (ScoreSheet, usize))
        requires
            12 * old(self).captures.0@.len() + 4 <= usize::MAX,
        ensures
            r.0.score == score_of(old(self).captures.0@),
            r.0.nr_cards == old(self).captures.0@.len(),
            r.0.nr_xeres == crate::scoring::count_xeres(old(self).captures.0@),
            r.0.score_cards@ == crate::scoring::scoring_cards(old(self).captures.0@),
            r.1 == final(self).score,
            final(self).score == if old(self).score + r.0.score > usize::MAX {
                usize::MAX as int
            } else {
                old(self).score + r.0.score
            },
            final(self).captures.0@.len() == 0,
    {
        let sheet = self.captures.score();
        if self.score > usize::MAX - sheet.score {
            self.score = usize::MAX;
        } else {
            self.score = self.score + sheet.score;
        }
        self.captures = Captures::new();
        (sheet, self.score)
    }
}


/// The starting deal of a game: deck, table and hands.
#[derive(Clone, Debug)]
pub struct InitState {
    pub deck: Deck,
    pub table: Table,
    pub hands: Vec<Deck>,
}

/// A game of 1, 2 or 4 players: the table, the main deck, the hands, and the
/// captures of the teams (players of even seats against players of odd seats).
#[derive(Debug)]
pub struct Game {
    pub table: Table,
    pub main_deck: Deck,
    pub players: Vec<Player>,
    pub teams: Vec<Team>,
    pub last_team_captured: usize,
    pub state: GameState,
    pub first_player: PlayerTpos,
    pub last_action: Option<PerformedAction>,
    pub initst_opt: Option<InitState>,
    pub rng: rand_pcg::Lcg128Xsl64,
}

/// The cards in some decks, as a multiset.
pub open spec fn decks_ms(ds: Seq<Deck>) -> Multiset<Card>
    decreases ds.len(),
{
    if ds.len() == 0 {
        Multiset::empty()
    } else {
        decks_ms(ds.drop_last()).add(ds.last()@.to_multiset())
    }
}

impl InitState {
    pub open spec fn ms(&self) -> Multiset<Card> {
        self.deck@.to_multiset().add(decks_ms(self.hands@)).add(self.table.ms())
    }

    /// A deal for `nplayers` players, with at most the 52 cards.
    pub open spec fn wf(&self, nplayers: int) -> bool {
        self.hands@.len() == nplayers && self.ms().len() <= 52
    }

    pub fn duplicate(&self) -> (r: InitState)
        ensures
            r.deck@ == self.deck@ && r.table@ == self.table@ && r.hands@.len() == self.hands@.len(),
            forall|k: int| 0 <= k < self.hands@.len() ==> (#[trigger] r.hands@[k])@ == self.hands@[k]@,
            r.ms() == self.ms(),
    {
        let mut hands: Vec<Deck> = Vec::new();
        let mut i: usize = 0;
        while i < self.hands.len()
            invariant
                0 <= i <= self.hands@.len(),
                hands@.len() == i,
                forall|k: int| 0 <= k < i ==> (#[trigger] hands@[k])@ == self.hands@[k]@,
            decreases self.hands.len() - i,
        {
            hands.push(self.hands[i].duplicate());
            i = i + 1;
        }
        proof {
            lemma_decks_ms_ext(hands@, self.hands@);
        }
        InitState { deck: self.deck.duplicate(), table: self.table.duplicate(), hands: hands }
    }

    /// A random deal: the 52 cards shuffled, six to each player and four on the table.
    pub fn default(nplayers: usize, rng: &mut rand_pcg::Lcg128Xsl64) -> (r: InitState)
        requires
            nplayers == 1 || nplayers == 2 || nplayers == 4,
        ensures
            r.wf(nplayers as int),
            r.ms() == crate::deck::full_deck().to_multiset(),
            r.deck@.len() == 52 - 6 * nplayers - 4,
            r.table@.len() == 4,
            forall|k: int| 0 <= k < nplayers ==> (#[trigger] r.hands@[k])@.len() == 6,
    {
        let mut deck = Deck::full_52();
        deck.shuffle(rng);
        let ghost full = crate::deck::full_deck().to_multiset();
        proof {
            broadcast use vstd::seq_lib::group_to_multiset_ensures;
            assert(deck@.len() == 52);
        }
        let mut hands: Vec<Deck> = Vec::new();
        let mut p: usize = 0;
        while p < nplayers
            invariant
                nplayers == 1 || nplayers == 2 || nplayers == 4,
                0 <= p <= nplayers,
                hands@.len() == p,
                deck@.len() == 52 - 6 * p,
                deck@.to_multiset().add(decks_ms(hands@)) == full,
                forall|k: int| 0 <= k < p ==> (#[trigger] hands@[k])@.len() == 6,
            decreases nplayers - p,
        {
            let mut h = Deck::empty();
            let mut c: usize = 0;
            proof {
                broadcast use vstd::seq_lib::group_to_multiset_ensures;
                assert(deck@.to_multiset().add(h@.to_multiset()).add(decks_ms(hands@)) =~= full);
            }
            while c < 6
                invariant
                    0 <= c <= 6,
                    p < nplayers,
                    nplayers == 1 || nplayers == 2 || nplayers == 4,
                    deck@.len() == 52 - 6 * p - c,
                    h@.len() == c,
                    deck@.to_multiset().add(h@.to_multiset()).add(decks_ms(hands@)) == full,
                decreases 6 - c,
            {
                let ghost d0 = deck@;
                let card = match deck.pop() {
                    Some(x) => x,
                    None => vstd::pervasive::unreached(),
                };
                h.push(card);
                proof {
                    broadcast use vstd::seq_lib::group_to_multiset_ensures;
                    assert(d0 == deck@.push(card));
                    assert(deck@.to_multiset().add(h@.to_multiset()).add(decks_ms(hands@)) =~= full);
                }
                c = c + 1;
            }
            let ghost hs0 = hands@;
            hands.push(h);
            proof {
                assert(hands@.drop_last() =~= hs0);
                assert(deck@.to_multiset().add(decks_ms(hands@)) =~= full);
            }
            p = p + 1;
        }
        let mut table = Table::empty();
        let mut t: usize = 0;
        proof {
            crate::table::lemma_entries_ms_empty(table@);
            assert(deck@.to_multiset().add(decks_ms(hands@)).add(table.ms()) =~= full);
        }
        while t < 4
            invariant
                0 <= t <= 4,
                deck@.len() == 52 - 6 * nplayers - t,
                nplayers == 1 || nplayers == 2 || nplayers == 4,
                table@.len() == t,
                deck@.to_multiset().add(decks_ms(hands@)).add(table.ms()) == full,
            decreases 4 - t,
        {
            let ghost d0 = deck@;
            let card = match deck.pop() {
                Some(x) => x,
                None => vstd::pervasive::unreached(),
            };
            table.add_card(card);
            proof {
                broadcast use vstd::seq_lib::group_to_multiset_ensures;
                assert(d0 == deck@.push(card));
                assert(deck@.to_multiset().add(decks_ms(hands@)).add(table.ms()) =~= full);
            }
            t = t + 1;
        }
        proof {
            broadcast use vstd::seq_lib::group_to_multiset_ensures;
            assert(full.len() == 52);
        }
        InitState { deck: deck, table: table, hands: hands }
    }
}

pub proof fn lemma_decks_ms_ext(a: Seq<Deck>, b: Seq<Deck>)
    requires
        a.len() == b.len(),
        forall|k: int| 0 <= k < a.len() ==> (#[trigger] a[k])@ == b[k]@,
    ensures
        decks_ms(a) == decks_ms(b),
    decreases a.len(),
{
    if a.len() > 0 {
        lemma_decks_ms_ext(a.drop_last(), b.drop_last());
    }
}

/// The cards in some hands, as a multiset.
pub open spec fn hands_ms(ps: Seq<Player>) -> Multiset<Card>
    decreases ps.len(),
{
    if ps.len() == 0 {
        Multiset::empty()
    } else {
        hands_ms(ps.drop_last()).add(ps.last().hand@.to_multiset())
    }
}

/// The cards that some teams captured, as a multiset.
pub open spec fn teams_ms(ts: Seq<Team>) -> Multiset<Card>
    decreases ts.len(),
{
    if ts.len() == 0 {
        Multiset::empty()
    } else {
        teams_ms(ts.drop_last()).add(captures_ms(ts.last().captures.0@))
    }
}

pub open spec fn nteams_of(nplayers: int) -> int {
    if nplayers == 1 {
        1
    } else {
        2
    }
}

/// The team of a seat: seats of one parity play together.
pub open spec fn team_of(tpos: PlayerTpos) -> int {
    (tpos.0 % 2) as int
}

pub open spec fn next_seat(tpos: PlayerTpos, nplayers: int) -> PlayerTpos {
    PlayerTpos(((tpos.0 + 1) % nplayers) as u8)
}

pub proof fn lemma_hands_ms_update(ps: Seq<Player>, k: int, p: Player)
    requires
        0 <= k < ps.len(),
    ensures
        hands_ms(ps.update(k, p)).add(ps[k].hand@.to_multiset()) == hands_ms(ps).add(p.hand@.to_multiset()),
    decreases ps.len(),
{
    if k == ps.len() - 1 {
        assert(ps.update(k, p).drop_last() =~= ps.drop_last());
        assert(hands_ms(ps.update(k, p)).add(ps[k].hand@.to_multiset()) =~= hands_ms(ps).add(p.hand@.to_multiset()));
    } else {
        lemma_hands_ms_update(ps.drop_last(), k, p);
        assert(ps.update(k, p).drop_last() =~= ps.drop_last().update(k, p));
        assert(ps.update(k, p).last() == ps.last());
        assert(ps.drop_last()[k] == ps[k]);
        assert(hands_ms(ps.update(k, p)) == hands_ms(ps.drop_last().update(k, p)).add(ps.last().hand@.to_multiset()));
        assert(hands_ms(ps) == hands_ms(ps.drop_last()).add(ps.last().hand@.to_multiset()));
        let l = ps.last().hand@.to_multiset();
        let h2 = hands_ms(ps.drop_last().update(k, p));
        let h = hands_ms(ps.drop_last());
        let xk = ps[k].hand@.to_multiset();
        let pm = p.hand@.to_multiset();
        assert(h2.add(xk) == h.add(pm));
        assert forall|x: Card| #[trigger] h2.add(l).add(xk).count(x) == h.add(l).add(pm).count(x) by {
            assert(h2.add(xk).count(x) == h.add(pm).count(x));
        }
        assert(h2.add(l).add(xk) =~= h.add(l).add(pm));
    }
}

pub proof fn lemma_teams_ms_update(ts: Seq<Team>, k: int, t: Team)
    requires
        0 <= k < ts.len(),
    ensures
        teams_ms(ts.update(k, t)).add(captures_ms(ts[k].captures.0@)) == teams_ms(ts).add(captures_ms(t.captures.0@)),
    decreases ts.len(),
{
    if k == ts.len() - 1 {
        assert(ts.update(k, t).drop_last() =~= ts.drop_last());
        assert(teams_ms(ts.update(k, t)).add(captures_ms(ts[k].captures.0@)) =~= teams_ms(ts).add(captures_ms(t.captures.0@)));
    } else {
        lemma_teams_ms_update(ts.drop_last(), k, t);
        assert(ts.update(k, t).drop_last() =~= ts.drop_last().update(k, t));
        assert(ts.update(k, t).last() == ts.last());
        assert(ts.drop_last()[k] == ts[k]);
        assert(teams_ms(ts.update(k, t)) == teams_ms(ts.drop_last().update(k, t)).add(captures_ms(ts.last().captures.0@)));
        assert(teams_ms(ts) == teams_ms(ts.drop_last()).add(captures_ms(ts.last().captures.0@)));
        let l = captures_ms(ts.last().captures.0@);
        let h2 = teams_ms(ts.drop_last().update(k, t));
        let h = teams_ms(ts.drop_last());
        let xk = captures_ms(ts[k].captures.0@);
        let pm = captures_ms(t.captures.0@);
        assert(h2.add(xk) == h.add(pm));
        assert forall|x: Card| #[trigger] h2.add(l).add(xk).count(x) == h.add(l).add(pm).count(x) by {
            assert(h2.add(xk).count(x) == h.add(pm).count(x));
        }
        assert(h2.add(l).add(xk) =~= h.add(l).add(pm));
    }
}

pub proof fn lemma_teams_ms_len(ts: Seq<Team>, k: int)
    requires
        0 <= k < ts.len(),
    ensures
        teams_ms(ts).len() >= ts[k].captures.0@.len(),
    decreases ts.len(),
{
    broadcast use vstd::seq_lib::group_to_multiset_ensures;
    if k < ts.len() - 1 {
        lemma_teams_ms_len(ts.drop_last(), k);
    }
    assert(ts[k].captures.0@.map_values(|c: crate::scoring::Capture| c.card()).len() == ts[k].captures.0@.len());
}

/// Whether an entry is a declaration of several groups.
pub open spec fn is_group_decl(e: EntryView) -> bool {
    e is Decl && e->Decl_0.groups.len() > 1
}

/// The groups that one group of a declaration action contributes: the groups of a
/// group declaration standing alone, or else the cards of its entries as one group.
pub open spec fn group_part(g: Seq<EntryView>) -> Seq<Seq<Card>> {
    if g.len() == 1 && is_group_decl(g[0]) {
        g[0]->Decl_0.groups
    } else if cards_of(g).len() > 0 {
        seq![cards_of(g)]
    } else {
        Seq::empty()
    }
}

/// The groups that a declaration action forms, before loose cards are absorbed.
pub open spec fn decl_groups(ee: Seq<Seq<EntryView>>) -> Seq<Seq<Card>>
    decreases ee.len(),
{
    if ee.len() == 0 {
        Seq::empty()
    } else {
        decl_groups(ee.drop_last()) + group_part(ee.last())
    }
}

/// The table after the entries that a declaration names are taken (all but the first,
/// the hand card).
pub open spec fn decl_taken(table: Seq<EntryView>, da: DeclAction) -> Seq<EntryView> {
    remove_each(table, flat_targets(da.ee()).drop_first())
}

/// The loose cards of the declared value that a declaration absorbs.
pub open spec fn decl_absorbed(table: Seq<EntryView>, da: DeclAction) -> Seq<Card> {
    loose_of(decl_taken(table, da), decl_value(da.ee()))
}

/// The table after a declaration, before the new declaration is put on it.
pub open spec fn decl_rest(table: Seq<EntryView>, da: DeclAction) -> Seq<EntryView> {
    keep_not_loose(decl_taken(table, da), decl_value(da.ee()))
}

pub proof fn lemma_flat_nonempty(ee: Seq<Seq<EntryView>>, i: int)
    requires
        1 <= i <= ee.len(),
        ee[0].len() > 0,
    ensures
        flat_targets(ee.subrange(0, i)).len() > 0,
    decreases i,
{
    let s = ee.subrange(0, i);
    if i == 1 {
        assert(s.drop_last() =~= Seq::<Seq<EntryView>>::empty());
        assert(s.last() == ee[0]);
    } else {
        lemma_flat_nonempty(ee, i - 1);
        assert(s.drop_last() =~= ee.subrange(0, i - 1));
    }
}

/// A sum of scores, saturating at the largest usize.
pub open spec fn sat_add(a: usize, b: usize) -> usize {
    if a + b > usize::MAX {
        usize::MAX
    } else {
        (a + b) as usize
    }
}

/// Each card as a group of its own.
pub open spec fn singles(cs: Seq<Card>) -> Seq<Seq<Card>> {
    cs.map_values(|c: Card| seq![c])
}

/// The entries that an action names, group after group.
pub open spec fn flat_targets(ee: Seq<Seq<EntryView>>) -> Seq<EntryView>
    decreases ee.len(),
{
    if ee.len() == 0 {
        Seq::empty()
    } else {
        flat_targets(ee.drop_last()) + ee.last()
    }
}

/// The entries left after taking out each of `ts` in turn, each time the first equal one.
pub open spec fn remove_each(es: Seq<EntryView>, ts: Seq<EntryView>) -> Seq<EntryView>
    decreases ts.len(),
{
    if ts.len() == 0 {
        es
    } else {
        remove_first(remove_each(es, ts.drop_last()), ts.last())
    }
}

/// The table after the explicit targets of a capture are taken.
pub open spec fn capture_taken(table: Seq<EntryView>, ca: CaptureAction) -> Seq<EntryView> {
    remove_each(table, flat_targets(ca.ee()))
}

/// The table after a capture: a numeric capture also sweeps every entry of its value.
pub open spec fn capture_rest(table: Seq<EntryView>, ca: CaptureAction) -> Seq<EntryView> {
    if ca.handcard.rank.0 >= 11 {
        capture_taken(table, ca)
    } else {
        keep_not(capture_taken(table, ca), ca.handcard.rank.0)
    }
}

/// The cards that a capture sweeps in beyond its targets.
pub open spec fn capture_forced(table: Seq<EntryView>, ca: CaptureAction) -> Seq<Card> {
    if ca.handcard.rank.0 >= 11 {
        Seq::empty()
    } else {
        swept(capture_taken(table, ca), ca.handcard.rank.0)
    }
}

/// The cards a capture takes, in order: the hand card, the targets' cards, the swept ones.
pub open spec fn capture_cards(table: Seq<EntryView>, ca: CaptureAction) -> Seq<Card> {
    seq![ca.handcard] + cards_of(flat_targets(ca.ee())) + capture_forced(table, ca)
}

/// Whether `h2` is `h` without its first `c`.
pub open spec fn hand_without(h: Seq<Card>, c: Card, h2: Seq<Card>) -> bool {
    exists|k: int| 0 <= k < h.len() && h[k] == c && (forall|j: int| 0 <= j < k ==> h[j] != c) && h2 == h.remove(k)
}

/// The entries of the groups from group `i` on, as a multiset.
pub open spec fn groups_entries_from(ee: Seq<Seq<EntryView>>, i: int) -> Multiset<EntryView>
    decreases ee.len() - i,
{
    if i < 0 || i >= ee.len() {
        Multiset::empty()
    } else {
        ee[i].to_multiset().add(groups_entries_from(ee, i + 1))
    }
}

/// The table entries that a declaration names: all but its first entry, the hand card.
pub open spec fn decl_targets(ee: Seq<Seq<EntryView>>) -> Multiset<EntryView> {
    ee[0].subrange(1, ee[0].len() as int).to_multiset().add(groups_entries_from(ee, 1))
}

/// Whether each declaration that a declaration takes in can be taken: one of a single
/// group, or one of several groups alone in its group.
pub open spec fn decl_shape_ok(ee: Seq<Seq<EntryView>>) -> bool {
    forall|i: int, j: int|
        0 <= i < ee.len() && 0 <= j < ee[i].len() && (#[trigger] ee[i][j]) is Decl ==> (ee[i][j]->Decl_0.groups.len()
            == 1 || (ee[i][j]->Decl_0.groups.len() > 1 && j == 0 && ee[i].len() == 1))
}

/// Whether the table holds every entry that an action names, as often as it names it.
pub open spec fn targets_present(ee: Seq<Seq<EntryView>>, table: Seq<EntryView>) -> bool {
    groups_entries_from(ee, 0).subset_of(table.to_multiset())
}

pub proof fn lemma_subrange_ms_step(g: Seq<EntryView>, j: int)
    requires
        0 <= j < g.len(),
    ensures
        g.subrange(j, g.len() as int).to_multiset() == g.subrange(j + 1, g.len() as int).to_multiset().insert(g[j]),
{
    broadcast use vstd::seq_lib::group_to_multiset_ensures;
    let s = g.subrange(j, g.len() as int);
    assert(s.remove(0) =~= g.subrange(j + 1, g.len() as int));
    assert(s[0] == g[j]);
    assert(s.contains(g[j]));
    assert(s.to_multiset().count(g[j]) > 0);
    assert(s.to_multiset() =~= s.remove(0).to_multiset().insert(g[j]));
}

/// Taking a named entry off the table keeps the rest of the named entries on it.
pub proof fn lemma_pending_remove(pending: Multiset<EntryView>, t: Seq<EntryView>, k: int, e: EntryView)
    requires
        pending.insert(e).subset_of(t.to_multiset()),
        0 <= k < t.len(),
        t[k] == e,
    ensures
        pending.subset_of(t.remove(k).to_multiset()),
{
    broadcast use vstd::seq_lib::group_to_multiset_ensures;
    assert(t.remove(k).to_multiset() == t.to_multiset().remove(e));
    assert forall|x: EntryView| pending.count(x) <= #[trigger] t.remove(k).to_multiset().count(x) by {
        assert(pending.insert(e).count(x) <= t.to_multiset().count(x));
    }
}

pub proof fn lemma_present_contains(pending: Multiset<EntryView>, t: Seq<EntryView>, e: EntryView)
    requires
        pending.insert(e).subset_of(t.to_multiset()),
    ensures
        t.contains(e),
{
    broadcast use vstd::seq_lib::group_to_multiset_ensures;
    assert(pending.insert(e).count(e) >= 1);
    assert(t.to_multiset().count(e) >= 1);
}

pub proof fn lemma_hands_ms_ext(a: Seq<Player>, b: Seq<Player>)
    requires
        a.len() == b.len(),
        forall|k: int| 0 <= k < a.len() ==> (#[trigger] a[k]).hand@ == b[k].hand@,
    ensures
        hands_ms(a) == hands_ms(b),
    decreases a.len(),
{
    if a.len() > 0 {
        lemma_hands_ms_ext(a.drop_last(), b.drop_last());
    }
}

pub proof fn lemma_teams_ms_ext(a: Seq<Team>, b: Seq<Team>)
    requires
        a.len() == b.len(),
        forall|k: int| 0 <= k < a.len() ==> (#[trigger] a[k]).captures.0@ == b[k].captures.0@,
    ensures
        teams_ms(a) == teams_ms(b),
    decreases a.len(),
{
    if a.len() > 0 {
        lemma_teams_ms_ext(a.drop_last(), b.drop_last());
    }
}

pub proof fn lemma_teams_ms_zero(ts: Seq<Team>)
    requires
        forall|j: int| 0 <= j < ts.len() ==> (#[trigger] ts[j]).captures.0@.len() == 0,
    ensures
        teams_ms(ts).len() == 0,
    decreases ts.len(),
{
    broadcast use vstd::seq_lib::group_to_multiset_ensures;
    if ts.len() > 0 {
        lemma_teams_ms_zero(ts.drop_last());
        let cs = ts.last().captures.0@.map_values(|c: crate::scoring::Capture| c.card());
        assert(cs.len() == 0);
    }
}

pub proof fn lemma_entries_ms_zero(es: Seq<EntryView>)
    requires
        es.len() == 0,
    ensures
        crate::table::entries_ms(es).len() == 0,
{
}

impl Player {
    pub fn iter_hand_cards(&self) -> (r: &Vec<Card>)
        ensures
            r@ == self.hand@,
    {
        &self.hand.cards
    }

    pub(crate) fn duplicate(&self) -> (r: Player)
        ensures
            r.hand@ == self.hand@,
    {
        Player { hand: self.hand.duplicate() }
    }
}

impl Team {
    pub(crate) fn duplicate(&self) -> (r: Team)
        ensures
            r.captures.0@ == self.captures.0@,
            r.score == self.score,
    {
        let mut caps: Vec<crate::scoring::Capture> = Vec::new();
        let mut i: usize = 0;
        while i < self.captures.0.len()
            invariant
                0 <= i <= self.captures.0@.len(),
                caps@ == self.captures.0@.subrange(0, i as int),
            decreases self.captures.0.len() - i,
        {
            caps.push(self.captures.0[i]);
            i = i + 1;
            assert(caps@ =~= self.captures.0@.subrange(0, i as int));
        }
        assert(self.captures.0@.subrange(0, self.captures.0@.len() as int) =~= self.captures.0@);
        Team { captures: Captures(caps), score: self.score }
    }
}

impl Game {
    /// All cards of the game, as a multiset: main deck, hands, table and captures.
    pub open spec fn ms(&self) -> Multiset<Card> {
        self.main_deck@.to_multiset().add(hands_ms(self.players@)).add(self.table.ms()).add(
            teams_ms(self.teams@),
        )
    }

    /// A random deal: the 52 cards, six in each hand, four on the table, the rest in
    /// the main deck.
    pub open spec fn fresh_deal(&self) -> bool {
        &&& self.ms() == crate::deck::full_deck().to_multiset()
        &&& self.table@.len() == 4
        &&& forall|k: int| 0 <= k < self.nplayers() ==> (#[trigger] self.players@[k]).hand@.len() == 6
        &&& self.main_deck@.len() == 52 - 4 - 6 * self.nplayers()
    }

    pub open spec fn nplayers(&self) -> int {
        self.players@.len() as int
    }

    pub open spec fn wf(&self) -> bool {
        &&& self.nplayers() == 1 || self.nplayers() == 2 || self.nplayers() == 4
        &&& self.teams@.len() == nteams_of(self.nplayers())
        &&& self.last_team_captured < self.teams@.len()
        &&& self.first_player.0 < self.nplayers()
        &&& self.state is NextTurn ==> self.state->NextTurn_0.0 < self.nplayers()
        &&& self.ms().len() <= 52
        &&& self.state is GameDone ==> forall|j: int|
            0 <= j < self.teams@.len() ==> (#[trigger] self.teams@[j]).captures.0@.len() == 0
        &&& self.initst_opt is Some ==> self.initst_opt->Some_0.wf(self.nplayers())
    }

    pub open spec fn hand(&self, tpos: PlayerTpos) -> Seq<Card> {
        self.players@[tpos.0 as int].hand@
    }

    pub fn remove_player_card(&mut self, tpos: PlayerTpos, c: &Card) -> (r: Option<Card>)
        ensures
            final(self).table == old(self).table && final(self).main_deck == old(self).main_deck
                && final(self).teams == old(self).teams && final(self).state == old(self).state
                && final(self).last_team_captured == old(self).last_team_captured
                && final(self).first_player == old(self).first_player
                && final(self).last_action == old(self).last_action
                && final(self).initst_opt == old(self).initst_opt,
            final(self).players@.len() == old(self).players@.len(),
            r is Some <==> (tpos.0 < old(self).nplayers() && old(self).hand(tpos).contains(*c)),
            r is Some ==> hand_without(old(self).hand(tpos), *c, final(self).hand(tpos)),
            r is Some ==> r->Some_0 == *c && hands_ms(old(self).players@) == hands_ms(final(self).players@).insert(*c)
                && final(self).hand(tpos).len() == old(self).hand(tpos).len() - 1
                && forall|k: int| 0 <= k < old(self).nplayers() && k != tpos.0
                    ==> (#[trigger] final(self).players@[k]).hand@ == old(self).players@[k].hand@,
            r is None ==> final(self).players@ == old(self).players@,
    {
        let idx = tpos.0 as usize;
        if idx >= self.players.len() {
            return None;
        }
        let mut i: usize = 0;
        while i < self.players[idx].hand.cards.len()
            invariant
                idx < self.players@.len(),
                idx == tpos.0,
                *self == *old(self),
                0 <= i <= self.hand(tpos).len(),
                forall|k: int| 0 <= k < i ==> self.hand(tpos)[k] != *c,
            decreases self.players[idx as int].hand@.len() - i,
        {
            if self.players[idx].hand.cards[i] == *c {
                let mut p = self.players[idx].duplicate();
                let card = p.hand.cards.remove(i);
                let ghost old_players = self.players@;
                let ghost oh = old_players[idx as int].hand@;
                self.players.set(idx, p);
                proof {
                    broadcast use vstd::seq_lib::group_to_multiset_ensures;
                    lemma_hands_ms_update(old_players, idx as int, p);
                    assert(self.players@ == old_players.update(idx as int, p));
                    assert(p.hand@ == oh.remove(i as int));
                    assert(self.hand(tpos) == p.hand@);
                    assert(oh[i as int] == card);
                    assert(oh.contains(card));
                    assert(oh.to_multiset().count(card) > 0);
                    assert(oh.to_multiset() =~= p.hand@.to_multiset().insert(card));
                    let a = hands_ms(old_players);
                    let b = hands_ms(self.players@);
                    let pm = p.hand@.to_multiset();
                    assert(a.add(pm) == b.add(pm.insert(card)));
                    assert forall|x: Card| #[trigger] a.count(x) == b.insert(card).count(x) by {
                        assert(a.add(pm).count(x) == b.add(pm.insert(card)).count(x));
                    }
                    assert(a =~= b.insert(card));
                }
                return Some(card);
            }
            i = i + 1;
        }
        None
    }

    pub fn remove_table_card(&mut self, c: &Card) -> (r: Option<Card>)
        ensures
            final(self).players == old(self).players && final(self).main_deck == old(self).main_deck
                && final(self).teams == old(self).teams && final(self).state == old(self).state
                && final(self).last_team_captured == old(self).last_team_captured
                && final(self).first_player == old(self).first_player
                && final(self).last_action == old(self).last_action
                && final(self).initst_opt == old(self).initst_opt,
            r is Some <==> old(self).table@.contains(EntryView::Card(*c)),
            r is Some ==> r->Some_0 == *c && old(self).table.ms() == final(self).table.ms().insert(*c),
            r is Some ==> final(self).table@ == remove_first(old(self).table@, EntryView::Card(*c)),
            r is Some ==> exists|i: int|
                0 <= i < old(self).table@.len() && old(self).table@[i] == EntryView::Card(*c) && final(self).table@
                    == old(self).table@.remove(i),
            r is None ==> final(self).table@ == old(self).table@,
    {
        let r = self.table.remove_card(c);
        proof {
            if r is Some {
                let i = choose|i: int| 0 <= i < old(self).table@.len() && old(self).table@[i] == EntryView::Card(*c)
                    && self.table@ == old(self).table@.remove(i) && forall|j: int| 0 <= j < i ==> old(self).table@[j]
                    != EntryView::Card(*c);
                lemma_remove_first(old(self).table@, EntryView::Card(*c), i);
            }
        }
        r
    }

    pub fn remove_table_decl(&mut self, d: &Declaration) -> (r: Option<Declaration>)
        ensures
            final(self).players == old(self).players && final(self).main_deck == old(self).main_deck
                && final(self).teams == old(self).teams && final(self).state == old(self).state
                && final(self).last_team_captured == old(self).last_team_captured
                && final(self).first_player == old(self).first_player
                && final(self).last_action == old(self).last_action
                && final(self).initst_opt == old(self).initst_opt,
            r is Some <==> old(self).table@.contains(EntryView::Decl(d@)),
            r is Some ==> r->Some_0@ == d@ && old(self).table.ms() == final(self).table.ms().add(
                crate::table::groups_ms(d@.groups),
            ),
            r is Some ==> final(self).table@ == remove_first(old(self).table@, EntryView::Decl(d@)),
            r is Some ==> exists|i: int|
                0 <= i < old(self).table@.len() && old(self).table@[i] == EntryView::Decl(d@) && final(self).table@
                    == old(self).table@.remove(i),
            r is None ==> final(self).table@ == old(self).table@,
    {
        let r = self.table.remove_decl(d);
        proof {
            if r is Some {
                let i = choose|i: int| 0 <= i < old(self).table@.len() && old(self).table@[i] == EntryView::Decl(d@)
                    && self.table@ == old(self).table@.remove(i) && forall|j: int| 0 <= j < i ==> old(self).table@[j]
                    != EntryView::Decl(d@);
                lemma_remove_first(old(self).table@, EntryView::Decl(d@), i);
            }
        }
        r
    }

    pub fn add_table_decl(&mut self, d: Declaration)
        ensures
            final(self).players == old(self).players && final(self).main_deck == old(self).main_deck
                && final(self).teams == old(self).teams && final(self).state == old(self).state
                && final(self).last_team_captured == old(self).last_team_captured
                && final(self).first_player == old(self).first_player
                && final(self).last_action == old(self).last_action
                && final(self).initst_opt == old(self).initst_opt,
            final(self).table@ == old(self).table@.push(EntryView::Decl(d@)),
            final(self).table.ms() == old(self).table.ms().add(crate::table::groups_ms(d@.groups)),
    {
        self.table.add_decl(d)
    }

    pub fn add_table_card(&mut self, c: Card)
        ensures
            final(self).players == old(self).players && final(self).main_deck == old(self).main_deck
                && final(self).teams == old(self).teams && final(self).state == old(self).state
                && final(self).last_team_captured == old(self).last_team_captured
                && final(self).first_player == old(self).first_player
                && final(self).last_action == old(self).last_action
                && final(self).initst_opt == old(self).initst_opt,
            final(self).table@ == old(self).table@.push(EntryView::Card(c)),
            final(self).table.ms() == old(self).table.ms().insert(c),
    {
        self.table.add_card(c)
    }

    /// What the player at `pid` sees.
    pub fn get_player_game_view(&self, pid: PlayerTpos) -> (r: PlayerGameView)
        requires
            pid.0 < self.nplayers(),
        ensures
            r.pid == pid && r.table@ == self.table@ && r.own_hand@ == self.hand(pid),
            r.state.same_phase(self.state) && r.main_deck_sz == self.main_deck@.len(),
            r.player_decks_sz@.len() == self.nplayers(),
            forall|k: int| 0 <= k < self.nplayers() ==> r.player_decks_sz@[k] == (#[trigger] self.players@[k]).hand@.len(),
    {
        let mut sizes: Vec<usize> = Vec::new();
        let mut i: usize = 0;
        while i < self.players.len()
            invariant
                0 <= i <= self.players@.len(),
                sizes@.len() == i,
                forall|k: int| 0 <= k < i ==> sizes@[k] == (#[trigger] self.players@[k]).hand@.len(),
            decreases self.players.len() - i,
        {
            sizes.push(self.players[i].hand.ncards());
            i = i + 1;
        }
        PlayerGameView {
            pid: pid,
            table: self.table.duplicate(),
            own_hand: self.players[pid.0 as usize].hand.duplicate(),
            state: self.state.duplicate(),
            last_action: self.last_action.clone(),
            main_deck_sz: self.main_deck.ncards(),
            player_decks_sz: sizes,
        }
    }

    /// Whether every hand is empty.
    pub fn all_players_done(&self) -> (r: bool)
        ensures
            r == forall|k: int| 0 <= k < self.nplayers() ==> (#[trigger] self.players@[k]).hand@.len() == 0,
    {
        let mut i: usize = 0;
        while i < self.players.len()
            invariant
                0 <= i <= self.players@.len(),
                forall|k: int| 0 <= k < i ==> (#[trigger] self.players@[k]).hand@.len() == 0,
            decreases self.players.len() - i,
        {
            if self.players[i].hand.ncards() != 0 {
                return false;
            }
            i = i + 1;
        }
        true
    }

    /// Every part of the game but the table, the hands and the captures is unchanged.
    pub open spec fn same_frame(&self, other: &Game) -> bool {
        &&& self.main_deck == other.main_deck
        &&& self.state == other.state
        &&& self.first_player == other.first_player
        &&& self.initst_opt == other.initst_opt
        &&& self.players@.len() == other.players@.len()
        &&& self.teams@.len() == other.teams@.len()
    }

    /// Adds captured cards to the team of `tpos`; they count as a xeri when the table
    /// is empty.
    fn update_captures(&mut self, tpos: PlayerTpos, captured: Vec<Card>)
        requires
            team_of(tpos) < old(self).teams@.len(),
            captured@.len() > 0,
        ensures
            final(self).table == old(self).table && final(self).players == old(self).players,
            final(self).same_frame(old(self)),
            final(self).last_action == old(self).last_action,
            teams_ms(final(self).teams@) == teams_ms(old(self).teams@).add(captured@.to_multiset()),
            final(self).last_team_captured == team_of(tpos),
            final(self).teams@[team_of(tpos)].captures.0@ == old(self).teams@[team_of(tpos)].captures.0@ + tagged(
                captured@,
                old(self).table@.len() == 0,
            ),
            final(self).teams@[team_of(tpos)].score == old(self).teams@[team_of(tpos)].score,
            forall|j: int| 0 <= j < old(self).teams@.len() && j != team_of(tpos) ==> #[trigger] final(self).teams@[j]
                == old(self).teams@[j],
    {
        let idx = (tpos.0 % 2) as usize;
        let is_xeri = self.table.nentries() == 0;
        let ghost cs = captured@;
        let mut t = self.teams[idx].duplicate();
        let ghost before = t.captures.0@;
        t.captures.add_cards_(captured, is_xeri);
        let ghost old_teams = self.teams@;
        self.teams.set(idx, t);
        proof {
            lemma_teams_ms_update(old_teams, idx as int, t);
            lemma_tagged_ms(cs, is_xeri);
            lemma_captures_ms_concat(before, tagged(cs, is_xeri));
            let a = teams_ms(self.teams@);
            let b = teams_ms(old_teams);
            let xk = captures_ms(before);
            assert(a.add(xk) == b.add(xk.add(cs.to_multiset())));
            assert forall|x: Card| #[trigger] a.count(x) == b.add(cs.to_multiset()).count(x) by {
                assert(a.add(xk).count(x) == b.add(xk.add(cs.to_multiset())).count(x));
            }
            assert(a =~= b.add(cs.to_multiset()));
        }
        self.last_team_captured = idx;
    }

    fn do_apply_capture_action(&mut self, tpos: PlayerTpos, ca: CaptureAction) -> (r: Result<
        PerformedAction,
        String,
    >)
        requires
            tpos.0 < old(self).nplayers(),
            old(self).wf(),
        ensures
            r is Ok ==> final(self).ms() == old(self).ms(),
            r is Ok ==> final(self).same_frame(old(self)),
            r is Ok ==> final(self).last_team_captured < final(self).teams@.len(),
            r is Ok && !ca.handcard.rank.is_figure_spec() ==> forall|i: int|
                0 <= i < final(self).table@.len() ==> (#[trigger] final(self).table@[i]).value() != ca.handcard.rank.0,
            r is Ok ==> r->Ok_0.player == tpos,
            r is Ok ==> old(self).capture_done(tpos, ca, *final(self), r->Ok_0),
            (old(self).hand(tpos).contains(ca.handcard) && targets_present(ca.ee(), old(self).table@)) ==> r is Ok,
    {
        let ghost ee = ca.ee();
        let ghost ok = targets_present(ee, old(self).table@);
        let ghost mut pending = groups_entries_from(ee, 0);
        let mut captured: Vec<Card> = Vec::new();
        let hand_card = match self.remove_player_card(tpos, &ca.handcard) {
            Some(c) => c,
            None => return Err("Hand card does not exist".to_string()),
        };
        captured.push(hand_card);
        let ghost hc = hand_card;
        let ghost tbl0 = self.table@;
        let ghost after_hand = *self;
        proof {
            assert(captured@ =~= seq![hc] + cards_of(flat_targets(ee.subrange(0, 0))));
            assert(self.table@ == remove_each(tbl0, flat_targets(ee.subrange(0, 0))));
        }
        let ghost mut taken: Multiset<Card> = Multiset::empty();
        proof {
            broadcast use vstd::seq_lib::group_to_multiset_ensures;
            assert(captured@ =~= Seq::<Card>::empty().push(hc));
            assert(captured@.to_multiset() =~= taken.insert(hc));
            assert(old(self).table.ms() =~= self.table.ms().add(taken));
        }
        let mut i: usize = 0;
        while i < ca.tentries.len()
            invariant
                ee == ca.ee(),
                self.same_frame(old(self)),
                self.teams == old(self).teams,
                self.last_team_captured == old(self).last_team_captured,
                hands_ms(old(self).players@) == hands_ms(self.players@).insert(hc),
                old(self).table.ms() == self.table.ms().add(taken),
                captured@.to_multiset() == taken.insert(hc),
                captured@.len() > 0,
                0 <= i <= ca.tentries@.len(),
                pending == groups_entries_from(ee, i as int),
                ok == targets_present(ee, old(self).table@),
                ok ==> pending.subset_of(self.table@.to_multiset()),
                tbl0 == old(self).table@,
                hc == ca.handcard,
                self.players == after_hand.players,
                self.table@ == remove_each(tbl0, flat_targets(ee.subrange(0, i as int))),
                captured@ == seq![hc] + cards_of(flat_targets(ee.subrange(0, i as int))),
            decreases ca.tentries.len() - i,
        {
            let g = &ca.tentries[i];
            let ghost gv = entries_view(g@);
            assert(ee[i as int] == gv);
            assert(gv.subrange(0, gv.len() as int) =~= gv);
            assert(flat_targets(ee.subrange(0, i as int)) + gv.subrange(0, 0) =~= flat_targets(ee.subrange(0, i as int)));
            let mut j: usize = 0;
            while j < g.len()
                invariant
                    ee == ca.ee(),
                    gv == entries_view(g@),
                    ee[i as int] == gv,
                    0 <= i < ee.len(),
                    self.same_frame(old(self)),
                    self.teams == old(self).teams,
                    self.last_team_captured == old(self).last_team_captured,
                    hands_ms(old(self).players@) == hands_ms(self.players@).insert(hc),
                    old(self).table.ms() == self.table.ms().add(taken),
                    captured@.to_multiset() == taken.insert(hc),
                    captured@.len() > 0,
                    0 <= j <= g@.len(),
                    pending == gv.subrange(j as int, gv.len() as int).to_multiset().add(groups_entries_from(ee, i + 1)),
                    ok == targets_present(ee, old(self).table@),
                    ok ==> pending.subset_of(self.table@.to_multiset()),
                    tbl0 == old(self).table@,
                    hc == ca.handcard,
                    self.players == after_hand.players,
                    self.table@ == remove_each(tbl0, flat_targets(ee.subrange(0, i as int)) + gv.subrange(0, j as int)),
                    captured@ == seq![hc] + cards_of(flat_targets(ee.subrange(0, i as int)) + gv.subrange(0, j as int)),
                decreases g.len() - j,
            {
                let ghost e = gv[j as int];
                let ghost pre = flat_targets(ee.subrange(0, i as int)) + gv.subrange(0, j as int);
                let ghost pre2 = flat_targets(ee.subrange(0, i as int)) + gv.subrange(0, j + 1);
                proof {
                    assert(pre2 =~= pre.push(e));
                    assert(pre2.drop_last() =~= pre);
                }
                let ghost rest = gv.subrange(j + 1, gv.len() as int).to_multiset().add(groups_entries_from(ee, i + 1));
                proof {
                    assert(e == g@[j as int]@);
                    lemma_subrange_ms_step(gv, j as int);
                    assert(pending =~= rest.insert(e));
                }
                let ghost tv0 = self.table@;
                match &g[j] {
                    TableEntry::Card(c) => {
                        let ghost t0 = self.table.ms();
                        proof {
                            assert(e == EntryView::Card(*c));
                            if ok {
                                lemma_present_contains(rest, tv0, e);
                            }
                        }
                        let table_card = match self.remove_table_card(c) {
                            Some(x) => x,
                            None => {
                                return Err("Table card does not exist".to_string());
                            },
                        };
                        proof {
                            if ok {
                                let k = choose|k: int| 0 <= k < tv0.len() && tv0[k] == EntryView::Card(*c) && self.table@ == tv0.remove(k);
                                lemma_pending_remove(rest, tv0, k, e);
                            }
                            pending = rest;
                        }
                        proof {
                            assert(remove_each(tbl0, pre2) == remove_first(remove_each(tbl0, pre), e));
                        }
                        let ghost cap0 = captured@;
                        captured.push(table_card);
                        proof {
                            assert(captured@ =~= cap0 + entry_cards(e));
                            assert(cards_of(pre2) == cards_of(pre) + entry_cards(e));
                            assert(captured@ =~= seq![hc] + cards_of(pre2));
                        }
                        proof {
                            broadcast use vstd::seq_lib::group_to_multiset_ensures;
                            assert(t0 == self.table.ms().insert(table_card));
                            assert(old(self).table.ms() =~= self.table.ms().add(taken.insert(table_card)));
                            taken = taken.insert(table_card);
                            assert(captured@.to_multiset() =~= taken.insert(hc));
                        }
                    },
                    TableEntry::Decl(d) => {
                        proof {
                            assert(e == EntryView::Decl(d@));
                            if ok {
                                lemma_present_contains(rest, tv0, e);
                            }
                        }
                        let table_decl = match self.remove_table_decl(d) {
                            Some(x) => x,
                            None => return Err("Table declaration does not exist".to_string()),
                        };
                        proof {
                            if ok {
                                let k = choose|k: int| 0 <= k < tv0.len() && tv0[k] == EntryView::Decl(d@) && self.table@ == tv0.remove(k);
                                lemma_pending_remove(rest, tv0, k, e);
                            }
                            pending = rest;
                        }
                        let ghost gm = crate::table::groups_ms(d@.groups);
                        let ghost cap0 = captured@;
                        append_groups(&mut captured, &table_decl.cards);
                        proof {
                            assert(remove_each(tbl0, pre2) == remove_first(remove_each(tbl0, pre), e));
                            assert(vv_view(table_decl.cards) == d@.groups);
                            assert(cards_of(pre2) == cards_of(pre) + entry_cards(e));
                            assert(captured@ =~= seq![hc] + cards_of(pre2));
                            assert(old(self).table.ms() =~= self.table.ms().add(taken.add(gm)));
                            taken = taken.add(gm);
                            assert(captured@.to_multiset() =~= taken.insert(hc));
                        }
                    },
                }
                j = j + 1;
            }
            proof {
                assert(gv.subrange(gv.len() as int, gv.len() as int).to_multiset() =~= Multiset::<EntryView>::empty()) by {
                    broadcast use vstd::seq_lib::group_to_multiset_ensures;
                }
                assert(pending =~= groups_entries_from(ee, i + 1));
                assert(ee.subrange(0, i + 1).drop_last() =~= ee.subrange(0, i as int));
                assert(ee.subrange(0, i + 1).last() == gv);
                assert(flat_targets(ee.subrange(0, i as int)) + gv.subrange(0, gv.len() as int) =~= flat_targets(
                    ee.subrange(0, i + 1)));
            }
            i = i + 1;
        }
        let val = ca.value();
        let ghost t1 = self.table@;
        let ghost c1 = captured@;
        proof {
            assert(ee.subrange(0, ee.len() as int) =~= ee);
            assert(t1 == capture_taken(tbl0, ca));
            assert(c1 == seq![hc] + cards_of(flat_targets(ee)));
        }
        let mut forced_cards: Vec<Card> = Vec::new();
        proof {
            assert(forced_cards@ + swept(self.table@, val) =~= swept(t1, val));
            assert(captured@ =~= c1 + forced_cards@);
        }
        if !ca.handcard.rank.is_figure() {
            let mut done = false;
            while !done
                invariant
                    self.same_frame(old(self)),
                    self.teams == old(self).teams,
                    self.last_team_captured == old(self).last_team_captured,
                    hands_ms(old(self).players@) == hands_ms(self.players@).insert(hc),
                    old(self).table.ms() == self.table.ms().add(taken),
                    captured@.to_multiset() == taken.insert(hc),
                    captured@.len() > 0,
                    done ==> forall|k: int| 0 <= k < self.table@.len() ==> (#[trigger] self.table@[k]).value() != val,
                    keep_not(self.table@, val) == keep_not(t1, val),
                    forced_cards@ + swept(self.table@, val) == swept(t1, val),
                    captured@ == c1 + forced_cards@,
                    self.players == after_hand.players,
                decreases self.table@.len() + if done { 0int } else { 1int },
            {
                let ghost tb = self.table@;
                let ghost f0 = forced_cards@;
                let ghost cp0 = captured@;
                match self.table.remove_entry_with_value(val) {
                    Some(te) => {
                        proof {
                            let k = choose|k: int| 0 <= k < tb.len() && tb[k] == te@ && self.table@ == tb.remove(k)
                                && forall|j: int| 0 <= j < k ==> (#[trigger] tb[j]).value() != val;
                            crate::table::lemma_sweep_step(tb, val, k);
                        }
                        let ghost em = te@.ms();
                        match te {
                            TableEntry::Card(c) => {
                                forced_cards.push(c);
                                captured.push(c);
                                proof {
                                    assert(forced_cards@ =~= f0 + entry_cards(te@));
                                    assert(forced_cards@ + swept(self.table@, val) =~= swept(t1, val));
                                    assert(captured@ =~= c1 + forced_cards@);
                                    broadcast use vstd::seq_lib::group_to_multiset_ensures;
                                    assert(em == Multiset::singleton(c));
                                    assert(old(self).table.ms() =~= self.table.ms().add(taken.insert(c)));
                                    taken = taken.insert(c);
                                    assert(captured@.to_multiset() =~= taken.insert(hc));
                                }
                            },
                            TableEntry::Decl(d) => {
                                append_groups(&mut forced_cards, &d.cards);
                                append_groups(&mut captured, &d.cards);
                                proof {
                                    assert(te@ == EntryView::Decl(d@));
                                    assert(forced_cards@ =~= f0 + entry_cards(te@));
                                    assert(forced_cards@ + swept(self.table@, val) =~= swept(t1, val));
                                    assert(captured@ =~= c1 + forced_cards@);
                                    assert(old(self).table.ms() =~= self.table.ms().add(taken.add(em)));
                                    taken = taken.add(em);
                                    assert(captured@.to_multiset() =~= taken.insert(hc));
                                }
                            },
                        }
                    },
                    None => {
                        done = true;
                    },
                }
            }
            proof {
                crate::table::lemma_sweep_none(self.table@, val);
                assert(forced_cards@ =~= swept(t1, val));
            }
        }
        proof {
            assert(self.table@ == capture_rest(tbl0, ca));
            assert(forced_cards@ == capture_forced(tbl0, ca));
            assert(captured@ == capture_cards(tbl0, ca));
        }
        let ghost before_credit = *self;
        self.update_captures(tpos, captured);
        proof {
            assert(self.ms() =~= old(self).ms());
        }
        let xeri = self.table.nentries() == 0;
        proof {
            assert(self.hand(tpos) == after_hand.hand(tpos));
        }
        Ok(PerformedAction {
            action: PlayerAction::Capture(ca),
            player: tpos,
            forced_cards: forced_cards,
            xeri: xeri,
        })
    }

    /// Sweeps every loose table card of the declared value into the declaration, one
    /// group each.
    fn decl_enforce_obligations(&mut self, da: &DeclAction, decl_cards: &mut Vec<Vec<Card>>) -> (r: Vec<
        Card,
    >)
        requires
            da.ee().len() > 0,
        ensures
            final(self).players == old(self).players && final(self).teams == old(self).teams,
            final(self).same_frame(old(self)),
            final(self).last_team_captured == old(self).last_team_captured,
            old(self).table.ms() == final(self).table.ms().add(r@.to_multiset()),
            crate::table::groups_ms(vv_view(*final(decl_cards))) == crate::table::groups_ms(
                vv_view(*old(decl_cards)),
            ).add(r@.to_multiset()),
            forall|i: int|
                0 <= i < final(self).table@.len() ==> !((#[trigger] final(self).table@[i]) is Card
                    && final(self).table@[i].value() == decl_value(da.ee())),
            final(self).table@ == keep_not_loose(old(self).table@, decl_value(da.ee())),
            r@ == loose_of(old(self).table@, decl_value(da.ee())),
            vv_view(*final(decl_cards)) == vv_view(*old(decl_cards)) + singles(r@),
    {
        let mut ret: Vec<Card> = Vec::new();
        let val = da.value();
        let mut done = false;
        proof {
            broadcast use vstd::seq_lib::group_to_multiset_ensures;
            assert(ret@.to_multiset() =~= Multiset::<Card>::empty());
            assert(ret@ + loose_of(self.table@, val) =~= loose_of(old(self).table@, val));
            assert(vv_view(*decl_cards) =~= vv_view(*old(decl_cards)) + singles(ret@));
            assert(old(self).table.ms() =~= self.table.ms().add(ret@.to_multiset()));
            assert(crate::table::groups_ms(vv_view(*decl_cards)) =~= crate::table::groups_ms(
                vv_view(*old(decl_cards))).add(ret@.to_multiset()));
        }
        while !done
            invariant
                self.players == old(self).players && self.teams == old(self).teams,
                self.same_frame(old(self)),
                self.last_team_captured == old(self).last_team_captured,
                val == decl_value(da.ee()),
                old(self).table.ms() == self.table.ms().add(ret@.to_multiset()),
                crate::table::groups_ms(vv_view(*decl_cards)) == crate::table::groups_ms(
                    vv_view(*old(decl_cards)),
                ).add(ret@.to_multiset()),
                done ==> forall|i: int|
                    0 <= i < self.table@.len() ==> !((#[trigger] self.table@[i]) is Card
                        && self.table@[i].value() == val),
                keep_not_loose(self.table@, val) == keep_not_loose(old(self).table@, val),
                ret@ + loose_of(self.table@, val) == loose_of(old(self).table@, val),
                vv_view(*decl_cards) == vv_view(*old(decl_cards)) + singles(ret@),
            decreases self.table@.len() + if done { 0int } else { 1int },
        {
            let ghost tb = self.table@;
            match self.table.remove_card_with_value(val) {
                Some(card) => {
                    proof {
                        let k = choose|k: int| 0 <= k < tb.len() && tb[k] == EntryView::Card(card) && self.table@ == tb.remove(k)
                            && forall|j: int| 0 <= j < k ==> !((#[trigger] tb[j]) is Card && tb[j].value() == val);
                        crate::table::lemma_loose_step(tb, val, k);
                    }
                    let ghost r0 = ret@;
                    let ghost d0 = vv_view(*decl_cards);
                    ret.push(card);
                    let mut g: Vec<Card> = Vec::new();
                    g.push(card);
                    let ghost old_dc = decl_cards@;
                    decl_cards.push(g);
                    proof {
                        broadcast use vstd::seq_lib::group_to_multiset_ensures;
                        assert(decl_cards@ == old_dc.push(g));
                        assert(vv_view(*decl_cards) =~= d0.push(g@));
                        crate::table::lemma_groups_ms_push(d0, g@);
                        assert(g@ =~= Seq::<Card>::empty().push(card));
                        assert(g@.to_multiset() =~= Multiset::<Card>::empty().insert(card));
                        assert(ret@.to_multiset() == r0.to_multiset().insert(card));
                        assert(old(self).table.ms() =~= self.table.ms().add(ret@.to_multiset()));
                        assert(crate::table::groups_ms(vv_view(*decl_cards)) =~= crate::table::groups_ms(
                            vv_view(*old(decl_cards))).add(ret@.to_multiset()));
                        assert(ret@ + loose_of(self.table@, val) =~= loose_of(old(self).table@, val));
                        assert(singles(ret@) =~= singles(r0).push(g@));
                        assert(vv_view(*decl_cards) =~= vv_view(*old(decl_cards)) + singles(ret@));
                    }
                },
                None => {
                    done = true;
                },
            }
        }
        proof {
            crate::table::lemma_loose_none(self.table@, val);
            assert(ret@ =~= loose_of(old(self).table@, val));
        }
        ret
    }

    fn do_apply_decl_action(&mut self, tpos: PlayerTpos, da: DeclAction) -> (r: Result<PerformedAction, String>)
        requires
            tpos.0 < old(self).nplayers(),
            old(self).wf(),
            da.ee().len() > 0 && da.ee()[0].len() > 0 && da.ee()[0][0] is Card,
        ensures
            r is Ok ==> final(self).ms() == old(self).ms(),
            r is Ok ==> final(self).same_frame(old(self)),
            r is Ok ==> final(self).last_team_captured == old(self).last_team_captured,
            r is Ok ==> forall|i: int|
                0 <= i < final(self).table@.len() ==> !((#[trigger] final(self).table@[i]) is Card
                    && final(self).table@[i].value() == decl_value(da.ee())),
            r is Ok ==> final(self).table@.len() > 0 && final(self).table@.last() is Decl
                && final(self).table@.last()->Decl_0.player == tpos,
            r is Ok ==> r->Ok_0.player == tpos,
            (old(self).hand(tpos).contains(da.ee()[0][0]->Card_0) && decl_targets(da.ee()).subset_of(
                old(self).table@.to_multiset(),
            ) && decl_shape_ok(da.ee())) ==> r is Ok,
            r is Ok ==> old(self).decl_done(tpos, da, *final(self), r->Ok_0),
    {
        let ghost ee = da.ee();
        let ghost ok = decl_targets(ee).subset_of(old(self).table@.to_multiset()) && decl_shape_ok(ee);
        let ghost mut pending = decl_targets(ee);
        let mut decl_cards: Vec<Vec<Card>> = Vec::new();
        let ghost orig = hands_ms(old(self).players@).add(old(self).table.ms());
        assert(ee[0] == entries_view(da.tentries@[0]@));
        assert(ee[0][0] == da.tentries@[0]@[0]@);
        let hc = match &da.tentries[0][0] {
            TableEntry::Card(c) => *c,
            TableEntry::Decl(_) => return Err("Invalid declaration".to_string()),
        };
        let hand_card = match self.remove_player_card(tpos, &hc) {
            Some(x) => x,
            None => return Err("Hand card does not exist".to_string()),
        };
        let ghost tbl0 = self.table@;
        let ghost after_hand = *self;
        proof {
            assert(crate::table::groups_ms(vv_view(decl_cards)) == Multiset::<Card>::empty());
            assert(ee.subrange(0, 0) =~= Seq::<Seq<EntryView>>::empty());
            assert(vv_view(decl_cards) =~= decl_groups(ee.subrange(0, 0)));
        }
        let mut i: usize = 0;
        while i < da.tentries.len()
            invariant
                ee == da.ee(),
                ee.len() > 0 && ee[0].len() > 0 && ee[0][0] is Card,
                self.same_frame(old(self)),
                self.teams == old(self).teams,
                self.last_team_captured == old(self).last_team_captured,
                orig == hands_ms(self.players@).add(self.table.ms()).add(
                    crate::table::groups_ms(vv_view(decl_cards))).add(if i == 0 { Multiset::singleton(hand_card) } else { Multiset::empty() }),
                0 <= i <= da.tentries@.len(),
                ok == (decl_targets(ee).subset_of(old(self).table@.to_multiset()) && decl_shape_ok(ee)),
                pending == if i == 0 { decl_targets(ee) } else { groups_entries_from(ee, i as int) },
                ok ==> pending.subset_of(self.table@.to_multiset()),
                tbl0 == old(self).table@,
                hand_card == ee[0][0]->Card_0,
                self.players == after_hand.players,
                self.table@ == if i == 0 { tbl0 } else { remove_each(tbl0, flat_targets(ee.subrange(0, i as int)).drop_first()) },
                vv_view(decl_cards) == decl_groups(ee.subrange(0, i as int)),
            decreases da.tentries.len() - i,
        {
            let g = &da.tentries[i];
            let g_len = g.len();
            let ghost gv = entries_view(g@);
            assert(ee[i as int] == gv);
            let mut cards_v: Vec<Card> = Vec::new();
            let mut j: usize = 0;
            proof {
                broadcast use vstd::seq_lib::group_to_multiset_ensures;
                assert(cards_v@.to_multiset() =~= Multiset::<Card>::empty());
                assert(gv.subrange(0, gv.len() as int) =~= gv);
            }
            if i == 0 {
                cards_v.push(hand_card);
                j = 1;
                proof {
                    broadcast use vstd::seq_lib::group_to_multiset_ensures;
                    assert(cards_v@ =~= Seq::<Card>::empty().push(hand_card));
                    assert(cards_v@.to_multiset() =~= Multiset::singleton(hand_card));
                }
            }
            proof {
                if i > 0 {
                    lemma_flat_nonempty(ee, i as int);
                }
                assert(flat_targets(ee.subrange(0, i as int)) + gv.subrange(0, 0) =~= flat_targets(ee.subrange(0, i as int)));
                if i == 0 {
                    assert(ee.subrange(0, 0) =~= Seq::<Seq<EntryView>>::empty());
                    assert(flat_targets(ee.subrange(0, 0)) + gv.subrange(0, 1) =~= seq![gv[0]]);
                    assert(seq![gv[0]].drop_first() =~= Seq::<EntryView>::empty());
                    assert(ee[0][0] == EntryView::Card(ee[0][0]->Card_0));
                    assert(gv[0] == EntryView::Card(hand_card));
                    assert(gv.subrange(0, 1) =~= seq![gv[0]]);
                    let s1 = gv.subrange(0, 1);
                    assert(s1.drop_last() =~= Seq::<EntryView>::empty());
                    assert(s1.last() == gv[0]);
                    assert(cards_of(s1.drop_last()) == Seq::<Card>::empty());
                    assert(entry_cards(gv[0]) == seq![hand_card]);
                    assert(cards_v@ =~= cards_of(gv.subrange(0, 1)));
                } else {
                    assert(cards_v@ =~= cards_of(gv.subrange(0, 0)));
                }
                assert(orig =~= hands_ms(self.players@).add(self.table.ms()).add(
                    crate::table::groups_ms(vv_view(decl_cards))).add(cards_v@.to_multiset()));
            }
            while j < g_len
                invariant
                    ee == da.ee(),
                    g_len == g@.len(),
                    gv == entries_view(g@),
                    ee[i as int] == gv,
                    0 <= i < ee.len(),
                    self.same_frame(old(self)),
                    self.teams == old(self).teams,
                    self.last_team_captured == old(self).last_team_captured,
                    orig == hands_ms(self.players@).add(self.table.ms()).add(
                        crate::table::groups_ms(vv_view(decl_cards))).add(cards_v@.to_multiset()),
                    0 <= j <= g_len,
                    i == 0 ==> j >= 1,
                    j > 0 || cards_v@.len() == 0,
                    ok == (decl_targets(ee).subset_of(old(self).table@.to_multiset()) && decl_shape_ok(ee)),
                    pending == gv.subrange(j as int, gv.len() as int).to_multiset().add(groups_entries_from(ee, i + 1)),
                    ok ==> pending.subset_of(self.table@.to_multiset()),
                    tbl0 == old(self).table@,
                    ee.len() > 0 && ee[0].len() > 0 && ee[0][0] is Card,
                    hand_card == ee[0][0]->Card_0,
                    self.players == after_hand.players,
                    (flat_targets(ee.subrange(0, i as int)) + gv.subrange(0, j as int)).len() > 0,
                    self.table@ == remove_each(tbl0, (flat_targets(ee.subrange(0, i as int)) + gv.subrange(0, j as int)).drop_first()),
                    (vv_view(decl_cards) == decl_groups(ee.subrange(0, i as int)) && cards_v@ == cards_of(gv.subrange(0, j as int))
                        && !(j >= 1 && is_group_decl(gv[0]))) || (j == g_len && g_len == 1 && is_group_decl(gv[0])
                        && vv_view(decl_cards) == decl_groups(ee.subrange(0, i as int)) + gv[0]->Decl_0.groups
                        && cards_v@.len() == 0),
                decreases g_len - j,
            {
                let ghost pre = flat_targets(ee.subrange(0, i as int)) + gv.subrange(0, j as int);
                let ghost pre2 = flat_targets(ee.subrange(0, i as int)) + gv.subrange(0, j + 1);
                proof {
                    assert(pre2 =~= pre.push(gv[j as int]));
                    assert(pre2.drop_first() =~= pre.drop_first().push(gv[j as int]));
                    assert(pre2.drop_first().drop_last() =~= pre.drop_first());
                    assert(gv.subrange(0, j + 1).drop_last() =~= gv.subrange(0, j as int));
                }
                let ghost h0 = hands_ms(self.players@);
                let ghost t0 = self.table.ms();
                let ghost cv0 = cards_v@;
                let ghost dm = crate::table::groups_ms(vv_view(decl_cards));
                let ghost e = gv[j as int];
                let ghost rest = gv.subrange(j + 1, gv.len() as int).to_multiset().add(groups_entries_from(ee, i + 1));
                let ghost tv0 = self.table@;
                proof {
                    assert(e == g@[j as int]@);
                    lemma_subrange_ms_step(gv, j as int);
                    assert(pending =~= rest.insert(e));
                }
                match &g[j] {
                    TableEntry::Card(c) => {
                        proof {
                            assert(e == EntryView::Card(*c));
                            if ok {
                                lemma_present_contains(rest, tv0, e);
                            }
                        }
                        let table_card = match self.remove_table_card(c) {
                            Some(x) => x,
                            None => return Err("Table card does not exist".to_string()),
                        };
                        let ghost cvs = cards_v@;
                        cards_v.push(table_card);
                        proof {
                            assert(cards_v@ =~= cvs + entry_cards(e));
                            if j == 0 {
                                assert(gv[0] == e);
                            }
                        }
                        proof {
                            broadcast use vstd::seq_lib::group_to_multiset_ensures;
                            if ok {
                                let k = choose|k: int| 0 <= k < tv0.len() && tv0[k] == EntryView::Card(*c) && self.table@ == tv0.remove(k);
                                lemma_pending_remove(rest, tv0, k, e);
                            }
                            pending = rest;
                            assert(t0 == self.table.ms().insert(table_card));
                            assert(orig =~= hands_ms(self.players@).add(self.table.ms()).add(dm).add(
                                cards_v@.to_multiset()));
                        }
                        j = j + 1;
                    },
                    TableEntry::Decl(d) => {
                        proof {
                            assert(e == EntryView::Decl(d@));
                        }
                        if d.is_plain() {
                            proof {
                                if ok {
                                    lemma_present_contains(rest, tv0, e);
                                }
                            }
                            let decl = match self.remove_table_decl(d) {
                                Some(x) => x,
                                None => return Err("Table declaration does not exist".to_string()),
                            };
                            proof {
                                if ok {
                                    let k = choose|k: int| 0 <= k < tv0.len() && tv0[k] == EntryView::Decl(d@) && self.table@ == tv0.remove(k);
                                    lemma_pending_remove(rest, tv0, k, e);
                                }
                                pending = rest;
                            }
                            let ghost dg = decl@.groups;
                            let (dcards, _) = decl.into_inner();
                            let ghost cvs = cards_v@;
                            crate::table::append_cards(&mut cards_v, &dcards[0]);
                            proof {
                                assert(dg == d@.groups);
                                assert(dg.len() == 1);
                                assert(dg.drop_last() =~= Seq::<Seq<Card>>::empty());
                                assert(crate::table::flat_groups(dg.drop_last()) == Seq::<Card>::empty());
                                assert(dg.last() == dg[0]);
                                assert(crate::table::flat_groups(dg) =~= dg[0]);
                                assert(cards_v@ =~= cvs + entry_cards(e));
                                if j == 0 {
                                    assert(gv[0] == e);
                                }
                                crate::table::lemma_groups_ms_single(dg);
                                assert(dg[0] == dcards@[0]@);
                                vstd::seq_lib::lemma_multiset_commutative(cv0, dcards@[0]@);
                                assert(orig =~= hands_ms(self.players@).add(self.table.ms()).add(dm).add(
                                    cards_v@.to_multiset()));
                            }
                            j = j + 1;
                        } else if j == 0 && d.is_group() {
                            if g_len != 1 {
                                return Err(
                                    "Invalid declaration: group declaration cannot be combined with other cards".to_string(),
                                );
                            }
                            proof {
                                if ok {
                                    lemma_present_contains(rest, tv0, e);
                                }
                            }
                            let decl = match self.remove_table_decl(d) {
                                Some(x) => x,
                                None => return Err("Table declaration does not exist".to_string()),
                            };
                            proof {
                                if ok {
                                    let k = choose|k: int| 0 <= k < tv0.len() && tv0[k] == EntryView::Decl(d@) && self.table@ == tv0.remove(k);
                                    lemma_pending_remove(rest, tv0, k, e);
                                }
                                pending = rest;
                            }
                            let ghost d0 = vv_view(decl_cards);
                            let ghost dgs = decl@.groups;
                            let (cvv, _) = decl.into_inner();
                            crate::table::extend_groups(&mut decl_cards, &cvv);
                            proof {
                                assert(gv[0] == e);
                                assert(dgs == d@.groups);
                                assert(vv_view(cvv) == dgs);
                                assert(gv.subrange(0, 1) =~= gv);
                                crate::table::lemma_groups_ms_concat(d0, vv_view(cvv));
                                assert(orig =~= hands_ms(self.players@).add(self.table.ms()).add(
                                    crate::table::groups_ms(vv_view(decl_cards))).add(cards_v@.to_multiset()));
                            }
                            j = g_len;
                        } else {
                            return Err("Invalid declaration".to_string());
                        }
                    },
                }
            }
            if cards_v.len() > 0 {
                let ghost d0 = vv_view(decl_cards);
                let ghost old_dc = decl_cards@;
                let ghost cvv = cards_v@;
                decl_cards.push(cards_v);
                proof {
                    assert(decl_cards@ == old_dc.push(cards_v));
                    assert(vv_view(decl_cards) =~= d0.push(cvv));
                    assert(gv.subrange(0, gv.len() as int) =~= gv);
                    assert(group_part(gv) =~= seq![cvv]);
                    assert(vv_view(decl_cards) =~= decl_groups(ee.subrange(0, i as int)) + group_part(gv));
                    crate::table::lemma_groups_ms_push(d0, cvv);
                    assert(orig =~= hands_ms(self.players@).add(self.table.ms()).add(
                        crate::table::groups_ms(vv_view(decl_cards))).add(Multiset::empty()));
                }
            } else {
                proof {
                    broadcast use vstd::seq_lib::group_to_multiset_ensures;
                    assert(orig =~= hands_ms(self.players@).add(self.table.ms()).add(
                        crate::table::groups_ms(vv_view(decl_cards))).add(Multiset::empty()));
                    assert(gv.subrange(0, gv.len() as int) =~= gv);
                    if g_len == 1 && is_group_decl(gv[0]) {
                        assert(vv_view(decl_cards) =~= decl_groups(ee.subrange(0, i as int)) + group_part(gv));
                    } else {
                        assert(group_part(gv) =~= Seq::<Seq<Card>>::empty());
                        assert(vv_view(decl_cards) =~= decl_groups(ee.subrange(0, i as int)) + group_part(gv));
                    }
                }
            }
            proof {
                assert(gv.subrange(gv.len() as int, gv.len() as int).to_multiset() =~= Multiset::<EntryView>::empty()) by {
                    broadcast use vstd::seq_lib::group_to_multiset_ensures;
                }
                assert(pending =~= groups_entries_from(ee, i + 1));
                assert(ee.subrange(0, i + 1).drop_last() =~= ee.subrange(0, i as int));
                assert(ee.subrange(0, i + 1).last() == gv);
                assert(flat_targets(ee.subrange(0, i as int)) + gv.subrange(0, gv.len() as int) =~= flat_targets(
                    ee.subrange(0, i + 1)));
                assert(vv_view(decl_cards) == decl_groups(ee.subrange(0, i + 1)));
            }
            i = i + 1;
        }
        proof {
            assert(da.tentries@.len() > 0);
            assert(ee.subrange(0, ee.len() as int) =~= ee);
            assert(self.table@ == decl_taken(tbl0, da));
            assert(orig =~= hands_ms(self.players@).add(self.table.ms()).add(
                crate::table::groups_ms(vv_view(decl_cards))));
        }
        let forced_cards = self.decl_enforce_obligations(&da, &mut decl_cards);
        proof {
            assert(orig =~= hands_ms(self.players@).add(self.table.ms()).add(
                crate::table::groups_ms(vv_view(decl_cards))));
        }
        proof {
            assert(vv_view(decl_cards) == decl_groups(ee) + singles(forced_cards@));
            assert(self.table@ == decl_rest(tbl0, da));
            assert(forced_cards@ == decl_absorbed(tbl0, da));
        }
        let decl = Declaration { cards: decl_cards, player: tpos };
        self.add_table_decl(decl);
        proof {
            assert(self.hand(tpos) == after_hand.hand(tpos));
            assert(orig =~= hands_ms(self.players@).add(self.table.ms()));
            assert forall|x: Card| #[trigger] self.ms().count(x) == old(self).ms().count(x) by {
                assert(orig.count(x) == hands_ms(self.players@).add(self.table.ms()).count(x));
            }
            assert(self.ms() =~= old(self).ms());
        }
        Ok(PerformedAction {
            action: PlayerAction::Declare(da),
            player: tpos,
            forced_cards: forced_cards,
            xeri: false,
        })
    }

    /// The last team that captured takes the cards left on the table.
    fn finalize_captures(&mut self)
        requires
            old(self).last_team_captured < old(self).teams@.len(),
        ensures
            final(self).players == old(self).players,
            final(self).same_frame(old(self)),
            final(self).last_team_captured == old(self).last_team_captured,
            final(self).last_action == old(self).last_action,
            final(self).table@.len() == 0,
            teams_ms(final(self).teams@) == teams_ms(old(self).teams@).add(old(self).table.ms()),
            forall|j: int|
                0 <= j < old(self).teams@.len() ==> (#[trigger] final(self).teams@[j]).captures.0@ == old(self).final_captures(j)
                    && final(self).teams@[j].score == old(self).teams@[j].score,
    {
        let idx = self.last_team_captured;
        let cards = self.table.remove_all_cards();
        let ghost cs = cards@;
        let mut t = self.teams[idx].duplicate();
        let ghost before = t.captures.0@;
        t.captures.add_final_cards(cards, false);
        let ghost old_teams = self.teams@;
        self.teams.set(idx, t);
        proof {
            lemma_teams_ms_update(old_teams, idx as int, t);
            lemma_tagged_ms(cs, false);
            lemma_captures_ms_concat(before, tagged(cs, false));
            let a = teams_ms(self.teams@);
            let b = teams_ms(old_teams);
            let xk = captures_ms(before);
            assert(a.add(xk) == b.add(xk.add(cs.to_multiset())));
            assert forall|x: Card| #[trigger] a.count(x) == b.add(cs.to_multiset()).count(x) by {
                assert(a.add(xk).count(x) == b.add(xk.add(cs.to_multiset())).count(x));
            }
            assert(a =~= b.add(cs.to_multiset()));
        }
    }

    /// What team `j` holds when the game ends: its captures, and for the last team
    /// that captured also the cards left on the table.
    pub open spec fn final_captures(&self, j: int) -> Seq<crate::scoring::Capture> {
        if j == self.last_team_captured {
            self.teams@[j].captures.0@ + tagged(cards_of(self.table@), false)
        } else {
            self.teams@[j].captures.0@
        }
    }

    /// The end of a game from this state: the table goes to the last team that
    /// captured, each team's captures are scored, each sheet's score is added to the
    /// team's total, and the captures are cleared.
    pub open spec fn game_end(&self, g: Game) -> bool {
        &&& g.state is GameDone && g.table@.len() == 0
        &&& g.players == self.players && g.main_deck == self.main_deck
        &&& g.state->GameDone_0@.len() == self.teams@.len() && g.teams@.len() == self.teams@.len()
        &&& forall|j: int|
            0 <= j < self.teams@.len() ==> ({
                let sh = (#[trigger] g.state->GameDone_0@[j]).0;
                let c = self.final_captures(j);
                &&& sh.score == score_of(c) && sh.nr_cards == c.len()
                &&& sh.nr_xeres == crate::scoring::count_xeres(c) && sh.score_cards@ == crate::scoring::scoring_cards(c)
                &&& g.state->GameDone_0@[j].1 == g.teams@[j].score
                &&& g.teams@[j].score == sat_add(self.teams@[j].score, sh.score)
                &&& g.teams@[j].captures.0@.len() == 0
            })
    }

    /// Passes the turn on. When the next player has no cards the round is done, and
    /// when the main deck is empty too the game is done: the table goes to the last
    /// team that captured and each team's captures are scored.
    fn next_turn(&mut self)
        requires
            old(self).wf(),
            old(self).state is NextTurn,
        ensures
            final(self).wf(),
            final(self).players == old(self).players && final(self).main_deck == old(self).main_deck,
            final(self).first_player == old(self).first_player,
            final(self).last_action == old(self).last_action,
            final(self).teams@.len() == old(self).teams@.len(),
            ({
                let nx = next_seat(old(self).state->NextTurn_0, old(self).nplayers());
                &&& old(self).hand(nx).len() > 0 ==> final(self).state == GameState::NextTurn(nx)
                &&& (old(self).hand(nx).len() == 0 && old(self).main_deck@.len() > 0) ==> final(self).state
                    is RoundDone
                &&& (old(self).hand(nx).len() == 0 && old(self).main_deck@.len() == 0) ==> final(self).state
                    is GameDone
            }),
            !(final(self).state is GameDone) ==> final(self).table == old(self).table && final(self).teams
                == old(self).teams && final(self).last_team_captured == old(self).last_team_captured,
            final(self).state is GameDone ==> final(self).game_done_ok(old(self)),
            final(self).state is GameDone ==> old(self).game_end(*final(self)),
    {
        let curr = match self.state {
            GameState::NextTurn(t) => t,
            _ => {
                return ;
            },
        };
        let nplayers = self.players.len() as u8;
        let next_tpos = PlayerTpos((curr.0 + 1) % nplayers);
        if self.players[next_tpos.0 as usize].hand.ncards() > 0 {
            self.state = GameState::NextTurn(next_tpos);
        } else if self.main_deck.ncards() > 0 {
            self.state = GameState::RoundDone;
        } else {
            self.finalize_captures();
            let ghost ts = self.teams@;
            proof {
                assert(self.ms() =~= old(self).ms());
                assert forall|k: int| 0 <= k < ts.len() implies (#[trigger] ts[k]).captures.0@.len() <= 52 by {
                    lemma_teams_ms_len(ts, k);
                }
            }
            let mut scores: Vec<(ScoreSheet, usize)> = Vec::new();
            let mut k: usize = 0;
            while k < self.teams.len()
                invariant
                    self.teams@.len() == ts.len(),
                    0 <= k <= ts.len(),
                    scores@.len() == k,
                    forall|j: int| 0 <= j < ts.len() ==> (#[trigger] ts[j]).captures.0@.len() <= 52,
                    forall|j: int| k <= j < ts.len() ==> (#[trigger] self.teams@[j]).captures.0@ == ts[j].captures.0@,
                    forall|j: int| 0 <= j < k ==> (#[trigger] self.teams@[j]).captures.0@.len() == 0,
                    forall|j: int|
                        0 <= j < k ==> (#[trigger] scores@[j]).0.score == score_of(ts[j].captures.0@)
                            && scores@[j].1 == self.teams@[j].score,
                    forall|j: int|
                        0 <= j < ts.len() ==> (#[trigger] ts[j]).captures.0@ == old(self).final_captures(j)
                            && ts[j].score == old(self).teams@[j].score,
                    forall|j: int| k <= j < ts.len() ==> (#[trigger] self.teams@[j]).score == ts[j].score,
                    forall|j: int|
                        0 <= j < k ==> ({
                            let sh = (#[trigger] scores@[j]).0;
                            let c = ts[j].captures.0@;
                            &&& sh.nr_cards == c.len() && sh.nr_xeres == crate::scoring::count_xeres(c)
                            &&& sh.score_cards@ == crate::scoring::scoring_cards(c)
                            &&& self.teams@[j].score == sat_add(ts[j].score, sh.score)
                        }),
                    self.players == old(self).players && self.main_deck == old(self).main_deck,
                    self.first_player == old(self).first_player,
                    self.last_action == old(self).last_action,
                    self.last_team_captured == old(self).last_team_captured,
                    self.state == old(self).state,
                    self.initst_opt == old(self).initst_opt,
                    self.table@.len() == 0,
                decreases self.teams.len() - k,
            {
                let mut t = self.teams[k].duplicate();
                let sc = t.update_score();
                self.teams.set(k, t);
                scores.push(sc);
                k = k + 1;
            }
            proof {
                assert(self.teams@.len() == old(self).teams@.len());
                lemma_teams_ms_zero(self.teams@);
                lemma_entries_ms_zero(self.table@);
                assert(self.ms().len() <= old(self).ms().len());
                assert(ts.len() == old(self).teams@.len());
                assert(teams_ms(ts) == teams_ms(old(self).teams@).add(old(self).table.ms()));
            }
            self.state = GameState::GameDone(scores);
        }
        proof {
            if !(self.state is GameDone) {
                assert(self.ms() == old(self).ms());
            }
        }
    }

    /// What holds of a finished game: the table is empty, captures were reset, and
    /// there is one score sheet per team, each the score of what that team captured,
    /// with all the cards that were on the table or captured before.
    pub open spec fn game_done_ok(&self, before: &Game) -> bool {
        &&& self.state is GameDone
        &&& self.table@.len() == 0
        &&& self.state->GameDone_0@.len() == self.teams@.len()
        &&& forall|j: int| 0 <= j < self.teams@.len() ==> (#[trigger] self.teams@[j]).captures.0@.len() == 0
        &&& exists|ts: Seq<Team>|
            {
                &&& ts.len() == self.teams@.len()
                &&& #[trigger] teams_ms(ts) == teams_ms(before.teams@).add(before.table.ms())
                &&& forall|j: int|
                    0 <= j < ts.len() ==> (#[trigger] self.state->GameDone_0@[j]).0.score == score_of(
                        ts[j].captures.0@,
                    ) && self.state->GameDone_0@[j].1 == self.teams@[j].score
            }
    }

    /// What holds of a finished game against the game before the last action: one
    /// score sheet per team, each the score of the cards that team captured, and those
    /// cards together with the deck and hands are all the cards there were.
    pub open spec fn scored_from(&self, before: &Game) -> bool {
        exists|ts: Seq<Team>|
            {
                &&& ts.len() == self.teams@.len()
                &&& #[trigger] self.main_deck@.to_multiset().add(hands_ms(self.players@)).add(teams_ms(ts)) == before.ms()
                &&& forall|j: int|
                    0 <= j < ts.len() ==> (#[trigger] self.state->GameDone_0@[j]).0.score == score_of(ts[j].captures.0@)
                        && self.state->GameDone_0@[j].1 == self.teams@[j].score
            }
    }

    /// What one applied action keeps: a well-formed game of the same seats, and the
    /// same cards unless the game just ended.
    pub open spec fn step_to(&self, next: &Game) -> bool {
        &&& next.wf()
        &&& next.players@.len() == self.players@.len()
        &&& !(next.state is GameDone) ==> next.ms() == self.ms()
    }

    /// Whether `action` is legal for the player at `tpos` in this game.
    pub open spec fn action_allowed(&self, tpos: PlayerTpos, action: PlayerAction) -> bool {
        &&& tpos.0 < self.nplayers()
        &&& action_ok_parts(
            self.state is NextTurn && self.state->NextTurn_0 == tpos,
            tpos,
            self.table@,
            self.hand(tpos),
            action,
        )
    }

    /// A copy of the game; the random generator is copied in its current state.
    fn duplicate(&self) -> (r: Game)
        requires
            self.wf(),
        ensures
            r.wf(),
            r.ms() == self.ms(),
            r.table@ == self.table@ && r.main_deck@ == self.main_deck@,
            r.players@.len() == self.players@.len(),
            forall|k: int| 0 <= k < self.nplayers() ==> (#[trigger] r.players@[k]).hand@ == self.players@[k].hand@,
            r.teams@.len() == self.teams@.len(),
            forall|k: int|
                0 <= k < self.teams@.len() ==> (#[trigger] r.teams@[k]).captures.0@ == self.teams@[k].captures.0@
                    && r.teams@[k].score == self.teams@[k].score,
            r.state.same_phase(self.state),
            r.first_player == self.first_player,
            r.last_team_captured == self.last_team_captured,
    {
        let mut players: Vec<Player> = Vec::new();
        let mut i: usize = 0;
        while i < self.players.len()
            invariant
                0 <= i <= self.players@.len(),
                players@.len() == i,
                forall|k: int| 0 <= k < i ==> (#[trigger] players@[k]).hand@ == self.players@[k].hand@,
            decreases self.players.len() - i,
        {
            players.push(self.players[i].duplicate());
            i = i + 1;
        }
        let mut teams: Vec<Team> = Vec::new();
        let mut i: usize = 0;
        while i < self.teams.len()
            invariant
                0 <= i <= self.teams@.len(),
                teams@.len() == i,
                forall|k: int| 0 <= k < i ==> (#[trigger] teams@[k]).captures.0@ == self.teams@[k].captures.0@
                    && teams@[k].score == self.teams@[k].score,
            decreases self.teams.len() - i,
        {
            teams.push(self.teams[i].duplicate());
            i = i + 1;
        }
        proof {
            lemma_hands_ms_ext(players@, self.players@);
            lemma_teams_ms_ext(teams@, self.teams@);
        }
        Game {
            table: self.table.duplicate(),
            main_deck: self.main_deck.duplicate(),
            players: players,
            teams: teams,
            last_team_captured: self.last_team_captured,
            state: self.state.duplicate(),
            first_player: self.first_player,
            last_action: self.last_action.clone(),
            initst_opt: match &self.initst_opt {
                Some(st) => Some(st.duplicate()),
                None => None,
            },
            rng: clone_rng(&self.rng),
        }
    }

    // NB: on an error the game may be left half-changed; callers work on a copy.
    fn do_apply_action(&mut self, tpos: PlayerTpos, action: PlayerAction) -> (r: Result<PerformedAction, String>)
        requires
            old(self).wf(),
            tpos.0 < old(self).nplayers(),
        ensures
            r is Ok ==> old(self).action_allowed(tpos, action),
            !old(self).action_allowed(tpos, action) ==> r is Err,
            (action is LayDown && old(self).action_allowed(tpos, action) && old(self).hand(tpos).contains(
                action->LayDown_0,
            )) ==> r is Ok,
            (action is Capture && old(self).action_allowed(tpos, action) && old(self).hand(tpos).contains(
                action->Capture_0.handcard,
            ) && targets_present(action->Capture_0.ee(), old(self).table@)) ==> r is Ok,
            (action is Declare && old(self).action_allowed(tpos, action) && old(self).hand(tpos).contains(
                action->Declare_0.ee()[0][0]->Card_0,
            ) && decl_targets(action->Declare_0.ee()).subset_of(old(self).table@.to_multiset()) && decl_shape_ok(
                action->Declare_0.ee(),
            )) ==> r is Ok,
            r is Ok ==> final(self).ms() == old(self).ms() && final(self).same_frame(old(self))
                && final(self).last_team_captured < final(self).teams@.len(),
            r is Ok ==> r->Ok_0.player == tpos,
            r is Ok ==> match action {
                PlayerAction::Declare(da) => old(self).decl_done(tpos, da, *final(self), r->Ok_0) && (forall|i: int|
                    0 <= i < final(self).table@.len() ==> !((#[trigger] final(self).table@[i]) is Card
                        && final(self).table@[i].value() == decl_value(da.ee())))
                    && final(self).table@.len() > 0 && final(self).table@.last() is Decl
                    && final(self).table@.last()->Decl_0.player == tpos,
                PlayerAction::Capture(ca) => (!ca.handcard.rank.is_figure_spec() ==> forall|i: int|
                    0 <= i < final(self).table@.len() ==> (#[trigger] final(self).table@[i]).value()
                        != ca.handcard.rank.0) && old(self).capture_done(tpos, ca, *final(self), r->Ok_0),
                PlayerAction::LayDown(c) => final(self).table@ == old(self).table@.push(EntryView::Card(c))
                    && old(self).laydown_done(tpos, c, *final(self)) && r->Ok_0.forced_cards@.len() == 0 && !r->Ok_0.xeri,
            },
    {
        let pview = self.get_player_game_view(tpos);
        match action.validate(&pview) {
            Ok(()) => {},
            Err(e) => return Err(e),
        }
        match action {
            PlayerAction::LayDown(c) => {
                let card = match self.remove_player_card(tpos, &c) {
                    Some(x) => x,
                    None => return Err("Card does not exist".to_string()),
                };
                self.add_table_card(card);
                proof {
                    assert(self.ms() =~= old(self).ms());
                }
                Ok(PerformedAction {
                    action: PlayerAction::LayDown(c),
                    player: tpos,
                    forced_cards: Vec::new(),
                    xeri: false,
                })
            },
            PlayerAction::Declare(da) => self.do_apply_decl_action(tpos, da),
            PlayerAction::Capture(ca) => self.do_apply_capture_action(tpos, ca),
        }
    }

    /// Whether applying `action` for `tpos` succeeds: it is legal, the hand holds the
    /// card it plays, and the table holds the entries it names.
    pub open spec fn apply_succeeds(&self, tpos: PlayerTpos, action: PlayerAction) -> bool {
        &&& self.action_allowed(tpos, action)
        &&& match action {
            PlayerAction::LayDown(c) => self.hand(tpos).contains(c),
            PlayerAction::Capture(ca) => self.hand(tpos).contains(ca.handcard) && targets_present(ca.ee(), self.table@),
            PlayerAction::Declare(da) => self.hand(tpos).contains(da.ee()[0][0]->Card_0) && decl_targets(da.ee()).subset_of(
                self.table@.to_multiset(),
            ) && decl_shape_ok(da.ee()),
        }
    }

    /// What a capture by `tpos` leaves: the hand card out of the hand, the table
    /// without the targets (and, for a numeric capture, without every entry of its
    /// value), and the team of `tpos` credited with the taken cards, the first one as a
    /// xeri when the table is left empty.
    pub open spec fn capture_done(&self, tpos: PlayerTpos, ca: CaptureAction, g: Game, pa: PerformedAction) -> bool {
        let t = self.table@;
        let i = team_of(tpos);
        let xeri = capture_rest(t, ca).len() == 0;
        &&& g.table@ == capture_rest(t, ca)
        &&& pa.player == tpos && pa.xeri == xeri && pa.forced_cards@ == capture_forced(t, ca)
        &&& g.teams@.len() == self.teams@.len()
        &&& g.teams@[i].captures.0@ == self.teams@[i].captures.0@ + tagged(capture_cards(t, ca), xeri)
        &&& g.teams@[i].score == self.teams@[i].score
        &&& forall|j: int|
            0 <= j < self.teams@.len() && j != i ==> (#[trigger] g.teams@[j]).captures.0@ == self.teams@[j].captures.0@
                && g.teams@[j].score == self.teams@[j].score
        &&& g.last_team_captured == i
        &&& hand_without(self.hand(tpos), ca.handcard, g.hand(tpos))
        &&& forall|k: int|
            0 <= k < self.nplayers() && k != tpos.0 ==> (#[trigger] g.players@[k]).hand@ == self.players@[k].hand@
    }

    /// What a declaration by `tpos` leaves: the hand card out of the hand, the named
    /// entries off the table, the loose cards of the declared value absorbed, and at
    /// the end of the table a declaration of `tpos` holding the action's groups and a
    /// group for each absorbed card. Captures do not change.
    pub open spec fn decl_done(&self, tpos: PlayerTpos, da: DeclAction, g: Game, pa: PerformedAction) -> bool {
        let t = self.table@;
        &&& g.table@ == decl_rest(t, da).push(
            EntryView::Decl(DeclView { groups: decl_groups(da.ee()) + singles(decl_absorbed(t, da)), player: tpos }),
        )
        &&& pa.player == tpos && !pa.xeri && pa.forced_cards@ == decl_absorbed(t, da)
        &&& g.teams@.len() == self.teams@.len()
        &&& forall|j: int|
            0 <= j < self.teams@.len() ==> (#[trigger] g.teams@[j]).captures.0@ == self.teams@[j].captures.0@
                && g.teams@[j].score == self.teams@[j].score
        &&& g.last_team_captured == self.last_team_captured
        &&& hand_without(self.hand(tpos), da.ee()[0][0]->Card_0, g.hand(tpos))
        &&& forall|k: int|
            0 <= k < self.nplayers() && k != tpos.0 ==> (#[trigger] g.players@[k]).hand@ == self.players@[k].hand@
    }

    /// What laying down `c` by `tpos` leaves: the card moved from the hand to the end
    /// of the table; captures do not change.
    pub open spec fn laydown_done(&self, tpos: PlayerTpos, c: Card, g: Game) -> bool {
        &&& g.table@ == self.table@.push(EntryView::Card(c))
        &&& g.teams@.len() == self.teams@.len()
        &&& forall|j: int|
            0 <= j < self.teams@.len() ==> (#[trigger] g.teams@[j]).captures.0@ == self.teams@[j].captures.0@
                && g.teams@[j].score == self.teams@[j].score
        &&& hand_without(self.hand(tpos), c, g.hand(tpos))
        &&& forall|k: int|
            0 <= k < self.nplayers() && k != tpos.0 ==> (#[trigger] g.players@[k]).hand@ == self.players@[k].hand@
    }

    /// What the move itself does, before the turn passes on.
    pub open spec fn move_done(&self, tpos: PlayerTpos, action: PlayerAction, m: Game, pa: PerformedAction) -> bool {
        match action {
            PlayerAction::LayDown(c) => self.laydown_done(tpos, c, m),
            PlayerAction::Capture(ca) => self.capture_done(tpos, ca, m, pa),
            PlayerAction::Declare(da) => self.decl_done(tpos, da, m, pa),
        }
    }

    /// What holds of the game `g` that applying `action` for `tpos` to this game gives.
    pub open spec fn apply_post(&self, tpos: PlayerTpos, action: PlayerAction, g: Game) -> bool {
        let nx = next_seat(tpos, self.nplayers());
        &&& g.wf()
        &&& g.players@.len() == self.players@.len()
        &&& g.first_player == self.first_player
        &&& g.last_action is Some && g.last_action->Some_0.player == tpos
        &&& !(g.state is GameDone) ==> g.ms() == self.ms()
        &&& g.hand(nx).len() > 0 ==> g.state == GameState::NextTurn(nx)
        &&& (g.hand(nx).len() == 0 && g.main_deck@.len() > 0) ==> g.state is RoundDone
        &&& (g.hand(nx).len() == 0 && g.main_deck@.len() == 0) ==> g.state is GameDone
        &&& g.state is GameDone ==> g.table@.len() == 0 && g.state->GameDone_0@.len()
            == g.teams@.len() && g.scored_from(self)
        &&& self.step_to(&g)
        &&& g.state is GameDone ==> exists|m: Game|
            #[trigger] self.move_done(tpos, action, m, g.last_action->Some_0) && m.game_end(g)
        &&& (action is Declare && !(g.state is GameDone)) ==> self.decl_done(
            tpos,
            action->Declare_0,
            g,
            g.last_action->Some_0,
        )
        &&& (action is LayDown && !(g.state is GameDone)) ==> self.laydown_done(tpos, action->LayDown_0, g)
        &&& (action is Capture && !(g.state is GameDone)) ==> self.capture_done(
            tpos,
            action->Capture_0,
            g,
            g.last_action->Some_0,
        )
        &&& match action {
            PlayerAction::Declare(da) => (forall|i: int|
                0 <= i < g.table@.len() ==> !((#[trigger] g.table@[i]) is Card && g.table@[i].value()
                    == decl_value(da.ee()))) && (!(g.state is GameDone) ==> g.table@.len() > 0
                && g.table@.last() is Decl && g.table@.last()->Decl_0.player == tpos),
            PlayerAction::Capture(ca) => !ca.handcard.rank.is_figure_spec() ==> forall|i: int|
                0 <= i < g.table@.len() ==> (#[trigger] g.table@[i]).value() != ca.handcard.rank.0,
            PlayerAction::LayDown(c) => !(g.state is GameDone) ==> g.table@.len() > 0
                && g.table@.last() == EntryView::Card(c),
        }
    }

    /// Applies a player's action to a copy of the game and returns the copy; on any
    /// failure the game is left as it was and the reason is returned.
    pub fn apply_action(&self, tpos: PlayerTpos, action: PlayerAction) -> (r: Result<Game, String>)
        requires
            self.wf(),
        ensures
            !(self.state is NextTurn) ==> r is Err,
            !self.action_allowed(tpos, action) ==> r is Err,
            self.apply_succeeds(tpos, action) ==> r is Ok,
            r is Ok ==> self.apply_post(tpos, action, r->Ok_0),
    {
        match self.state {
            GameState::NextTurn(_) => {},
            _ => return Err("Invalid state for applying action".to_string()),
        }
        if tpos.0 as usize >= self.players.len() {
            return Err("Invalid player".to_string());
        }
        let mut new = self.duplicate();
        proof {
            lemma_hands_ms_ext(new.players@, self.players@);
            assert(new.hand(tpos) == self.hand(tpos));
            assert(new.action_allowed(tpos, action) == self.action_allowed(tpos, action));
        }
        let performed_act = match new.do_apply_action(tpos, action) {
            Ok(x) => x,
            Err(e) => return Err(e),
        };
        new.last_action = Some(performed_act);
        let ghost mid = new;
        new.next_turn();
        proof {
            assert(mid.state->NextTurn_0 == tpos);
            assert(self.move_done(tpos, action, mid, mid.last_action->Some_0));
            if new.state is GameDone {
                assert(new.game_done_ok(&mid));
                let ts = choose|ts: Seq<Team>|
                    {
                        &&& ts.len() == new.teams@.len()
                        &&& #[trigger] teams_ms(ts) == teams_ms(mid.teams@).add(mid.table.ms())
                        &&& forall|j: int|
                            0 <= j < ts.len() ==> (#[trigger] new.state->GameDone_0@[j]).0.score == score_of(
                                ts[j].captures.0@,
                            ) && new.state->GameDone_0@[j].1 == new.teams@[j].score
                    };
                assert(new.main_deck@.to_multiset().add(hands_ms(new.players@)).add(teams_ms(ts)) =~= self.ms());
            }
        }
        Ok(new)
    }

    /// A game for one player from a given table and hand, with an empty main deck.
    pub fn new_1p_debug(rng: rand_pcg::Lcg128Xsl64, table: Table, hand: Deck) -> (r: Game)
        requires
            hand@.len() + table.ms().len() <= 52,
        ensures
            r.wf(),
            r.nplayers() == 1,
            r.table@ == table@,
            r.hand(PlayerTpos(0)) == hand@,
            r.main_deck@.len() == 0,
            r.state == GameState::NextTurn(PlayerTpos(0)),
    {
        let mut hands: Vec<Deck> = Vec::new();
        hands.push(hand);
        let initst = InitState { deck: Deck::empty(), table: table, hands: hands };
        proof {
            broadcast use vstd::seq_lib::group_to_multiset_ensures;
            assert(initst.hands@.drop_last() =~= Seq::<Deck>::empty());
            assert(decks_ms(initst.hands@.drop_last()) == Multiset::<Card>::empty());
            assert(initst.hands@.last() == hand);
            assert(decks_ms(initst.hands@) =~= hand@.to_multiset());
            assert(initst.deck@.to_multiset().len() == 0);
            assert(initst.ms().len() <= 52);
        }
        Self::init(1, Some(initst), rng)
    }

    /// A game for one player, dealt at random.
    pub fn new_1p(rng: rand_pcg::Lcg128Xsl64) -> (r: Game)
        ensures
            r.wf(),
            r.nplayers() == 1,
            r.ms() == crate::deck::full_deck().to_multiset(),
            r.fresh_deal(),
            r.state == GameState::NextTurn(PlayerTpos(0)),
    {
        Self::init(1, None, rng)
    }

    /// A game for two players, dealt at random.
    pub fn new_2p(rng: rand_pcg::Lcg128Xsl64) -> (r: Game)
        ensures
            r.wf(),
            r.nplayers() == 2,
            r.ms() == crate::deck::full_deck().to_multiset(),
            r.fresh_deal(),
            r.state == GameState::NextTurn(PlayerTpos(0)),
    {
        Self::init(2, None, rng)
    }

    /// A game for four players, dealt at random.
    pub fn new_4p(rng: rand_pcg::Lcg128Xsl64) -> (r: Game)
        ensures
            r.wf(),
            r.nplayers() == 4,
            r.ms() == crate::deck::full_deck().to_multiset(),
            r.fresh_deal(),
            r.state == GameState::NextTurn(PlayerTpos(0)),
    {
        Self::init(4, None, rng)
    }

    fn players_from(hands: Vec<Deck>) -> (r: Vec<Player>)
        ensures
            r@.len() == hands@.len(),
            forall|k: int| 0 <= k < hands@.len() ==> (#[trigger] r@[k]).hand@ == hands@[k]@,
            hands_ms(r@) == decks_ms(hands@),
    {
        let mut players: Vec<Player> = Vec::new();
        let mut i: usize = 0;
        while i < hands.len()
            invariant
                0 <= i <= hands@.len(),
                players@.len() == i,
                forall|k: int| 0 <= k < i ==> (#[trigger] players@[k]).hand@ == hands@[k]@,
                hands_ms(players@) == decks_ms(hands@.subrange(0, i as int)),
            decreases hands.len() - i,
        {
            let ghost p0 = players@;
            players.push(Player { hand: hands[i].duplicate() });
            proof {
                assert(players@.drop_last() =~= p0);
                assert(hands@.subrange(0, i + 1).drop_last() =~= hands@.subrange(0, i as int));
            }
            i = i + 1;
        }
        assert(hands@.subrange(0, hands@.len() as int) =~= hands@);
        players
    }

    fn init(nplayers: usize, initst_opt: Option<InitState>, rng: rand_pcg::Lcg128Xsl64) -> (r: Game)
        requires
            nplayers == 1 || nplayers == 2 || nplayers == 4,
            initst_opt is Some ==> initst_opt->Some_0.wf(nplayers as int),
        ensures
            r.wf(),
            r.nplayers() == nplayers,
            r.state == GameState::NextTurn(PlayerTpos(0)),
            r.first_player == PlayerTpos(0),
            r.initst_opt is Some <==> initst_opt is Some,
            initst_opt is Some ==> r.table@ == initst_opt->Some_0.table@ && r.main_deck@
                == initst_opt->Some_0.deck@ && forall|k: int|
                0 <= k < nplayers ==> (#[trigger] r.players@[k]).hand@ == initst_opt->Some_0.hands@[k]@,
            initst_opt is None ==> r.ms() == crate::deck::full_deck().to_multiset() && r.fresh_deal(),
            forall|j: int| 0 <= j < r.teams@.len() ==> (#[trigger] r.teams@[j]).captures.0@.len() == 0
                && r.teams@[j].score == 0,
    {
        let mut rng = rng;
        let initst = match &initst_opt {
            Some(st) => st.duplicate(),
            None => InitState::default(nplayers, &mut rng),
        };
        let nteams: usize = if nplayers == 1 { 1 } else { 2 };
        let mut teams: Vec<Team> = Vec::new();
        let mut i: usize = 0;
        while i < nteams
            invariant
                0 <= i <= nteams,
                teams@.len() == i,
                forall|j: int| 0 <= j < i ==> (#[trigger] teams@[j]).captures.0@.len() == 0 && teams@[j].score == 0,
            decreases nteams - i,
        {
            teams.push(Team::new());
            i = i + 1;
        }
        proof {
            lemma_teams_ms_zero(teams@);
        }
        let ghost st = initst;
        let players = Self::players_from(initst.hands);
        let first_player = PlayerTpos(0);
        let g = Game {
            table: initst.table,
            main_deck: initst.deck,
            players: players,
            first_player: first_player,
            state: GameState::NextTurn(first_player),
            teams: teams,
            last_team_captured: 0,
            last_action: None,
            initst_opt: initst_opt,
            rng: rng,
        };
        proof {
            assert(g.ms() =~= st.ms().add(teams_ms(teams@)));
            if initst_opt is None {
                assert(g.table@.len() == 4);
                assert(g.main_deck@.len() == 52 - 4 - 6 * g.nplayers());
                assert(g.ms() == crate::deck::full_deck().to_multiset());
                assert forall|k: int| 0 <= k < g.nplayers() implies (#[trigger] g.players@[k]).hand@.len() == 6 by {
                    assert(g.players@[k].hand@ == st.hands@[k]@);
                }
            }
        }
        g
    }

    /// Adds a card to the hand of player `p`.
    fn hand_push(&mut self, p: usize, card: Card)
        requires
            p < old(self).nplayers(),
        ensures
            final(self).table == old(self).table && final(self).teams == old(self).teams,
            final(self).same_frame(old(self)),
            final(self).last_action == old(self).last_action,
            final(self).last_team_captured == old(self).last_team_captured,
            hands_ms(final(self).players@) == hands_ms(old(self).players@).insert(card),
            final(self).players@[p as int].hand@ == old(self).players@[p as int].hand@.push(card),
            forall|k: int| 0 <= k < old(self).nplayers() && k != p ==> (#[trigger] final(self).players@[k]).hand@
                == old(self).players@[k].hand@,
    {
        let mut pl = self.players[p].duplicate();
        let ghost oh = pl.hand@;
        pl.hand.push(card);
        let ghost old_players = self.players@;
        self.players.set(p, pl);
        proof {
            broadcast use vstd::seq_lib::group_to_multiset_ensures;
            lemma_hands_ms_update(old_players, p as int, pl);
            let a = hands_ms(self.players@);
            let b = hands_ms(old_players);
            let om = oh.to_multiset();
            assert(pl.hand@.to_multiset() == om.insert(card));
            assert(a.add(om) == b.add(om.insert(card)));
            assert forall|x: Card| #[trigger] a.count(x) == b.insert(card).count(x) by {
                assert(a.add(om).count(x) == b.add(om.insert(card)).count(x));
            }
            assert(a =~= b.insert(card));
        }
    }

    /// Deals six rounds of one card to each player, while the main deck lasts.
    pub fn deal_hands(&mut self)
        requires
            old(self).wf(),
        ensures
            final(self).wf(),
            final(self).ms() == old(self).ms(),
            final(self).table == old(self).table && final(self).teams == old(self).teams,
            final(self).state == old(self).state && final(self).first_player == old(self).first_player,
            final(self).players@.len() == old(self).players@.len(),
            old(self).main_deck@.len() >= 6 * old(self).nplayers() ==> final(self).main_deck@.len()
                == old(self).main_deck@.len() - 6 * old(self).nplayers() && forall|k: int|
                0 <= k < old(self).nplayers() ==> (#[trigger] final(self).players@[k]).hand@.len()
                    == old(self).players@[k].hand@.len() + 6,
    {
        let hand_size: usize = 6;
        let n = self.players.len();
        let mut r: usize = 0;
        while r < hand_size
            invariant
                old(self).wf(),
                n == old(self).nplayers(),
                self.players@.len() == n,
                self.state == old(self).state && self.first_player == old(self).first_player,
                self.initst_opt == old(self).initst_opt,
                self.table == old(self).table && self.teams == old(self).teams,
                self.last_team_captured == old(self).last_team_captured,
                self.ms() == old(self).ms(),
                0 <= r <= hand_size,
                hand_size == 6,
                old(self).main_deck@.len() >= 6 * n ==> self.main_deck@.len() == old(self).main_deck@.len() - r * n
                    && forall|k: int| 0 <= k < n ==> (#[trigger] self.players@[k]).hand@.len()
                        == old(self).players@[k].hand@.len() + r,
            decreases hand_size - r,
        {
            let mut p: usize = 0;
            while p < n
                invariant
                    old(self).wf(),
                    n == old(self).nplayers(),
                    self.players@.len() == n,
                    self.table == old(self).table && self.teams == old(self).teams,
                    self.state == old(self).state && self.first_player == old(self).first_player,
                    self.initst_opt == old(self).initst_opt,
                    self.last_team_captured == old(self).last_team_captured,
                    self.ms() == old(self).ms(),
                    0 <= r < hand_size,
                    hand_size == 6,
                    0 <= p <= n,
                    old(self).main_deck@.len() >= 6 * n ==> self.main_deck@.len() == old(self).main_deck@.len() - r * n
                        - p && forall|k: int| 0 <= k < n ==> (#[trigger] self.players@[k]).hand@.len()
                        == old(self).players@[k].hand@.len() + r + if k < p { 1int } else { 0int },
                decreases n - p,
            {
                proof {
                    if old(self).main_deck@.len() >= 6 * n {
                        assert(r * n + p < 6 * n) by (nonlinear_arith)
                            requires r < 6, p < n;
                    }
                }
                let ghost d0 = self.main_deck@;
                match self.main_deck.pop() {
                    Some(card) => {
                        self.hand_push(p, card);
                        proof {
                            broadcast use vstd::seq_lib::group_to_multiset_ensures;
                            assert(d0 == self.main_deck@.push(card));
                            assert(self.ms() =~= old(self).ms());
                        }
                    },
                    None => {},
                }
                p = p + 1;
            }
            proof {
                if old(self).main_deck@.len() >= 6 * n {
                    assert(r * n + n == (r + 1) * n) by (nonlinear_arith);
                }
            }
            r = r + 1;
        }
    }

    /// What a new round keeps and changes: the cards are dealt from the main deck to
    /// the hands, six each when the deck has them, and the first player moves.
    pub open spec fn new_round_post(&self, g: Game) -> bool {
        &&& g.wf()
        &&& g.ms() == self.ms()
        &&& g.state == GameState::NextTurn(self.first_player)
        &&& g.table == self.table && g.teams == self.teams
        &&& g.players@.len() == self.players@.len()
        &&& self.main_deck@.len() >= 6 * self.nplayers() ==> g.main_deck@.len() == self.main_deck@.len() - 6
            * self.nplayers() && forall|k: int|
            0 <= k < self.nplayers() ==> (#[trigger] g.players@[k]).hand@.len() == self.players@[k].hand@.len() + 6
    }

    /// Deals a new round and gives the turn to the first player.
    pub fn new_round(&mut self)
        requires
            old(self).wf(),
            old(self).state is RoundDone,
        ensures
            old(self).new_round_post(*final(self)),
    {
        self.deal_hands();
        self.state = GameState::NextTurn(self.first_player);
    }

    /// Starts the next game of a match: a new deal, the same teams with their scores,
    /// and the first turn passed on to the next seat.
    pub fn next_game(&mut self)
        requires
            old(self).wf(),
            old(self).state is GameDone,
        ensures
            final(self).wf(),
            final(self).players@.len() == old(self).players@.len(),
            final(self).teams == old(self).teams,
            final(self).first_player == next_seat(old(self).first_player, old(self).nplayers()),
            final(self).state == GameState::NextTurn(final(self).first_player),
            final(self).last_action is None,
            old(self).initst_opt is Some ==> final(self).table@ == old(self).initst_opt->Some_0.table@
                && final(self).main_deck@ == old(self).initst_opt->Some_0.deck@,
            old(self).initst_opt is None ==> final(self).ms() == crate::deck::full_deck().to_multiset()
                && final(self).fresh_deal(),
    {
        let nplayers = self.players.len();
        let initst = match &self.initst_opt {
            Some(st) => st.duplicate(),
            None => InitState::default(nplayers, &mut self.rng),
        };
        let ghost st = initst;
        self.table = initst.table;
        self.main_deck = initst.deck;
        self.players = Self::players_from(initst.hands);
        self.first_player = PlayerTpos(((self.first_player.0 as usize + 1) % nplayers) as u8);
        self.last_action = None;
        self.state = GameState::NextTurn(self.first_player);
        proof {
            lemma_teams_ms_zero(self.teams@);
            assert(self.ms() =~= st.ms().add(teams_ms(self.teams@)));
            if old(self).initst_opt is None {
                assert(self.table@.len() == 4);
                assert(self.main_deck@.len() == 52 - 4 - 6 * self.nplayers());
                assert(self.ms() == crate::deck::full_deck().to_multiset());
                assert forall|k: int| 0 <= k < self.nplayers() implies (#[trigger] self.players@[k]).hand@.len() == 6 by {
                    assert(self.players@[k].hand@ == st.hands@[k]@);
                }
            }
        }
    }

    pub fn state(&self) -> (r: &GameState)
        ensures
            r == &self.state,
    {
        &self.state
    }
}

impl GameState {
    /// Whether two states are in the same phase, with the same player to move.
    pub open spec fn same_phase(self, other: GameState) -> bool {
        &&& (self is NextTurn <==> other is NextTurn)
        &&& (self is RoundDone <==> other is RoundDone)
        &&& (self is GameDone <==> other is GameDone)
        &&& self is NextTurn ==> self->NextTurn_0 == other->NextTurn_0
    }

    pub(crate) fn duplicate(&self) -> (r: GameState)
        ensures
            r.same_phase(*self),
    {
        match self {
            GameState::NextTurn(t) => GameState::NextTurn(*t),
            GameState::RoundDone => GameState::RoundDone,
            GameState::GameDone(v) => GameState::GameDone(v.clone()),
        }
    }
}

} // verus!
