use vstd::prelude::*;
use vstd::string::StringExecFns;

use crate::card::{u8_to_decimal, Card};
use crate::deck::Deck;
use crate::game::PlayerGameView;
use crate::table::{
    append_groups, clamp8, count_cards_val, entries_view, first_decl, DeclView, Declaration, EntryView,
    PlayerTpos, Table, TableEntry,
};

verus! {

#[derive(Debug, Clone)]
pub enum PlayerAction {
    LayDown(Card),
    Declare(DeclAction),
    Capture(CaptureAction),
}

/// An action as the engine performed it.
#[derive(Debug, Clone)]
pub struct PerformedAction {
    pub action: PlayerAction,
    pub player: PlayerTpos,
    /// cards that the engine swept in beyond those the player chose
    pub forced_cards: Vec<Card>,
    /// whether the action emptied the table
    pub xeri: bool,
}

/// A declaration: groups of entries of one value. By convention the first entry of
/// the first group is the card from the player's hand.
#[derive(Debug, Clone)]
pub struct DeclAction {
    pub tentries: Vec<Vec<TableEntry>>,
}

/// A capture: a hand card, and groups of table entries each summing to its value.
#[derive(Debug, Clone)]
pub struct CaptureAction {
    pub handcard: Card,
    pub tentries: Vec<Vec<TableEntry>>,
}

#[derive(Debug, Clone)]
pub enum GetSingleRes<T> {
    Zero,
    OnlyOne(T),
    MoreThanOne,
}

/// The groups of an action as views.
pub open spec fn ee_view(v: Vec<Vec<TableEntry>>) -> Seq<Seq<EntryView>> {
    v@.map_values(|g: Vec<TableEntry>| entries_view(g@))
}

/// The sum of the values of some entries.
pub open spec fn sum_entry_vals(s: Seq<EntryView>) -> int
    decreases s.len(),
{
    if s.len() == 0 {
        0
    } else {
        sum_entry_vals(s.drop_last()) + s.last().value()
    }
}

/// The value of a group of entries, saturating at 255.
pub open spec fn group_val(s: Seq<EntryView>) -> u8 {
    clamp8(sum_entry_vals(s))
}

/// The number of entries over all groups.
pub open spec fn total_len(ee: Seq<Seq<EntryView>>) -> nat
    decreases ee.len(),
{
    if ee.len() == 0 {
        0
    } else {
        total_len(ee.drop_last()) + ee.last().len()
    }
}

pub open spec fn is_decl_at(ee: Seq<Seq<EntryView>>, i: int, j: int) -> bool {
    0 <= i < ee.len() && 0 <= j < ee[i].len() && ee[i][j] is Decl
}

/// Whether no entry is a declaration.
pub open spec fn no_decl(ee: Seq<Seq<EntryView>>) -> bool {
    forall|i: int, j: int| !(#[trigger] is_decl_at(ee, i, j))
}

/// Whether two different entries are declarations.
pub open spec fn two_decls(ee: Seq<Seq<EntryView>>) -> bool {
    exists|i1: int, j1: int, i2: int, j2: int|
        #[trigger] is_decl_at(ee, i1, j1) && #[trigger] is_decl_at(ee, i2, j2) && (i1 != i2 || j1 != j2)
}

/// Whether `d` is the one declaration among the entries.
pub open spec fn sole_decl(ee: Seq<Seq<EntryView>>, d: DeclView) -> bool {
    exists|i: int, j: int|
        #[trigger] is_decl_at(ee, i, j) && ee[i][j] == EntryView::Decl(d) && forall|i2: int, j2: int|
            #[trigger] is_decl_at(ee, i2, j2) ==> i2 == i && j2 == j
}

/// The value of the first group.
pub open spec fn decl_value(ee: Seq<Seq<EntryView>>) -> u8 {
    group_val(ee[0])
}

/// Whether every group has the value of the first one.
pub open spec fn decl_same_value(ee: Seq<Seq<EntryView>>) -> bool {
    forall|i: int| 1 <= i < ee.len() ==> group_val(#[trigger] ee[i]) == decl_value(ee)
}

/// Whether the hand holds a card of the given value other than `hc`.
pub open spec fn other_card_of_value(hand: Seq<Card>, hc: Card, v: u8) -> bool {
    exists|k: int| 0 <= k < hand.len() && (#[trigger] hand[k]) != hc && hand[k].rank.0 == v
}

/// What every declaration must satisfy: non-empty, starting with a card, all groups
/// of one value in 1..=10, at least two entries, and another card of that value
/// left in the hand.
pub open spec fn decl_base_ok(ee: Seq<Seq<EntryView>>, hand: Seq<Card>) -> bool {
    &&& ee.len() > 0 && ee[0].len() > 0
    &&& ee[0][0] is Card
    &&& decl_same_value(ee)
    &&& total_len(ee) >= 2
    &&& 1 <= decl_value(ee) <= 10
    &&& other_card_of_value(hand, ee[0][0]->Card_0, decl_value(ee))
}

/// The rules for a new declaration of a player with none on the table: at most one
/// declaration may be taken in, and a group declaration may not be raised.
pub open spec fn decl_ok(ee: Seq<Seq<EntryView>>, hand: Seq<Card>) -> bool {
    &&& decl_base_ok(ee, hand)
    &&& !two_decls(ee)
    &&& forall|d: DeclView| #[trigger] sole_decl(ee, d) ==> !(d.value() != decl_value(ee) && d.groups.len() > 1)
}

/// The rules for a player who has the declaration `own` on the table: the action
/// must add to exactly that declaration, without raising it.
pub open spec fn decl_continuation_ok(ee: Seq<Seq<EntryView>>, own: DeclView, hand: Seq<Card>) -> bool {
    &&& decl_base_ok(ee, hand)
    &&& sole_decl(ee, own)
    &&& own.value() == decl_value(ee)
}

/// Whether a card may be laid down: no entry on the table has its value.
pub open spec fn laydown_ok(c: Card, table: Seq<EntryView>) -> bool {
    forall|i: int| 0 <= i < table.len() ==> (#[trigger] table[i]).value() != c.rank.0
}

/// How many figures of one rank a capture takes, against how many lie on the table.
pub open spec fn figures_ok(ncaptured: int, ntable: int) -> bool {
    (ncaptured == 1 && ntable == 1) || (ncaptured == 1 && ntable == 2) || (ncaptured == 3 && ntable == 3)
}

/// The rules for a capture: non-empty, every group summing to the hand card's value;
/// with a figure, one card of that figure per group, never a declaration, and as many
/// as the figure rule asks for.
pub open spec fn capture_ok(hc: Card, ee: Seq<Seq<EntryView>>, table: Seq<EntryView>) -> bool {
    &&& ee.len() > 0 && ee[0].len() > 0
    &&& forall|i: int| 0 <= i < ee.len() ==> group_val(#[trigger] ee[i]) == hc.rank.0
    &&& hc.rank.0 >= 11 ==> {
        &&& forall|i: int| 0 <= i < ee.len() ==> (#[trigger] ee[i]).len() == 1 && ee[i][0] is Card
        &&& figures_ok(ee.len() as int, count_cards_val(table, hc.rank.0) as int)
    }
}

pub proof fn lemma_total_len_prefix(ee: Seq<Seq<EntryView>>, i: int)
    requires
        0 <= i < ee.len(),
    ensures
        total_len(ee.subrange(0, i + 1)) == total_len(ee.subrange(0, i)) + ee[i].len(),
{
    assert(ee.subrange(0, i + 1).drop_last() =~= ee.subrange(0, i));
}

fn entries_value(g: &Vec<TableEntry>) -> (r: u8)
    ensures
        r == group_val(entries_view(g@)),
{
    let ghost s = entries_view(g@);
    let mut acc: u8 = 0;
    let mut i: usize = 0;
    while i < g.len()
        invariant
            s == entries_view(g@),
            0 <= i <= g@.len(),
            acc == clamp8(sum_entry_vals(s.subrange(0, i as int))),
        decreases g.len() - i,
    {
        assert(s.subrange(0, i + 1).drop_last() =~= s.subrange(0, i as int));
        let v = g[i].value();
        proof {
            lemma_sum_entry_vals_nonneg(s.subrange(0, i as int));
            assert(sum_entry_vals(s.subrange(0, i + 1)) == sum_entry_vals(s.subrange(0, i as int)) + v);
        }
        if acc as u16 + v as u16 > 255 {
            acc = 255;
        } else {
            acc = acc + v;
        }
        i = i + 1;
    }
    assert(s.subrange(0, g@.len() as int) =~= s);
    acc
}

pub proof fn lemma_sum_entry_vals_nonneg(s: Seq<EntryView>)
    ensures
        sum_entry_vals(s) >= 0,
    decreases s.len(),
{
    if s.len() > 0 {
        lemma_sum_entry_vals_nonneg(s.drop_last());
    }
}

/// Whether the action's groups hold at least two entries.
fn has_two_entries(tentries: &Vec<Vec<TableEntry>>) -> (r: bool)
    ensures
        r == (total_len(ee_view(*tentries)) >= 2),
{
    let ghost ee = ee_view(*tentries);
    let mut n: usize = 0;
    let mut i: usize = 0;
    while i < tentries.len()
        invariant
            ee == ee_view(*tentries),
            0 <= i <= tentries@.len(),
            n == total_len(ee.subrange(0, i as int)),
            n < 2,
        decreases tentries.len() - i,
    {
        proof {
            lemma_total_len_prefix(ee, i as int);
        }
        assert(ee[i as int].len() == tentries@[i as int]@.len());
        if tentries[i].len() >= 2 || n + tentries[i].len() >= 2 {
            proof {
                lemma_total_len_mono(ee, i + 1);
            }
            return true;
        }
        n = n + tentries[i].len();
        i = i + 1;
    }
    assert(ee.subrange(0, tentries@.len() as int) =~= ee);
    false
}

pub proof fn lemma_total_len_mono(ee: Seq<Seq<EntryView>>, k: int)
    requires
        0 <= k <= ee.len(),
    ensures
        total_len(ee) >= total_len(ee.subrange(0, k)),
    decreases ee.len(),
{
    if k == ee.len() {
        assert(ee.subrange(0, k) =~= ee);
    } else {
        lemma_total_len_mono(ee.drop_last(), k);
        assert(ee.drop_last().subrange(0, k) =~= ee.subrange(0, k));
    }
}

/// Searches the groups for declarations: none, exactly one, or more than one.
fn single_decl(tentries: &Vec<Vec<TableEntry>>) -> (r: GetSingleRes<&Declaration>)
    ensures
        r is Zero <==> no_decl(ee_view(*tentries)),
        r is MoreThanOne <==> two_decls(ee_view(*tentries)),
        r is OnlyOne ==> sole_decl(ee_view(*tentries), r->OnlyOne_0@),
{
    let ghost ee = ee_view(*tentries);
    let mut found: Option<&Declaration> = None;
    let ghost mut fi: int = 0;
    let ghost mut fj: int = 0;
    let mut i: usize = 0;
    while i < tentries.len()
        invariant
            ee == ee_view(*tentries),
            0 <= i <= tentries@.len(),
            found is None ==> forall|a: int, b: int| #[trigger] is_decl_at(ee, a, b) ==> a >= i,
            found is Some ==> is_decl_at(ee, fi, fj) && fi < i && ee[fi][fj] == EntryView::Decl(found->Some_0@)
                && forall|a: int, b: int| #[trigger] is_decl_at(ee, a, b) && a < i ==> a == fi && b == fj,
        decreases tentries.len() - i,
    {
        let g = &tentries[i];
        assert(ee[i as int] == entries_view(g@));
        let mut j: usize = 0;
        while j < g.len()
            invariant
                ee == ee_view(*tentries),
                0 <= i < tentries@.len(),
                g == tentries@[i as int],
                ee[i as int] == entries_view(g@),
                0 <= j <= g@.len(),
                found is None ==> forall|a: int, b: int| #[trigger] is_decl_at(ee, a, b) ==> a > i || (a == i && b >= j),
                found is Some ==> is_decl_at(ee, fi, fj) && (fi < i || (fi == i && fj < j))
                    && ee[fi][fj] == EntryView::Decl(found->Some_0@)
                    && forall|a: int, b: int| #[trigger] is_decl_at(ee, a, b) && (a < i || (a == i && b < j))
                        ==> a == fi && b == fj,
            decreases g.len() - j,
        {
            match &g[j] {
                TableEntry::Decl(d) => {
                    assert(is_decl_at(ee, i as int, j as int));
                    if found.is_some() {
                        assert(is_decl_at(ee, fi, fj));
                        return GetSingleRes::MoreThanOne;
                    }
                    found = Some(d);
                    proof {
                        fi = i as int;
                        fj = j as int;
                    }
                },
                TableEntry::Card(_) => {
                    assert(!is_decl_at(ee, i as int, j as int));
                },
            }
            j = j + 1;
        }
        i = i + 1;
    }
    match found {
        None => GetSingleRes::Zero,
        Some(d) => {
            assert(!two_decls(ee));
            GetSingleRes::OnlyOne(d)
        },
    }
}


pub proof fn lemma_sole_unique(ee: Seq<Seq<EntryView>>, d1: DeclView, d2: DeclView)
    requires
        sole_decl(ee, d1),
        sole_decl(ee, d2),
    ensures
        d1 == d2,
{
    let (i1, j1) = choose|i: int, j: int|
        #[trigger] is_decl_at(ee, i, j) && ee[i][j] == EntryView::Decl(d1) && forall|i2: int, j2: int|
            #[trigger] is_decl_at(ee, i2, j2) ==> i2 == i && j2 == j;
    let (i2, j2) = choose|i: int, j: int|
        #[trigger] is_decl_at(ee, i, j) && ee[i][j] == EntryView::Decl(d2) && forall|a: int, b: int|
            #[trigger] is_decl_at(ee, a, b) ==> a == i && b == j;
    assert(is_decl_at(ee, i1, j1));
}

pub proof fn lemma_sole_not_two(ee: Seq<Seq<EntryView>>, d: DeclView)
    requires
        sole_decl(ee, d),
    ensures
        !two_decls(ee),
        !no_decl(ee),
{
    let (i, j) = choose|i: int, j: int|
        #[trigger] is_decl_at(ee, i, j) && ee[i][j] == EntryView::Decl(d) && forall|a: int, b: int|
            #[trigger] is_decl_at(ee, a, b) ==> a == i && b == j;
    assert(is_decl_at(ee, i, j));
    if two_decls(ee) {
        let (a1, b1, a2, b2) = choose|i1: int, j1: int, i2: int, j2: int|
            #[trigger] is_decl_at(ee, i1, j1) && #[trigger] is_decl_at(ee, i2, j2) && (i1 != i2 || j1 != j2);
        assert(is_decl_at(ee, a1, b1));
        assert(is_decl_at(ee, a2, b2));
    }
}

pub proof fn lemma_no_decl_not_sole(ee: Seq<Seq<EntryView>>, d: DeclView)
    requires
        no_decl(ee) || two_decls(ee),
    ensures
        !sole_decl(ee, d),
{
    if sole_decl(ee, d) {
        lemma_sole_not_two(ee, d);
    }
}

fn msg(s: &str) -> (r: String) {
    s.to_string()
}

impl DeclAction {
    pub open spec fn ee(&self) -> Seq<Seq<EntryView>> {
        ee_view(self.tentries)
    }

    /// The card from the hand: the first entry of the first group.
    pub fn handcard(&self) -> (r: Card)
        requires
            self.ee().len() > 0 && self.ee()[0].len() > 0 && self.ee()[0][0] is Card,
        ensures
            self.ee()[0][0] == EntryView::Card(r),
    {
        assert(self.ee()[0] == entries_view(self.tentries@[0]@));
        assert(self.ee()[0][0] == self.tentries@[0]@[0]@);
        match &self.tentries[0][0] {
            TableEntry::Card(c) => *c,
            TableEntry::Decl(_) => vstd::pervasive::unreached(),
        }
    }

    /// The value of the first group.
    pub fn value(&self) -> (r: u8)
        requires
            self.ee().len() > 0,
        ensures
            r == decl_value(self.ee()),
    {
        assert(self.ee()[0] == entries_view(self.tentries@[0]@));
        entries_value(&self.tentries[0])
    }

    /// Whether all groups have the same value.
    pub fn same_value(&self) -> (r: bool)
        requires
            self.ee().len() > 0,
        ensures
            r == decl_same_value(self.ee()),
    {
        let val = self.value();
        let mut i: usize = 1;
        while i < self.tentries.len()
            invariant
                self.ee().len() > 0,
                val == decl_value(self.ee()),
                1 <= i <= self.ee().len(),
                forall|k: int| 1 <= k < i ==> group_val(#[trigger] self.ee()[k]) == val,
            decreases self.tentries.len() - i,
        {
            assert(self.ee()[i as int] == entries_view(self.tentries@[i as int]@));
            let val_g = entries_value(&self.tentries[i]);
            if val != val_g {
                return false;
            }
            i = i + 1;
        }
        true
    }

    /// Whether the value lies in 1..=10.
    pub fn validate_bounded(&self) -> (r: Result<(), String>)
        requires
            self.ee().len() > 0,
        ensures
            r is Ok <==> 1 <= decl_value(self.ee()) <= 10,
    {
        let val = self.value();
        if val > 0 && val <= 10 {
            Ok(())
        } else {
            let mut m = msg("Invalid declaration: invalid value: ");
            m.append(u8_to_decimal(val).as_str());
            Err(m)
        }
    }

    /// Whether some entry is a declaration.
    pub fn has_decl(&self) -> (r: bool)
        ensures
            r == !no_decl(self.ee()),
    {
        match single_decl(&self.tentries) {
            GetSingleRes::Zero => false,
            _ => true,
        }
    }

    pub fn get_single_decl(&self) -> (r: GetSingleRes<&Declaration>)
        ensures
            r is Zero <==> no_decl(self.ee()),
            r is MoreThanOne <==> two_decls(self.ee()),
            r is OnlyOne ==> sole_decl(self.ee(), r->OnlyOne_0@),
    {
        single_decl(&self.tentries)
    }

    /// The declaration among the entries, if there is one.
    pub fn get_decl(&self) -> (r: Option<Declaration>)
        requires
            !two_decls(self.ee()),
        ensures
            r is None <==> no_decl(self.ee()),
            r is Some ==> sole_decl(self.ee(), r->Some_0@),
    {
        match single_decl(&self.tentries) {
            GetSingleRes::Zero => None,
            GetSingleRes::OnlyOne(d) => Some(d.duplicate()),
            GetSingleRes::MoreThanOne => None,
        }
    }

    pub fn validate_decl_base(&self, hand: &Deck) -> (r: Result<(), String>)
        ensures
            r is Ok <==> decl_base_ok(self.ee(), hand@),
    {
        if self.tentries.len() == 0 || self.tentries[0].len() == 0 {
            proof {
                if self.tentries@.len() > 0 {
                    assert(self.ee()[0] == entries_view(self.tentries@[0]@));
                }
            }
            return Err(msg("Invalid declaration: empty"));
        }
        assert(self.ee()[0] == entries_view(self.tentries@[0]@));
        if !self.tentries[0][0].is_card() {
            return Err(msg("First entry is not a card"));
        }
        if !self.same_value() {
            return Err(msg("Invalid declaration: Not all groups have the same value"));
        }
        if !has_two_entries(&self.tentries) {
            return Err(msg("Invalid declaration: Need more than one cards"));
        }
        match self.validate_bounded() {
            Ok(()) => {},
            Err(e) => return Err(e),
        }
        let value = self.value();
        let hc = self.handcard();
        let mut k: usize = 0;
        while k < hand.cards.len()
            invariant
                0 <= k <= hand@.len(),
                self.ee().len() > 0 && self.ee()[0].len() > 0,
                self.ee()[0][0] == EntryView::Card(hc),
                decl_same_value(self.ee()),
                total_len(self.ee()) >= 2,
                value == decl_value(self.ee()),
                1 <= value <= 10,
                forall|m: int| 0 <= m < k ==> !((#[trigger] hand@[m]) != hc && hand@[m].rank.0 == value),
            decreases hand.cards.len() - k,
        {
            if hand.cards[k] != hc && hand.cards[k].rank.0 == value {
                assert(hand@[k as int] != hc && hand@[k as int].rank.0 == value);
                return Ok(());
            }
            k = k + 1;
        }
        let mut m = msg("Invalid declaration: There is no value ");
        m.append(u8_to_decimal(value).as_str());
        m.append(" card in your hand");
        Err(m)
    }

    /// Validates a declaration of a player who has none on the table.
    pub fn validate_decl(&self, _table: &Table, hand: &Deck) -> (r: Result<(), String>)
        ensures
            r is Ok <==> decl_ok(self.ee(), hand@),
    {
        match self.validate_decl_base(hand) {
            Ok(()) => {},
            Err(e) => return Err(e),
        }
        let value = self.value();
        match single_decl(&self.tentries) {
            GetSingleRes::Zero => {
                assert forall|d: DeclView| #[trigger] sole_decl(self.ee(), d) implies false by {
                    lemma_no_decl_not_sole(self.ee(), d);
                }
                Ok(())
            },
            GetSingleRes::OnlyOne(d) => {
                proof {
                    lemma_sole_not_two(self.ee(), d@);
                    assert forall|d2: DeclView| #[trigger] sole_decl(self.ee(), d2) implies d2 == d@ by {
                        lemma_sole_unique(self.ee(), d@, d2);
                    }
                }
                if d.value() != value && d.is_group() {
                    Err(msg("You may not raise group declarations"))
                } else {
                    Ok(())
                }
            },
            GetSingleRes::MoreThanOne => {
                Err(msg("You may not combine more than one declaration to form a new one"))
            },
        }
    }

    /// Validates a declaration of a player whose declaration `decl` is on the table:
    /// they may only add to it, without raising it.
    pub fn validate_decl_continuation(&self, decl: &Declaration, _table: &Table, hand: &Deck) -> (r: Result<
        (),
        String,
    >)
        ensures
            r is Ok <==> decl_continuation_ok(self.ee(), decl@, hand@),
    {
        match self.validate_decl_base(hand) {
            Ok(()) => {},
            Err(e) => return Err(e),
        }
        let value = self.value();
        match single_decl(&self.tentries) {
            GetSingleRes::Zero => {
                proof {
                    lemma_no_decl_not_sole(self.ee(), decl@);
                }
                Err(msg("You cannot create a new declaration if you have one on the table"))
            },
            GetSingleRes::OnlyOne(d) => {
                if !d.eq(decl) {
                    proof {
                        if sole_decl(self.ee(), decl@) {
                            lemma_sole_unique(self.ee(), d@, decl@);
                        }
                    }
                    Err(msg("You cannot act on a declaration other than your latest one"))
                } else if d.value() != value {
                    Err(msg("You may not raise your declaration"))
                } else {
                    Ok(())
                }
            },
            GetSingleRes::MoreThanOne => {
                proof {
                    lemma_no_decl_not_sole(self.ee(), decl@);
                }
                Err(msg("You may not combine more than one declaration to form a new one"))
            },
        }
    }
}

/// Validates laying down a card: no entry on the table may have its value.
pub fn validate_laydown(card: Card, table: &Table) -> (r: Result<(), String>)
    ensures
        r is Ok <==> laydown_ok(card, table@),
{
    let mut i: usize = 0;
    while i < table.entries.len()
        invariant
            0 <= i <= table@.len(),
            forall|k: int| 0 <= k < i ==> (#[trigger] table@[k]).value() != card.rank.0,
        decreases table.entries.len() - i,
    {
        if table.entries[i].value() == card.rank.0 {
            assert(table@[i as int].value() == card.rank.0);
            return Err(msg(
                "You cannot lay down a card if a card or declaration with the same value exists on the table.",
            ));
        }
        i = i + 1;
    }
    Ok(())
}

/// The cards of all entries of all groups, as a multiset.
pub open spec fn ee_ms(ee: Seq<Seq<EntryView>>) -> vstd::multiset::Multiset<Card>
    decreases ee.len(),
{
    if ee.len() == 0 {
        vstd::multiset::Multiset::empty()
    } else {
        ee_ms(ee.drop_last()).add(crate::table::entries_ms(ee.last()))
    }
}

impl CaptureAction {
    pub open spec fn ee(&self) -> Seq<Seq<EntryView>> {
        ee_view(self.tentries)
    }

    pub fn value(&self) -> (r: u8)
        ensures
            r == self.handcard.rank.0,
    {
        self.handcard.rank.0
    }

    /// Whether every group sums to the hand card's value.
    pub fn same_value(&self) -> (r: bool)
        ensures
            r == forall|i: int| 0 <= i < self.ee().len() ==> group_val(#[trigger] self.ee()[i]) == self.handcard.rank.0,
    {
        let val = self.value();
        let mut i: usize = 0;
        while i < self.tentries.len()
            invariant
                val == self.handcard.rank.0,
                0 <= i <= self.ee().len(),
                forall|k: int| 0 <= k < i ==> group_val(#[trigger] self.ee()[k]) == val,
            decreases self.tentries.len() - i,
        {
            assert(self.ee()[i as int] == entries_view(self.tentries@[i as int]@));
            let val_g = entries_value(&self.tentries[i]);
            if val != val_g {
                return false;
            }
            i = i + 1;
        }
        true
    }

    pub fn validate_capture(&self, table: &Table) -> (r: Result<(), String>)
        ensures
            r is Ok <==> capture_ok(self.handcard, self.ee(), table@),
    {
        if self.tentries.len() == 0 || self.tentries[0].len() == 0 {
            proof {
                if self.tentries@.len() > 0 {
                    assert(self.ee()[0] == entries_view(self.tentries@[0]@));
                }
            }
            return Err(msg("Invalid capture: empty"));
        }
        assert(self.ee()[0] == entries_view(self.tentries@[0]@));
        if !self.same_value() {
            return Err(msg("Invalid capture: Not all groups have the same value"));
        }
        if self.handcard.rank.is_figure() {
            let mut i: usize = 0;
            while i < self.tentries.len()
                invariant
                    0 <= i <= self.ee().len(),
                    self.handcard.rank.0 >= 11,
                    forall|k: int| 0 <= k < i ==> (#[trigger] self.ee()[k]).len() == 1 && self.ee()[k][0] is Card,
                decreases self.tentries.len() - i,
            {
                assert(self.ee()[i as int] == entries_view(self.tentries@[i as int]@));
                if self.tentries[i].len() != 1 {
                    assert(self.ee()[i as int].len() != 1);
                    return Err(msg("Invalid capture: Figures cannot be used to capture multiple cards"));
                }
                assert(self.ee()[i as int][0] == self.tentries@[i as int]@[0]@);
                if !self.tentries[i][0].is_card() {
                    assert(!(self.ee()[i as int][0] is Card));
                    return Err(msg("Invalid capture: Figures cannot capture declarations"));
                }
                i = i + 1;
            }
            let ncaptured = self.tentries.len();
            let ntable = table.count_cards_with_val(self.value());
            if ncaptured == 2 && ntable == 2 {
                return Err(msg("Invalid capture: if 2 same figures exist on the table, only one can be captured."));
            }
            if ntable == 3 && ncaptured != 3 {
                return Err(msg("Invalid capture: if 3 same figures exist on the table, all three must be captured."));
            }
            if !((ncaptured == 1 && ntable == 1) || (ncaptured == 1 && ntable == 2) || (ncaptured == 3
                && ntable == 3)) {
                return Err(msg("Invalid capture: the figures do not match the table."));
            }
        }
        Ok(())
    }

    /// The cards of all chosen entries.
    pub fn get_table_cards(&self) -> (r: Vec<Card>)
        ensures
            r@.to_multiset() == ee_ms(self.ee()),
            r@ == crate::table::cards_of(crate::game::flat_targets(self.ee())),
    {
        let ghost ee = self.ee();
        let mut ret: Vec<Card> = Vec::new();
        let mut i: usize = 0;
        proof {
            assert(ret@.to_multiset() =~= vstd::multiset::Multiset::<Card>::empty()) by {
                broadcast use vstd::seq_lib::group_to_multiset_ensures;
            }
            assert(ee.subrange(0, 0) =~= Seq::<Seq<EntryView>>::empty());
            assert(ret@ =~= crate::table::cards_of(crate::game::flat_targets(ee.subrange(0, 0))));
        }
        while i < self.tentries.len()
            invariant
                ee == self.ee(),
                0 <= i <= ee.len(),
                ret@.to_multiset() == ee_ms(ee.subrange(0, i as int)),
                ret@ == crate::table::cards_of(crate::game::flat_targets(ee.subrange(0, i as int))),
            decreases self.tentries.len() - i,
        {
            let g = &self.tentries[i];
            let ghost gv = entries_view(g@);
            assert(ee[i as int] == gv);
            let ghost base = ret@.to_multiset();
            let mut j: usize = 0;
            proof {
                assert(crate::game::flat_targets(ee.subrange(0, i as int)) + gv.subrange(0, 0) =~= crate::game::flat_targets(ee.subrange(0, i as int)));
                assert(gv.subrange(0, 0) =~= Seq::<EntryView>::empty());
                assert(base.add(crate::table::entries_ms(gv.subrange(0, 0))) =~= base);
            }
            while j < g.len()
                invariant
                    gv == entries_view(g@),
                    0 <= j <= g@.len(),
                    ret@.to_multiset() == base.add(crate::table::entries_ms(gv.subrange(0, j as int))),
                    ee == self.ee(),
                    0 <= i < ee.len(),
                    ret@ == crate::table::cards_of(crate::game::flat_targets(ee.subrange(0, i as int)) + gv.subrange(0, j as int)),
                decreases g.len() - j,
            {
                let ghost pre = crate::game::flat_targets(ee.subrange(0, i as int)) + gv.subrange(0, j as int);
                let ghost pre2 = crate::game::flat_targets(ee.subrange(0, i as int)) + gv.subrange(0, j + 1);
                let ghost r0 = ret@;
                proof {
                    assert(pre2.drop_last() =~= pre);
                    assert(pre2.last() == gv[j as int]);
                }
                assert(gv.subrange(0, j + 1).drop_last() =~= gv.subrange(0, j as int));
                assert(gv[j as int] == g@[j as int]@);
                match &g[j] {
                    TableEntry::Card(c) => {
                        ret.push(*c);
                        proof {
                            broadcast use vstd::seq_lib::group_to_multiset_ensures;
                            assert(vstd::multiset::Multiset::singleton(*c)
                                =~= vstd::multiset::Multiset::<Card>::empty().insert(*c));
                            assert(ret@.to_multiset() =~= base.add(crate::table::entries_ms(gv.subrange(0, j + 1))));
                        }
                    },
                    TableEntry::Decl(d) => {
                        append_groups(&mut ret, &d.cards);
                        assert(ret@.to_multiset() =~= base.add(crate::table::entries_ms(gv.subrange(0, j + 1))));
                    },
                }
                assert(ret@ =~= r0 + crate::table::entry_cards(gv[j as int]));
                j = j + 1;
            }
            assert(gv.subrange(0, g@.len() as int) =~= gv);
            assert(ee.subrange(0, i + 1).drop_last() =~= ee.subrange(0, i as int));
            assert(ee.subrange(0, i + 1).last() == gv);
            assert(crate::game::flat_targets(ee.subrange(0, i as int)) + gv.subrange(0, g@.len() as int) =~= crate::game::flat_targets(ee.subrange(0, i + 1)));
            i = i + 1;
        }
        assert(ee.subrange(0, ee.len() as int) =~= ee);
        ret
    }
}

/// Whether an action is legal for the player at `pid`, given whether it is their
/// turn, the table and their hand: a player with a declaration on the table may not
/// lay down a card, and may declare only by adding to that declaration.
pub open spec fn action_ok_parts(
    my_turn: bool,
    pid: PlayerTpos,
    table: Seq<EntryView>,
    hand: Seq<Card>,
    a: PlayerAction,
) -> bool {
    &&& my_turn
    &&& match a {
        PlayerAction::LayDown(c) => first_decl(table, pid) is None && laydown_ok(c, table),
        PlayerAction::Capture(ca) => capture_ok(ca.handcard, ca.ee(), table),
        PlayerAction::Declare(da) => match first_decl(table, pid) {
            None => decl_ok(da.ee(), hand),
            Some(d) => decl_continuation_ok(da.ee(), d, hand),
        },
    }
}

/// Whether an action is legal from a player's point of view.
pub open spec fn action_ok(view: PlayerGameView, a: PlayerAction) -> bool {
    action_ok_parts(view.my_turn(), view.pid, view.table@, view.own_hand@, a)
}

impl PlayerAction {
    /// Validates the action from a player's point of view. Whether the entries it
    /// names are on the table is checked when it is applied.
    pub fn validate(&self, view: &PlayerGameView) -> (r: Result<(), String>)
        ensures
            r is Ok <==> action_ok(*view, *self),
    {
        if !view.is_my_turn() {
            return Err(msg("Not this player's turn"));
        }
        let player_decl = view.table.find_decl_from(view.pid);
        match (player_decl, self) {
            (None, PlayerAction::LayDown(c)) => validate_laydown(*c, &view.table),
            (Some(_), PlayerAction::LayDown(_)) => Err(
                msg("Cannot lay down a card when a declaration of yours exists."),
            ),
            (_, PlayerAction::Capture(ca)) => ca.validate_capture(&view.table),
            (None, PlayerAction::Declare(da)) => da.validate_decl(&view.table, &view.own_hand),
            (Some(d), PlayerAction::Declare(da)) => da.validate_decl_continuation(d, &view.table, &view.own_hand),
        }
    }
}


fn copy_entries(v: &Vec<TableEntry>) -> (r: Vec<TableEntry>)
    ensures
        entries_view(r@) == entries_view(v@),
{
    let mut out: Vec<TableEntry> = Vec::new();
    let mut i: usize = 0;
    while i < v.len()
        invariant
            0 <= i <= v@.len(),
            out@.len() == i,
            entries_view(out@) == entries_view(v@).subrange(0, i as int),
        decreases v.len() - i,
    {
        let e = v[i].duplicate();
        let ghost o0 = out@;
        out.push(e);
        assert(out@ == o0.push(e));
        assert(entries_view(out@) =~= entries_view(v@).subrange(0, i + 1));
        i = i + 1;
    }
    assert(entries_view(v@).subrange(0, v@.len() as int) =~= entries_view(v@));
    out
}

fn copy_ee(v: &Vec<Vec<TableEntry>>) -> (r: Vec<Vec<TableEntry>>)
    ensures
        ee_view(r) == ee_view(*v),
{
    let mut out: Vec<Vec<TableEntry>> = Vec::new();
    let mut i: usize = 0;
    while i < v.len()
        invariant
            0 <= i <= v@.len(),
            out@.len() == i,
            ee_view(out) == ee_view(*v).subrange(0, i as int),
        decreases v.len() - i,
    {
        let g = copy_entries(&v[i]);
        let ghost o0 = out@;
        let ghost e0 = ee_view(out);
        out.push(g);
        assert(out@ == o0.push(g));
        assert(ee_view(out) =~= e0.push(entries_view(g@)));
        assert(ee_view(out) =~= ee_view(*v).subrange(0, i + 1));
        i = i + 1;
    }
    assert(ee_view(*v).subrange(0, v@.len() as int) =~= ee_view(*v));
    out
}

/// Whether an entry is among some entries.
fn contains_entry(v: &Vec<TableEntry>, te: &TableEntry) -> (r: bool)
    ensures
        r == entries_view(v@).contains(te@),
{
    let mut i: usize = 0;
    while i < v.len()
        invariant
            0 <= i <= v@.len(),
            forall|k: int| 0 <= k < i ==> entries_view(v@)[k] != te@,
        decreases v.len() - i,
    {
        assert(entries_view(v@)[i as int] == v@[i as int]@);
        if v[i].eq(te) {
            return true;
        }
        i = i + 1;
    }
    false
}

/// Adds an entry to a set of entries, kept without repetitions.
fn set_insert(v: &mut Vec<TableEntry>, te: &TableEntry)
    ensures
        entries_view(old(v)@).contains(te@) ==> entries_view(final(v)@) == entries_view(old(v)@),
        !entries_view(old(v)@).contains(te@) ==> entries_view(final(v)@) == entries_view(old(v)@).push(te@),
{
    if !contains_entry(v, te) {
        let e = te.duplicate();
        let ghost v0 = v@;
        v.push(e);
        assert(v@ == v0.push(e));
        assert(entries_view(v@) =~= entries_view(v0).push(te@));
    }
}

/// Builds a declaration entry by entry: entries gather in `current` until they
/// reach the declared value, then form a group of the action.
#[derive(Debug, Clone)]
pub struct DeclActionBuilder {
    pub value: u8,
    pub current: Vec<TableEntry>,
    /// the entries added so far, without repetitions
    pub entries_set: Vec<TableEntry>,
    pub action: DeclAction,
}

impl DeclActionBuilder {
    /// The hand card sits first: in the first group, or in `current` while that
    /// group is not complete.
    pub open spec fn wf(&self) -> bool {
        &&& 1 <= self.value <= 10
        &&& ({
            let ee = self.action.ee();
            let cur = entries_view(self.current@);
            (ee.len() > 0 && ee[0].len() > 0 && ee[0][0] is Card && ee[0][0]->Card_0.rank.0 <= self.value) || (ee.len()
                == 0 && cur.len() > 0 && cur[0] is Card && cur[0]->Card_0.rank.0 <= self.value)
        })
    }

    pub open spec fn hand_card_spec(&self) -> Card {
        if self.action.ee().len() > 0 {
            self.action.ee()[0][0]->Card_0
        } else {
            entries_view(self.current@)[0]->Card_0
        }
    }

    /// A builder for a declaration of `value` with the hand card `hcard`.
    pub fn new(hcard: &Card, value: u8) -> (r: Result<DeclActionBuilder, String>)
        ensures
            r is Ok <==> 1 <= value <= 10 && hcard.rank.0 <= value,
            r is Ok ==> ({
                let b = r->Ok_0;
                &&& b.wf()
                &&& b.value == value
                &&& b.hand_card_spec() == *hcard
                &&& b.entries_set@.len() == 0
                &&& hcard.rank.0 == value ==> b.action.ee() == seq![seq![EntryView::Card(*hcard)]] && b.current@.len() == 0
                &&& hcard.rank.0 < value ==> b.action.ee().len() == 0 && entries_view(b.current@) == seq![EntryView::Card(*hcard)]
            }),
    {
        if value < 1 || value > 10 {
            let mut m = msg("Invalid value: ");
            m.append(u8_to_decimal(value).as_str());
            return Err(m);
        }
        let mut current: Vec<TableEntry> = Vec::new();
        let mut tentries: Vec<Vec<TableEntry>> = Vec::new();
        let tentry = TableEntry::Card(*hcard);
        if hcard.rank.0 > value {
            return Err(msg("Rank of hand card is larger than the declaration value"));
        } else if hcard.rank.0 == value {
            let mut g: Vec<TableEntry> = Vec::new();
            g.push(tentry);
            tentries.push(g);
            assert(ee_view(tentries) =~= seq![seq![EntryView::Card(*hcard)]]) by {
                assert(entries_view(g@) =~= seq![EntryView::Card(*hcard)]);
            }
        } else {
            current.push(tentry);
            assert(entries_view(current@) =~= seq![EntryView::Card(*hcard)]);
            assert(ee_view(tentries) =~= Seq::<Seq<EntryView>>::empty());
        }
        Ok(DeclActionBuilder {
            value: value,
            current: current,
            entries_set: Vec::new(),
            action: DeclAction { tentries: tentries },
        })
    }

    pub fn hand_card(&self) -> (r: Card)
        requires
            self.wf(),
        ensures
            r == self.hand_card_spec(),
    {
        if self.action.tentries.len() > 0 {
            assert(self.action.ee()[0] == entries_view(self.action.tentries@[0]@));
            assert(self.action.ee()[0][0] == self.action.tentries@[0]@[0]@);
            match &self.action.tentries[0][0] {
                TableEntry::Card(c) => *c,
                TableEntry::Decl(_) => vstd::pervasive::unreached(),
            }
        } else {
            assert(entries_view(self.current@)[0] == self.current@[0]@);
            match &self.current[0] {
                TableEntry::Card(c) => *c,
                TableEntry::Decl(_) => vstd::pervasive::unreached(),
            }
        }
    }

    /// Starts over with the same hand card and value.
    pub fn reset(&mut self)
        requires
            old(self).wf(),
        ensures
            final(self).wf(),
            final(self).value == old(self).value,
            final(self).hand_card_spec() == old(self).hand_card_spec(),
            final(self).entries_set@.len() == 0,
            ({
                let hc = old(self).hand_card_spec();
                &&& hc.rank.0 == old(self).value ==> final(self).action.ee() == seq![seq![EntryView::Card(hc)]]
                    && final(self).current@.len() == 0
                &&& hc.rank.0 < old(self).value ==> final(self).action.ee().len() == 0 && entries_view(
                    final(self).current@,
                ) == seq![EntryView::Card(hc)]
            }),
    {
        let hc = self.hand_card();
        match DeclActionBuilder::new(&hc, self.value) {
            Ok(b) => {
                *self = b;
            },
            Err(_) => {},
        }
    }

    /// Whether a declaration is among the added entries.
    pub fn has_decl(&self) -> (r: bool)
        ensures
            r == exists|i: int| 0 <= i < self.entries_set@.len() && (#[trigger] self.entries_set@[i]) is Decl,
    {
        let mut i: usize = 0;
        while i < self.entries_set.len()
            invariant
                0 <= i <= self.entries_set@.len(),
                forall|k: int| 0 <= k < i ==> !((#[trigger] self.entries_set@[k]) is Decl),
            decreases self.entries_set.len() - i,
        {
            if self.entries_set[i].is_decl() {
                return true;
            }
            i = i + 1;
        }
        false
    }

    /// Ready once every group is complete and some table entry was added.
    pub fn is_ready(&self) -> (r: bool)
        ensures
            r == (self.current@.len() == 0 && self.entries_set@.len() > 0),
    {
        self.current.len() == 0 && self.entries_set.len() > 0
    }

    fn current_value(&self) -> (r: u8)
        ensures
            r == group_val(entries_view(self.current@)),
    {
        entries_value(&self.current)
    }

    /// Adds a table entry. It fails when it would exceed the declared value, when it
    /// is a second declaration, or when it is a group declaration of another value.
    pub fn add_table_entry(&mut self, tentry: &TableEntry) -> (r: Result<(), String>)
        requires
            old(self).wf(),
        ensures
            final(self).wf(),
            final(self).value == old(self).value,
            final(self).hand_card_spec() == old(self).hand_card_spec(),
            ({
                let cur = group_val(entries_view(old(self).current@)) as int;
                let v = tentry@.value() as int;
                let has_decl = exists|i: int| 0 <= i < old(self).entries_set@.len() && (#[trigger] old(self).entries_set@[i]) is Decl;
                &&& r is Err <==> (cur + v > old(self).value || (tentry@ is Decl && has_decl) || (tentry@ is Decl
                    && tentry@->Decl_0.groups.len() > 1 && tentry@.value() != old(self).value))
                &&& r is Err ==> final(self).current@ == old(self).current@ && final(self).action.ee() == old(self).action.ee()
                    && final(self).entries_set@ == old(self).entries_set@
                &&& r is Ok && cur + v == old(self).value ==> final(self).action.ee() == old(self).action.ee().push(
                    entries_view(old(self).current@).push(tentry@)) && final(self).current@.len() == 0
                &&& r is Ok && cur + v < old(self).value ==> final(self).action.ee() == old(self).action.ee()
                    && entries_view(final(self).current@) == entries_view(old(self).current@).push(tentry@)
                &&& r is Ok ==> (entries_view(old(self).entries_set@).contains(tentry@) ==> entries_view(final(self).entries_set@)
                    == entries_view(old(self).entries_set@)) && (!entries_view(old(self).entries_set@).contains(tentry@)
                    ==> entries_view(final(self).entries_set@) == entries_view(old(self).entries_set@).push(tentry@))
            }),
    {
        let ret = self.do_add_table_entry(tentry);
        if ret.is_ok() {
            set_insert(&mut self.entries_set, tentry);
        }
        ret
    }

    fn do_add_table_entry(&mut self, tentry: &TableEntry) -> (r: Result<(), String>)
        requires
            old(self).wf(),
        ensures
            final(self).wf(),
            final(self).value == old(self).value,
            final(self).hand_card_spec() == old(self).hand_card_spec(),
            final(self).entries_set@ == old(self).entries_set@,
            ({
                let cur = group_val(entries_view(old(self).current@)) as int;
                let v = tentry@.value() as int;
                let has_decl = exists|i: int| 0 <= i < old(self).entries_set@.len() && (#[trigger] old(self).entries_set@[i]) is Decl;
                &&& r is Err <==> (cur + v > old(self).value || (tentry@ is Decl && has_decl) || (tentry@ is Decl
                    && tentry@->Decl_0.groups.len() > 1 && tentry@.value() != old(self).value))
                &&& r is Err ==> final(self).current@ == old(self).current@ && final(self).action.ee() == old(self).action.ee()
                &&& r is Ok && cur + v == old(self).value ==> final(self).action.ee() == old(self).action.ee().push(
                    entries_view(old(self).current@).push(tentry@)) && final(self).current@.len() == 0
                &&& r is Ok && cur + v < old(self).value ==> final(self).action.ee() == old(self).action.ee()
                    && entries_view(final(self).current@) == entries_view(old(self).current@).push(tentry@)
            }),
    {
        let cv = self.current_value();
        let tv = tentry.value();
        if cv as u16 + tv as u16 > self.value as u16 {
            return Err(msg("Cannot add entry to current declaration (it will exceed declared value)"));
        }
        let current_value = cv + tv;
        match tentry {
            TableEntry::Decl(tdecl) => {
                if self.has_decl() {
                    return Err(msg("Cannot add more than one declaration"));
                }
                if tdecl.is_group() && tdecl.value() != self.value {
                    return Err(msg("Cannot add a group declaration to a raise"));
                }
            },
            _ => {},
        }
        let e = tentry.duplicate();
        let ghost c0 = self.current@;
        self.current.push(e);
        assert(entries_view(self.current@) =~= entries_view(c0).push(tentry@));
        if current_value == self.value {
            let curr = copy_entries(&self.current);
            self.current = Vec::new();
            let ghost t0 = self.action.tentries@;
            let ghost e0 = self.action.ee();
            self.action.tentries.push(curr);
            assert(self.action.tentries@ == t0.push(curr));
            assert(self.action.ee() =~= e0.push(entries_view(curr@)));
        }
        Ok(())
    }

    /// Whether an entry was added.
    pub fn has_tentry(&self, tentry: &TableEntry) -> (r: bool)
        ensures
            r == entries_view(self.entries_set@).contains(tentry@),
    {
        contains_entry(&self.entries_set, tentry)
    }

    pub fn make_decl_action(&self) -> (r: DeclAction)
        requires
            self.current@.len() == 0 && self.entries_set@.len() > 0,
        ensures
            r.ee() == self.action.ee(),
    {
        DeclAction { tentries: copy_ee(&self.action.tentries) }
    }

    pub fn make_action(&self) -> (r: PlayerAction)
        requires
            self.current@.len() == 0 && self.entries_set@.len() > 0,
        ensures
            r is Declare && r->Declare_0.ee() == self.action.ee(),
    {
        PlayerAction::Declare(self.make_decl_action())
    }
}

/// Builds a capture entry by entry: cards gather in `current` until they reach the
/// hand card's value, then form a group; a declaration of that value is a group of
/// its own.
#[derive(Debug, Clone)]
pub struct CaptureActionBuilder {
    pub action: CaptureAction,
    pub current: Vec<TableEntry>,
    /// the entries added so far, without repetitions
    pub entries_set: Vec<TableEntry>,
}

impl CaptureActionBuilder {
    pub fn new(hcard: &Card) -> (r: CaptureActionBuilder)
        ensures
            r.action.handcard == *hcard,
            r.action.ee().len() == 0,
            r.current@.len() == 0,
            r.entries_set@.len() == 0,
    {
        let r = CaptureActionBuilder {
            action: CaptureAction { handcard: *hcard, tentries: Vec::new() },
            current: Vec::new(),
            entries_set: Vec::new(),
        };
        assert(r.action.ee() =~= Seq::<Seq<EntryView>>::empty());
        r
    }

    /// Starts over with the same hand card.
    pub fn reset(&mut self)
        ensures
            final(self).action.handcard == old(self).action.handcard,
            final(self).action.ee().len() == 0,
            final(self).current@.len() == 0,
            final(self).entries_set@.len() == 0,
    {
        *self = CaptureActionBuilder::new(&self.action.handcard);
    }

    /// Ready once every group is complete and there is at least one.
    pub fn is_ready(&self) -> (r: bool)
        ensures
            r == (self.current@.len() == 0 && self.action.ee().len() > 0),
    {
        self.current.len() == 0 && self.action.tentries.len() > 0
    }

    fn current_value(&self) -> (r: u8)
        ensures
            r == group_val(entries_view(self.current@)),
    {
        entries_value(&self.current)
    }

    /// Adds a table entry to the capture.
    pub fn add_table_entry(&mut self, tentry: &TableEntry) -> (r: Result<(), String>)
        ensures
            final(self).action.handcard == old(self).action.handcard,
            r is Err <==> !capture_entry_ok(old(self).action.handcard, entries_view(old(self).current@), tentry@),
            r is Err ==> final(self).current@ == old(self).current@ && final(self).action.ee() == old(self).action.ee()
                && final(self).entries_set@ == old(self).entries_set@,
            r is Ok ==> capture_entry_next(old(self).action.handcard, old(self).action.ee(), entries_view(old(self).current@), tentry@)
                == (final(self).action.ee(), entries_view(final(self).current@)),
            r is Ok ==> (entries_view(old(self).entries_set@).contains(tentry@) ==> entries_view(final(self).entries_set@)
                == entries_view(old(self).entries_set@)) && (!entries_view(old(self).entries_set@).contains(tentry@)
                ==> entries_view(final(self).entries_set@) == entries_view(old(self).entries_set@).push(tentry@)),
    {
        let ret = self.do_add_table_entry(tentry);
        if ret.is_ok() {
            set_insert(&mut self.entries_set, tentry);
        }
        ret
    }

    pub fn has_tentry(&self, tentry: &TableEntry) -> (r: bool)
        ensures
            r == entries_view(self.entries_set@).contains(tentry@),
    {
        contains_entry(&self.entries_set, tentry)
    }

    fn do_add_table_entry(&mut self, tentry: &TableEntry) -> (r: Result<(), String>)
        ensures
            final(self).action.handcard == old(self).action.handcard,
            final(self).entries_set@ == old(self).entries_set@,
            r is Err <==> !capture_entry_ok(old(self).action.handcard, entries_view(old(self).current@), tentry@),
            r is Err ==> final(self).current@ == old(self).current@ && final(self).action.ee() == old(self).action.ee(),
            r is Ok ==> capture_entry_next(old(self).action.handcard, old(self).action.ee(), entries_view(old(self).current@), tentry@)
                == (final(self).action.ee(), entries_view(final(self).current@)),
    {
        let handc = self.action.handcard;
        let val = self.action.value();
        if handc.rank.is_figure() {
            match tentry {
                TableEntry::Card(c) => {
                    if c.rank != handc.rank {
                        return Err(msg("You cannot capture a card of another figure"));
                    }
                },
                TableEntry::Decl(_) => {
                    return Err(msg("Cannot capture declarations with a figure"));
                },
            }
        }
        match tentry {
            TableEntry::Decl(tdecl) => {
                if self.current.len() == 0 && tdecl.value() == val {
                    let e = tentry.duplicate();
                    let mut g: Vec<TableEntry> = Vec::new();
                    g.push(e);
                    let ghost t0 = self.action.tentries@;
                    let ghost e0 = self.action.ee();
                    self.action.tentries.push(g);
                    assert(self.action.tentries@ == t0.push(g));
                    assert(entries_view(g@) =~= seq![tentry@]);
                    assert(self.action.ee() =~= e0.push(seq![tentry@]));
                    Ok(())
                } else {
                    Err(msg("Declarations must be picked up on their own"))
                }
            },
            TableEntry::Card(_) => {
                let cv = self.current_value();
                let tv = tentry.value();
                if cv as u16 + tv as u16 > val as u16 {
                    return Err(msg("Cannot add entry to current capture (it will exceed the card's value)"));
                }
                let e = tentry.duplicate();
                let ghost c0 = self.current@;
                self.current.push(e);
                assert(entries_view(self.current@) =~= entries_view(c0).push(tentry@));
                if cv + tv == val {
                    let curr = copy_entries(&self.current);
            self.current = Vec::new();
                    let ghost t0 = self.action.tentries@;
                    let ghost e0 = self.action.ee();
                    self.action.tentries.push(curr);
                    assert(self.action.tentries@ == t0.push(curr));
                    assert(self.action.ee() =~= e0.push(entries_view(curr@)));
                    assert(entries_view(self.current@) =~= Seq::<EntryView>::empty());
                }
                Ok(())
            },
        }
    }

    fn make_capture_action(&self) -> (r: CaptureAction)
        requires
            self.current@.len() == 0 && self.action.ee().len() > 0,
        ensures
            r.handcard == self.action.handcard && r.ee() == self.action.ee(),
    {
        CaptureAction { handcard: self.action.handcard, tentries: copy_ee(&self.action.tentries) }
    }

    pub fn make_action(&self) -> (r: PlayerAction)
        requires
            self.current@.len() == 0 && self.action.ee().len() > 0,
        ensures
            r is Capture && r->Capture_0.handcard == self.action.handcard && r->Capture_0.ee() == self.action.ee(),
    {
        PlayerAction::Capture(self.make_capture_action())
    }
}

/// Whether a capture can take an entry next: a figure takes only cards of its own
/// rank; a declaration of the capture's value goes alone; cards may not go past it.
pub open spec fn capture_entry_ok(hc: Card, cur: Seq<EntryView>, te: EntryView) -> bool {
    &&& hc.rank.0 >= 11 ==> (te is Card && te->Card_0.rank == hc.rank)
    &&& te is Decl ==> cur.len() == 0 && te.value() == hc.rank.0
    &&& te is Card ==> group_val(cur) + te.value() <= hc.rank.0
}

/// The groups and the open group after an entry was added to a capture.
pub open spec fn capture_entry_next(hc: Card, ee: Seq<Seq<EntryView>>, cur: Seq<EntryView>, te: EntryView) -> (
    Seq<Seq<EntryView>>,
    Seq<EntryView>,
) {
    if te is Decl {
        (ee.push(seq![te]), cur)
    } else if group_val(cur) + te.value() == hc.rank.0 {
        (ee.push(cur.push(te)), Seq::empty())
    } else {
        (ee, cur.push(te))
    }
}

} // verus!
