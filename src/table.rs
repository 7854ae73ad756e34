use vstd::prelude::*;
use vstd::multiset::Multiset;

use crate::card::Card;

verus! {

/// A player, identified by their position around the table.
#[derive(Debug, Clone, Copy, PartialEq, Eq, Structural, Hash)]
pub struct PlayerTpos(pub u8);

/// Groups of cards combined on the table, each group summing to the declared value.
#[derive(Debug, Clone, Hash)]
pub struct Declaration {
    /// groups of cards
    pub cards: Vec<Vec<Card>>,
    /// the last player that acted on this declaration
    pub player: PlayerTpos,
}

#[derive(Debug, Clone, Hash)]
pub enum TableEntry {
    Card(Card),
    Decl(Declaration),
}

#[derive(Debug, Clone)]
pub struct Table {
    pub entries: Vec<TableEntry>,
}

/// What a declaration holds.
pub struct DeclView {
    pub groups: Seq<Seq<Card>>,
    pub player: PlayerTpos,
}

/// What a table entry holds.
pub enum EntryView {
    Card(Card),
    Decl(DeclView),
}

/// The sum of the ranks of some cards.
pub open spec fn sum_vals(s: Seq<Card>) -> int
    decreases s.len(),
{
    if s.len() == 0 {
        0
    } else {
        sum_vals(s.drop_last()) + s.last().rank.0
    }
}

/// A sum as a byte, saturating at 255.
pub open spec fn clamp8(n: int) -> u8 {
    if n > 255 {
        255u8
    } else {
        n as u8
    }
}

/// The multiset of the cards in some groups.
pub open spec fn groups_ms(gs: Seq<Seq<Card>>) -> Multiset<Card>
    decreases gs.len(),
{
    if gs.len() == 0 {
        Multiset::empty()
    } else {
        groups_ms(gs.drop_last()).add(gs.last().to_multiset())
    }
}

/// The multiset of the cards in some table entries.
pub open spec fn entries_ms(es: Seq<EntryView>) -> Multiset<Card>
    decreases es.len(),
{
    if es.len() == 0 {
        Multiset::empty()
    } else {
        entries_ms(es.drop_last()).add(es.last().ms())
    }
}

impl DeclView {
    /// The declared value: the sum of the first group.
    pub open spec fn value(self) -> u8 {
        if self.groups.len() > 0 {
            clamp8(sum_vals(self.groups[0]))
        } else {
            0
        }
    }
}

impl EntryView {
    pub open spec fn value(self) -> u8 {
        match self {
            EntryView::Card(c) => c.rank.0,
            EntryView::Decl(d) => d.value(),
        }
    }

    pub open spec fn ms(self) -> Multiset<Card> {
        match self {
            EntryView::Card(c) => Multiset::singleton(c),
            EntryView::Decl(d) => groups_ms(d.groups),
        }
    }
}

pub open spec fn vv_view(v: Vec<Vec<Card>>) -> Seq<Seq<Card>> {
    v@.map_values(|g: Vec<Card>| g@)
}

impl View for Declaration {
    type V = DeclView;

    open spec fn view(&self) -> DeclView {
        DeclView { groups: vv_view(self.cards), player: self.player }
    }
}

impl View for TableEntry {
    type V = EntryView;

    open spec fn view(&self) -> EntryView {
        match self {
            TableEntry::Card(c) => EntryView::Card(*c),
            TableEntry::Decl(d) => EntryView::Decl(d@),
        }
    }
}

pub open spec fn entries_view(v: Seq<TableEntry>) -> Seq<EntryView> {
    v.map_values(|e: TableEntry| e@)
}

impl View for Table {
    type V = Seq<EntryView>;

    open spec fn view(&self) -> Seq<EntryView> {
        entries_view(self.entries@)
    }
}

pub proof fn lemma_entries_ms_push(es: Seq<EntryView>, e: EntryView)
    ensures
        entries_ms(es.push(e)) == entries_ms(es).add(e.ms()),
{
    assert(es.push(e).drop_last() =~= es);
}

pub proof fn lemma_groups_ms_push(gs: Seq<Seq<Card>>, g: Seq<Card>)
    ensures
        groups_ms(gs.push(g)) == groups_ms(gs).add(g.to_multiset()),
{
    assert(gs.push(g).drop_last() =~= gs);
}

/// Removing one entry takes exactly that entry's cards out of the multiset.
pub proof fn lemma_entries_ms_remove(es: Seq<EntryView>, i: int)
    requires
        0 <= i < es.len(),
    ensures
        entries_ms(es) == entries_ms(es.remove(i)).add(es[i].ms()),
    decreases es.len(),
{
    if i == es.len() - 1 {
        assert(es.remove(i) =~= es.drop_last());
    } else {
        lemma_entries_ms_remove(es.drop_last(), i);
        assert(es.remove(i).drop_last() =~= es.drop_last().remove(i));
        assert(es.remove(i).last() == es.last());
        assert(entries_ms(es) =~= entries_ms(es.remove(i)).add(es[i].ms()));
    }
}

pub proof fn lemma_entries_ms_empty(es: Seq<EntryView>)
    requires
        es.len() == 0,
    ensures
        entries_ms(es) == Multiset::<Card>::empty(),
{
}

/// The cards of a sequence of groups, concatenated.
pub proof fn lemma_groups_ms_concat(a: Seq<Seq<Card>>, b: Seq<Seq<Card>>)
    ensures
        groups_ms(a + b) == groups_ms(a).add(groups_ms(b)),
    decreases b.len(),
{
    if b.len() == 0 {
        assert(a + b =~= a);
        assert(groups_ms(a).add(groups_ms(b)) =~= groups_ms(a));
    } else {
        lemma_groups_ms_concat(a, b.drop_last());
        assert((a + b).drop_last() =~= a + b.drop_last());
        assert((a + b).last() == b.last());
        assert(groups_ms(a + b) =~= groups_ms(a).add(groups_ms(b)));
    }
}

pub proof fn lemma_sum_vals_nonneg(s: Seq<Card>)
    ensures
        sum_vals(s) >= 0,
    decreases s.len(),
{
    if s.len() > 0 {
        lemma_sum_vals_nonneg(s.drop_last());
    }
}

fn group_value(g: &Vec<Card>) -> (r: u8)
    ensures
        r == clamp8(sum_vals(g@)),
{
    let mut acc: u8 = 0;
    let mut i: usize = 0;
    while i < g.len()
        invariant
            0 <= i <= g@.len(),
            acc == clamp8(sum_vals(g@.subrange(0, i as int))),
        decreases g.len() - i,
    {
        assert(g@.subrange(0, i + 1).drop_last() =~= g@.subrange(0, i as int));
        let v = g[i].rank.0;
        proof {
            lemma_sum_vals_nonneg(g@.subrange(0, i as int));
            assert(sum_vals(g@.subrange(0, i + 1)) == sum_vals(g@.subrange(0, i as int)) + v);
        }
        if acc as u16 + v as u16 > 255 {
            acc = 255;
        } else {
            acc = acc + v;
        }
        i = i + 1;
    }
    assert(g@.subrange(0, g@.len() as int) =~= g@);
    acc
}

fn cards_eq(a: &Vec<Card>, b: &Vec<Card>) -> (r: bool)
    ensures
        r == (a@ == b@),
{
    if a.len() != b.len() {
        return false;
    }
    let mut i: usize = 0;
    while i < a.len()
        invariant
            a@.len() == b@.len(),
            0 <= i <= a@.len(),
            forall|j: int| 0 <= j < i ==> a@[j] == b@[j],
        decreases a.len() - i,
    {
        if a[i] != b[i] {
            return false;
        }
        i = i + 1;
    }
    assert(a@ =~= b@);
    true
}

fn groups_eq(a: &Vec<Vec<Card>>, b: &Vec<Vec<Card>>) -> (r: bool)
    ensures
        r == (vv_view(*a) == vv_view(*b)),
{
    if a.len() != b.len() {
        assert(vv_view(*a).len() != vv_view(*b).len());
        return false;
    }
    let mut i: usize = 0;
    while i < a.len()
        invariant
            a@.len() == b@.len(),
            0 <= i <= a@.len(),
            forall|j: int| 0 <= j < i ==> a@[j]@ == b@[j]@,
        decreases a.len() - i,
    {
        if !cards_eq(&a[i], &b[i]) {
            assert(vv_view(*a)[i as int] != vv_view(*b)[i as int]);
            return false;
        }
        i = i + 1;
    }
    assert(vv_view(*a) =~= vv_view(*b));
    true
}

impl PartialEq for Declaration {
    fn eq(&self, other: &Declaration) -> (r: bool) {
        self.player == other.player && groups_eq(&self.cards, &other.cards)
    }
}

impl vstd::std_specs::cmp::PartialEqSpecImpl for Declaration {
    open spec fn obeys_eq_spec() -> bool {
        true
    }

    open spec fn eq_spec(&self, other: &Declaration) -> bool {
        self@ == other@
    }
}

impl PartialEq for TableEntry {
    fn eq(&self, other: &TableEntry) -> (r: bool) {
        match (self, other) {
            (TableEntry::Card(a), TableEntry::Card(b)) => *a == *b,
            (TableEntry::Decl(a), TableEntry::Decl(b)) => a.eq(b),
            _ => false,
        }
    }
}

impl vstd::std_specs::cmp::PartialEqSpecImpl for TableEntry {
    open spec fn obeys_eq_spec() -> bool {
        true
    }

    open spec fn eq_spec(&self, other: &TableEntry) -> bool {
        self@ == other@
    }
}


/// Whether some entry is a declaration of the given player.
pub open spec fn has_decl_of(es: Seq<EntryView>, tpos: PlayerTpos) -> bool {
    exists|i: int| 0 <= i < es.len() && es[i] is Decl && (#[trigger] es[i])->Decl_0.player == tpos
}

/// The first declaration of the given player, front to back.
pub open spec fn first_decl(es: Seq<EntryView>, tpos: PlayerTpos) -> Option<DeclView>
    decreases es.len(),
{
    if es.len() == 0 {
        None
    } else if es[0] is Decl && es[0]->Decl_0.player == tpos {
        Some(es[0]->Decl_0)
    } else {
        first_decl(es.drop_first(), tpos)
    }
}

pub proof fn lemma_first_decl(es: Seq<EntryView>, tpos: PlayerTpos, i: int)
    requires
        0 <= i <= es.len(),
        forall|j: int| 0 <= j < i ==> !(es[j] is Decl && (#[trigger] es[j])->Decl_0.player == tpos),
    ensures
        first_decl(es, tpos) == first_decl(es.subrange(i, es.len() as int), tpos),
        first_decl(es, tpos) is None <==> !has_decl_of(es.subrange(i, es.len() as int), tpos),
    decreases i,
{
    if i == 0 {
        assert(es.subrange(0, es.len() as int) =~= es);
        lemma_first_decl_none(es, tpos);
    } else {
        lemma_first_decl(es.drop_first(), tpos, i - 1);
        assert(es.drop_first().subrange(i - 1, es.len() - 1) =~= es.subrange(i, es.len() as int));
    }
}

pub proof fn lemma_first_decl_none(es: Seq<EntryView>, tpos: PlayerTpos)
    ensures
        first_decl(es, tpos) is None <==> !has_decl_of(es, tpos),
    decreases es.len(),
{
    if es.len() > 0 {
        lemma_first_decl_none(es.drop_first(), tpos);
        if has_decl_of(es, tpos) && !(es[0] is Decl && es[0]->Decl_0.player == tpos) {
            let k = choose|k: int| 0 <= k < es.len() && es[k] is Decl && (#[trigger] es[k])->Decl_0.player == tpos;
            assert(es.drop_first()[k - 1] == es[k]);
        }
        if has_decl_of(es.drop_first(), tpos) {
            let k = choose|k: int| 0 <= k < es.len() - 1 && es.drop_first()[k] is Decl
                && (#[trigger] es.drop_first()[k])->Decl_0.player == tpos;
            assert(es[k + 1] == es.drop_first()[k]);
        }
    }
}

/// Whether all groups have the value of the first one.
pub open spec fn same_group_values(gs: Seq<Seq<Card>>) -> bool {
    forall|i: int| 0 <= i < gs.len() ==> clamp8(sum_vals(#[trigger] gs[i])) == clamp8(sum_vals(gs[0]))
}

/// The groups that merging an entry into a declaration appends.
pub open spec fn entry_groups(e: EntryView) -> Seq<Seq<Card>> {
    match e {
        EntryView::Card(c) => seq![seq![c]],
        EntryView::Decl(d) => d.groups,
    }
}

pub proof fn lemma_entry_groups_ms(e: EntryView)
    ensures
        groups_ms(entry_groups(e)) == e.ms(),
{
    match e {
        EntryView::Card(c) => {
            let gs = seq![seq![c]];
            assert(gs.drop_last() =~= Seq::<Seq<Card>>::empty());
            assert(seq![c].to_multiset() =~= Multiset::singleton(c)) by {
                broadcast use vstd::seq_lib::group_to_multiset_ensures;
                assert(seq![c] =~= Seq::<Card>::empty().push(c));
            }
            assert(gs.last() == seq![c]);
            assert(groups_ms(gs.drop_last()) == Multiset::<Card>::empty());
            assert(groups_ms(gs) =~= Multiset::singleton(c));
        },
        EntryView::Decl(d) => {},
    }
}

pub(crate) fn copy_cards(g: &Vec<Card>) -> (r: Vec<Card>)
    ensures
        r@ == g@,
{
    let mut r: Vec<Card> = Vec::new();
    let mut i: usize = 0;
    while i < g.len()
        invariant
            0 <= i <= g@.len(),
            r@ == g@.subrange(0, i as int),
        decreases g.len() - i,
    {
        r.push(g[i]);
        i = i + 1;
        assert(r@ =~= g@.subrange(0, i as int));
    }
    assert(g@.subrange(0, g@.len() as int) =~= g@);
    r
}

/// Appends copies of the groups of `src` to `dst`.
pub(crate) fn extend_groups(dst: &mut Vec<Vec<Card>>, src: &Vec<Vec<Card>>)
    ensures
        vv_view(*final(dst)) == vv_view(*old(dst)) + vv_view(*src),
{
    let mut i: usize = 0;
    while i < src.len()
        invariant
            0 <= i <= src@.len(),
            vv_view(*dst) == vv_view(*old(dst)) + vv_view(*src).subrange(0, i as int),
            dst@.len() == old(dst)@.len() + i,
        decreases src.len() - i,
    {
        let c = copy_cards(&src[i]);
        let ghost prev = vv_view(*dst);
        let ghost old_d = dst@;
        dst.push(c);
        assert(dst@ == old_d.push(c));
        assert(vv_view(*dst) =~= prev.push(c@));
        i = i + 1;
        assert(vv_view(*dst) =~= vv_view(*old(dst)) + vv_view(*src).subrange(0, i as int));
    }
    assert(vv_view(*src).subrange(0, src@.len() as int) =~= vv_view(*src));
}

pub proof fn lemma_groups_ms_single(gs: Seq<Seq<Card>>)
    requires
        gs.len() == 1,
    ensures
        groups_ms(gs) == gs[0].to_multiset(),
{
    assert(gs.drop_last() =~= Seq::<Seq<Card>>::empty());
    assert(groups_ms(gs.drop_last()) == Multiset::<Card>::empty());
    assert(gs.last() == gs[0]);
    assert(groups_ms(gs) =~= gs[0].to_multiset());
}

pub(crate) fn copy_groups(g: &Vec<Vec<Card>>) -> (r: Vec<Vec<Card>>)
    ensures
        vv_view(r) == vv_view(*g),
{
    let mut r: Vec<Vec<Card>> = Vec::new();
    let mut i: usize = 0;
    while i < g.len()
        invariant
            0 <= i <= g@.len(),
            vv_view(r) == vv_view(*g).subrange(0, i as int),
            r@.len() == i,
        decreases g.len() - i,
    {
        let c = copy_cards(&g[i]);
        let ghost old_r = r@;
        r.push(c);
        assert(r@ == old_r.push(c));
        assert(r@.len() == i + 1);
        assert(vv_view(r).len() == r@.len());
        assert(vv_view(r)[i as int] == c@);
        i = i + 1;
        assert(vv_view(r) =~= vv_view(*g).subrange(0, i as int));
    }
    assert(vv_view(*g).subrange(0, g@.len() as int) =~= vv_view(*g));
    r
}

/// Appends the cards of `g` to `out`.
pub(crate) fn append_cards(out: &mut Vec<Card>, g: &Vec<Card>)
    ensures
        final(out)@ == old(out)@ + g@,
{
    let mut i: usize = 0;
    while i < g.len()
        invariant
            0 <= i <= g@.len(),
            out@ == old(out)@ + g@.subrange(0, i as int),
        decreases g.len() - i,
    {
        out.push(g[i]);
        i = i + 1;
        assert(out@ =~= old(out)@ + g@.subrange(0, i as int));
    }
    assert(g@.subrange(0, g@.len() as int) =~= g@);
}

/// Appends all cards of all groups to `out`.
/// The cards of some groups, in order.
pub open spec fn flat_groups(gs: Seq<Seq<Card>>) -> Seq<Card>
    decreases gs.len(),
{
    if gs.len() == 0 {
        Seq::empty()
    } else {
        flat_groups(gs.drop_last()) + gs.last()
    }
}

/// The cards of an entry, in order.
pub open spec fn entry_cards(e: EntryView) -> Seq<Card> {
    match e {
        EntryView::Card(c) => seq![c],
        EntryView::Decl(d) => flat_groups(d.groups),
    }
}

/// The cards of some entries, in order.
pub open spec fn cards_of(ts: Seq<EntryView>) -> Seq<Card>
    decreases ts.len(),
{
    if ts.len() == 0 {
        Seq::empty()
    } else {
        cards_of(ts.drop_last()) + entry_cards(ts.last())
    }
}

/// The entries after taking out the first one equal to `e`.
pub open spec fn remove_first(es: Seq<EntryView>, e: EntryView) -> Seq<EntryView>
    decreases es.len(),
{
    if es.len() == 0 {
        es
    } else if es[0] == e {
        es.drop_first()
    } else {
        seq![es[0]] + remove_first(es.drop_first(), e)
    }
}

/// The entries without those of value `v`, in order.
pub open spec fn keep_not(es: Seq<EntryView>, v: u8) -> Seq<EntryView>
    decreases es.len(),
{
    if es.len() == 0 {
        es
    } else if es[0].value() == v {
        keep_not(es.drop_first(), v)
    } else {
        seq![es[0]] + keep_not(es.drop_first(), v)
    }
}

/// The cards of the entries of value `v`, in order.
pub open spec fn swept(es: Seq<EntryView>, v: u8) -> Seq<Card>
    decreases es.len(),
{
    if es.len() == 0 {
        Seq::empty()
    } else if es[0].value() == v {
        entry_cards(es[0]) + swept(es.drop_first(), v)
    } else {
        swept(es.drop_first(), v)
    }
}

/// The loose cards of value `v`, in order.
pub open spec fn loose_of(es: Seq<EntryView>, v: u8) -> Seq<Card>
    decreases es.len(),
{
    if es.len() == 0 {
        Seq::empty()
    } else if es[0] is Card && es[0].value() == v {
        seq![es[0]->Card_0] + loose_of(es.drop_first(), v)
    } else {
        loose_of(es.drop_first(), v)
    }
}

/// The entries without the loose cards of value `v`, in order.
pub open spec fn keep_not_loose(es: Seq<EntryView>, v: u8) -> Seq<EntryView>
    decreases es.len(),
{
    if es.len() == 0 {
        es
    } else if es[0] is Card && es[0].value() == v {
        keep_not_loose(es.drop_first(), v)
    } else {
        seq![es[0]] + keep_not_loose(es.drop_first(), v)
    }
}

pub proof fn lemma_remove_first(es: Seq<EntryView>, e: EntryView, i: int)
    requires
        0 <= i < es.len(),
        es[i] == e,
        forall|j: int| 0 <= j < i ==> es[j] != e,
    ensures
        es.remove(i) == remove_first(es, e),
    decreases i,
{
    if i == 0 {
        assert(es.remove(0) =~= es.drop_first());
    } else {
        assert forall|j: int| 0 <= j < i - 1 implies es.drop_first()[j] != e by {
            assert(es.drop_first()[j] == es[j + 1]);
        }
        lemma_remove_first(es.drop_first(), e, i - 1);
        assert(es[0] != e);
        assert(es.remove(i) =~= seq![es[0]] + es.drop_first().remove(i - 1));
    }
}

/// Taking out the first entry of value `v` moves its cards to the swept ones.
pub proof fn lemma_sweep_step(es: Seq<EntryView>, v: u8, i: int)
    requires
        0 <= i < es.len(),
        es[i].value() == v,
        forall|j: int| 0 <= j < i ==> (#[trigger] es[j]).value() != v,
    ensures
        keep_not(es.remove(i), v) == keep_not(es, v),
        swept(es, v) == entry_cards(es[i]) + swept(es.remove(i), v),
    decreases i,
{
    if i == 0 {
        assert(es.remove(0) =~= es.drop_first());
    } else {
        assert forall|j: int| 0 <= j < i - 1 implies (#[trigger] es.drop_first()[j]).value() != v by {
            assert(es.drop_first()[j] == es[j + 1]);
        }
        lemma_sweep_step(es.drop_first(), v, i - 1);
        assert(es[0].value() != v);
        let r = es.remove(i);
        assert(r =~= seq![es[0]] + es.drop_first().remove(i - 1));
        assert(r[0] == es[0]);
        assert(r.drop_first() =~= es.drop_first().remove(i - 1));
        assert(keep_not(r, v) =~= seq![es[0]] + keep_not(es.drop_first().remove(i - 1), v));
    }
}

pub proof fn lemma_sweep_none(es: Seq<EntryView>, v: u8)
    requires
        forall|j: int| 0 <= j < es.len() ==> (#[trigger] es[j]).value() != v,
    ensures
        keep_not(es, v) == es,
        swept(es, v) == Seq::<Card>::empty(),
    decreases es.len(),
{
    if es.len() > 0 {
        assert forall|j: int| 0 <= j < es.len() - 1 implies (#[trigger] es.drop_first()[j]).value() != v by {
            assert(es.drop_first()[j] == es[j + 1]);
        }
        lemma_sweep_none(es.drop_first(), v);
        assert(es[0].value() != v);
        assert(seq![es[0]] + es.drop_first() =~= es);
    }
}

/// Taking out the first loose card of value `v` moves it to the absorbed ones.
pub proof fn lemma_loose_step(es: Seq<EntryView>, v: u8, i: int)
    requires
        0 <= i < es.len(),
        es[i] is Card && es[i].value() == v,
        forall|j: int| 0 <= j < i ==> !((#[trigger] es[j]) is Card && es[j].value() == v),
    ensures
        keep_not_loose(es.remove(i), v) == keep_not_loose(es, v),
        loose_of(es, v) == seq![es[i]->Card_0] + loose_of(es.remove(i), v),
    decreases i,
{
    if i == 0 {
        assert(es.remove(0) =~= es.drop_first());
    } else {
        assert forall|j: int| 0 <= j < i - 1 implies !((#[trigger] es.drop_first()[j]) is Card && es.drop_first()[j].value() == v) by {
            assert(es.drop_first()[j] == es[j + 1]);
        }
        lemma_loose_step(es.drop_first(), v, i - 1);
        let r = es.remove(i);
        assert(r =~= seq![es[0]] + es.drop_first().remove(i - 1));
        assert(r[0] == es[0]);
        assert(r.drop_first() =~= es.drop_first().remove(i - 1));
        assert(keep_not_loose(r, v) =~= seq![es[0]] + keep_not_loose(es.drop_first().remove(i - 1), v));
    }
}

pub proof fn lemma_loose_none(es: Seq<EntryView>, v: u8)
    requires
        forall|j: int| 0 <= j < es.len() ==> !((#[trigger] es[j]) is Card && es[j].value() == v),
    ensures
        keep_not_loose(es, v) == es,
        loose_of(es, v) == Seq::<Card>::empty(),
    decreases es.len(),
{
    if es.len() > 0 {
        assert forall|j: int| 0 <= j < es.len() - 1 implies !((#[trigger] es.drop_first()[j]) is Card && es.drop_first()[j].value() == v) by {
            assert(es.drop_first()[j] == es[j + 1]);
        }
        lemma_loose_none(es.drop_first(), v);
        assert(seq![es[0]] + es.drop_first() =~= es);
    }
}

pub(crate) fn append_groups(out: &mut Vec<Card>, gs: &Vec<Vec<Card>>)
    ensures
        final(out)@.to_multiset() == old(out)@.to_multiset().add(groups_ms(vv_view(*gs))),
        final(out)@.len() >= old(out)@.len(),
        final(out)@ == old(out)@ + flat_groups(vv_view(*gs)),
{
    let mut i: usize = 0;
    while i < gs.len()
        invariant
            0 <= i <= gs@.len(),
            out@ == old(out)@ + flat_groups(vv_view(*gs).subrange(0, i as int)),
            out@.to_multiset() == old(out)@.to_multiset().add(
                groups_ms(vv_view(*gs).subrange(0, i as int))),
            out@.len() >= old(out)@.len(),
        decreases gs.len() - i,
    {
        let ghost before = out@;
        append_cards(out, &gs[i]);
        proof {
            vstd::seq_lib::lemma_multiset_commutative(before, gs@[i as int]@);
            assert(vv_view(*gs).subrange(0, i + 1).drop_last() =~= vv_view(*gs).subrange(0, i as int));
        }
        i = i + 1;
        assert(out@.to_multiset() =~= old(out)@.to_multiset().add(
            groups_ms(vv_view(*gs).subrange(0, i as int))));
        assert(vv_view(*gs)[i - 1] == gs@[i - 1]@);
        assert(out@ =~= old(out)@ + flat_groups(vv_view(*gs).subrange(0, i as int)));
    }
    assert(vv_view(*gs).subrange(0, gs@.len() as int) =~= vv_view(*gs));
}

impl Declaration {
    pub fn cards(&self) -> (r: &Vec<Vec<Card>>)
        ensures
            r == &self.cards,
    {
        &self.cards
    }

    pub fn player(&self) -> (r: PlayerTpos)
        ensures
            r == self.player,
    {
        self.player
    }

    /// The declared value: the sum of the ranks of the first group.
    pub fn value(&self) -> (r: u8)
        ensures
            r == self@.value(),
    {
        if self.cards.len() == 0 {
            0
        } else {
            group_value(&self.cards[0])
        }
    }

    pub fn is_group(&self) -> (r: bool)
        ensures
            r == (self@.groups.len() > 1),
    {
        self.cards.len() > 1
    }

    pub fn is_plain(&self) -> (r: bool)
        ensures
            r == (self@.groups.len() == 1),
    {
        self.cards.len() == 1
    }

    /// A declaration, if it has at least one group and all its groups have one value
    /// in 1..=10.
    pub fn new(cards: Vec<Vec<Card>>, player: PlayerTpos) -> (r: Option<Declaration>)
        ensures
            r is Some <==> (vv_view(cards).len() > 0 && same_group_values(vv_view(cards)) && 1 <= clamp8(
                sum_vals(vv_view(cards)[0]),
            ) <= 10),
            r is Some ==> r->Some_0.cards == cards && r->Some_0.player == player,
    {
        let len = cards.len();
        if len == 0 {
            return None;
        }
        let val = group_value(&cards[0]);
        assert(vv_view(cards)[0] == cards@[0]@);
        if val < 1 || val > 10 {
            return None;
        }
        let mut i: usize = 1;
        while i < len
            invariant
                len == cards@.len(),
                1 <= i <= len,
                val == clamp8(sum_vals(vv_view(cards)[0])),
                forall|j: int| 0 <= j < i ==> clamp8(sum_vals(#[trigger] vv_view(cards)[j])) == val,
            decreases len - i,
        {
            let val_i = group_value(&cards[i]);
            assert(vv_view(cards)[i as int] == cards@[i as int]@);
            if val_i != val {
                assert(!same_group_values(vv_view(cards)));
                return None;
            }
            i = i + 1;
        }
        assert(same_group_values(vv_view(cards)));
        Some(Declaration { cards: cards, player: player })
    }

    pub fn into_inner(self) -> (r: (Vec<Vec<Card>>, PlayerTpos))
        ensures
            r.0 == self.cards && r.1 == self.player,
    {
        (self.cards, self.player)
    }

    /// Adds an entry of the same value to this declaration: a card as a group of its
    /// own, a declaration with all its groups.
    pub fn merge_table_entry(&mut self, te: TableEntry)
        requires
            old(self)@.value() == te@.value(),
        ensures
            final(self)@.groups == old(self)@.groups + entry_groups(te@),
            final(self).player == old(self).player,
    {
        match te {
            TableEntry::Card(c) => {
                let mut g: Vec<Card> = Vec::new();
                g.push(c);
                self.cards.push(g);
                assert(vv_view(self.cards) =~= old(self)@.groups + entry_groups(te@));
            },
            TableEntry::Decl(d) => {
                let mut i: usize = 0;
                while i < d.cards.len()
                    invariant
                        0 <= i <= d.cards@.len(),
                        vv_view(self.cards) == old(self)@.groups + vv_view(d.cards).subrange(0, i as int),
                        self.cards@.len() == old(self).cards@.len() + i,
                        self.player == old(self).player,
                    decreases d.cards.len() - i,
                {
                    let c = copy_cards(&d.cards[i]);
                    let ghost old_c = self.cards@;
                    let ghost prev = vv_view(self.cards);
                    self.cards.push(c);
                    assert(self.cards@ == old_c.push(c));
                    assert(vv_view(self.cards) =~= prev.push(c@));
                    assert(vv_view(d.cards)[i as int] == c@);
                    i = i + 1;
                    assert(vv_view(self.cards) =~= old(self)@.groups + vv_view(d.cards).subrange(0, i as int));
                }
                assert(vv_view(d.cards).subrange(0, d.cards@.len() as int) =~= vv_view(d.cards));
            },
        }
    }

    pub(crate) fn duplicate(&self) -> (r: Declaration)
        ensures
            r@ == self@,
    {
        Declaration { cards: copy_groups(&self.cards), player: self.player }
    }
}

impl TableEntry {
    pub fn unwrap_card(self) -> (r: Card)
        requires
            self is Card,
        ensures
            self@ == EntryView::Card(r),
    {
        match self {
            TableEntry::Card(c) => c,
            TableEntry::Decl(_) => vstd::pervasive::unreached(),
        }
    }

    pub fn is_card(&self) -> (r: bool)
        ensures
            r == (self@ is Card),
    {
        match self {
            TableEntry::Card(_) => true,
            TableEntry::Decl(_) => false,
        }
    }

    pub fn is_decl(&self) -> (r: bool)
        ensures
            r == (self@ is Decl),
    {
        match self {
            TableEntry::Decl(_) => true,
            TableEntry::Card(_) => false,
        }
    }

    pub fn unwrap_decl(self) -> (r: Declaration)
        requires
            self is Decl,
        ensures
            self@ == EntryView::Decl(r@),
    {
        match self {
            TableEntry::Decl(d) => d,
            TableEntry::Card(_) => vstd::pervasive::unreached(),
        }
    }

    pub fn ref_decl(&self) -> (r: &Declaration)
        requires
            self is Decl,
        ensures
            self@ == EntryView::Decl(r@),
    {
        match self {
            TableEntry::Decl(d) => d,
            TableEntry::Card(_) => vstd::pervasive::unreached(),
        }
    }

    pub fn value(&self) -> (r: u8)
        ensures
            r == self@.value(),
    {
        match self {
            TableEntry::Decl(d) => d.value(),
            TableEntry::Card(c) => c.rank.0,
        }
    }

    /// The card of this entry, or the error that `errfn` makes for a declaration.
    pub fn card_or_else<E, F: FnOnce() -> E>(self, errfn: F) -> (r: Result<Card, E>)
        requires
            self is Decl ==> errfn.requires(()),
        ensures
            self is Card ==> r == Ok::<Card, E>(self->Card_0),
            self is Decl ==> r is Err && errfn.ensures((), r->Err_0),
    {
        match self {
            TableEntry::Card(c) => Ok(c),
            TableEntry::Decl(_) => Err(errfn()),
        }
    }

    pub(crate) fn duplicate(&self) -> (r: TableEntry)
        ensures
            r@ == self@,
    {
        match self {
            TableEntry::Card(c) => TableEntry::Card(*c),
            TableEntry::Decl(d) => TableEntry::Decl(d.duplicate()),
        }
    }
}

impl Table {
    pub open spec fn ms(&self) -> Multiset<Card> {
        entries_ms(self@)
    }

    pub fn empty() -> (r: Table)
        ensures
            r@.len() == 0,
    {
        Table { entries: Vec::new() }
    }

    pub fn nentries(&self) -> (r: usize)
        ensures
            r == self@.len(),
    {
        self.entries.len()
    }

    /// Removes the first entry at index `i`, keeping the rest in order.
    fn take_at(&mut self, i: usize) -> (r: TableEntry)
        requires
            i < old(self)@.len(),
        ensures
            r@ == old(self)@[i as int],
            final(self)@ == old(self)@.remove(i as int),
            old(self).ms() == final(self).ms().add(r@.ms()),
    {
        let e = self.entries.remove(i);
        proof {
            lemma_entries_ms_remove(old(self)@, i as int);
            assert(self@ =~= old(self)@.remove(i as int));
        }
        e
    }

    /// Removes the first loose card equal to `arg`.
    pub fn remove_card(&mut self, arg: &Card) -> (r: Option<Card>)
        ensures
            r is Some <==> old(self)@.contains(EntryView::Card(*arg)),
            r is Some ==> r->Some_0 == *arg && old(self).ms() == final(self).ms().insert(*arg)
                && exists|i: int| 0 <= i < old(self)@.len() && old(self)@[i] == EntryView::Card(*arg)
                    && final(self)@ == old(self)@.remove(i) && forall|j: int| 0 <= j < i ==> old(self)@[j]
                    != EntryView::Card(*arg),
            r is None ==> final(self)@ == old(self)@,
    {
        let mut i: usize = 0;
        while i < self.entries.len()
            invariant
                self@ == old(self)@,
                0 <= i <= self@.len(),
                forall|j: int| 0 <= j < i ==> self@[j] != EntryView::Card(*arg),
            decreases self.entries.len() - i,
        {
            let hit = match &self.entries[i] {
                TableEntry::Card(c) => *c == *arg,
                _ => false,
            };
            if hit {
                let e = self.take_at(i);
                return match e {
                    TableEntry::Card(c) => Some(c),
                    TableEntry::Decl(_) => None,
                };
            }
            i = i + 1;
        }
        None
    }

    /// Removes the first declaration equal to `arg`.
    pub fn remove_decl(&mut self, arg: &Declaration) -> (r: Option<Declaration>)
        ensures
            r is Some <==> old(self)@.contains(EntryView::Decl(arg@)),
            r is Some ==> r->Some_0@ == arg@ && old(self).ms() == final(self).ms().add(groups_ms(arg@.groups))
                && exists|i: int| 0 <= i < old(self)@.len() && old(self)@[i] == EntryView::Decl(arg@)
                    && final(self)@ == old(self)@.remove(i) && forall|j: int| 0 <= j < i ==> old(self)@[j]
                    != EntryView::Decl(arg@),
            r is None ==> final(self)@ == old(self)@,
    {
        let mut i: usize = 0;
        while i < self.entries.len()
            invariant
                self@ == old(self)@,
                0 <= i <= self@.len(),
                forall|j: int| 0 <= j < i ==> self@[j] != EntryView::Decl(arg@),
            decreases self.entries.len() - i,
        {
            let hit = match &self.entries[i] {
                TableEntry::Decl(d) => d.eq(arg),
                _ => false,
            };
            if hit {
                let e = self.take_at(i);
                return match e {
                    TableEntry::Decl(d) => Some(d),
                    TableEntry::Card(_) => None,
                };
            }
            i = i + 1;
        }
        None
    }

    pub fn add_decl(&mut self, d: Declaration)
        ensures
            final(self)@ == old(self)@.push(EntryView::Decl(d@)),
            final(self).ms() == old(self).ms().add(groups_ms(d@.groups)),
    {
        self.entries.push(TableEntry::Decl(d));
        proof {
            assert(self@ =~= old(self)@.push(EntryView::Decl(d@)));
            lemma_entries_ms_push(old(self)@, EntryView::Decl(d@));
        }
    }

    pub fn add_card(&mut self, c: Card)
        ensures
            final(self)@ == old(self)@.push(EntryView::Card(c)),
            final(self).ms() == old(self).ms().insert(c),
    {
        self.entries.push(TableEntry::Card(c));
        proof {
            assert(self@ =~= old(self)@.push(EntryView::Card(c)));
            lemma_entries_ms_push(old(self)@, EntryView::Card(c));
            assert(old(self).ms().add(Multiset::singleton(c)) =~= old(self).ms().insert(c));
        }
    }

    /// The first declaration of the given player.
    pub fn find_decl_from(&self, tpos: PlayerTpos) -> (r: Option<&Declaration>)
        ensures
            r is Some <==> has_decl_of(self@, tpos),
            r is Some ==> r->Some_0.player == tpos && self@.contains(EntryView::Decl(r->Some_0@)),
            r is Some ==> first_decl(self@, tpos) == Some(r->Some_0@),
            r is None ==> first_decl(self@, tpos) is None,
    {
        let mut i: usize = 0;
        while i < self.entries.len()
            invariant
                0 <= i <= self@.len(),
                forall|j: int| 0 <= j < i ==> !(self@[j] is Decl && (#[trigger] self@[j])->Decl_0.player == tpos),
            decreases self.entries.len() - i,
        {
            match &self.entries[i] {
                TableEntry::Decl(d) => {
                    if d.player == tpos {
                        assert(self@[i as int] == EntryView::Decl(d@));
                        proof {
                            lemma_first_decl(self@, tpos, i as int);
                            lemma_first_decl_none(self@, tpos);
                            assert(self@.subrange(i as int, self@.len() as int)[0] == self@[i as int]);
                        }
                        return Some(d);
                    }
                },
                _ => {},
            }
            i = i + 1;
        }
        proof {
            lemma_first_decl(self@, tpos, i as int);
            lemma_first_decl_none(self@, tpos);
        }
        None
    }

    /// Removes the first loose card of the given value.
    pub fn remove_card_with_value(&mut self, val: u8) -> (r: Option<Card>)
        ensures
            r is Some ==> r->Some_0.rank.0 == val && old(self).ms() == final(self).ms().insert(r->Some_0)
                && exists|i: int| 0 <= i < old(self)@.len() && old(self)@[i] == EntryView::Card(r->Some_0)
                    && final(self)@ == old(self)@.remove(i) && forall|j: int| 0 <= j < i ==> !((#[trigger] old(self)@[j]) is Card
                    && old(self)@[j].value() == val),
            r is None ==> final(self)@ == old(self)@
                && forall|i: int| 0 <= i < old(self)@.len() ==> !(old(self)@[i] is Card
                    && (#[trigger] old(self)@[i]).value() == val),
    {
        let mut i: usize = 0;
        while i < self.entries.len()
            invariant
                self@ == old(self)@,
                0 <= i <= self@.len(),
                forall|j: int| 0 <= j < i ==> !(self@[j] is Card && (#[trigger] self@[j]).value() == val),
            decreases self.entries.len() - i,
        {
            if self.entries[i].is_card() && self.entries[i].value() == val {
                let e = self.take_at(i);
                return match e {
                    TableEntry::Card(c) => {
                        assert(Multiset::singleton(c) =~= Multiset::<Card>::empty().insert(c));
                        assert(final(self).ms().add(Multiset::singleton(c)) =~= final(self).ms().insert(c));
                        Some(c)
                    },
                    TableEntry::Decl(_) => None,
                };
            }
            i = i + 1;
        }
        None
    }

    /// Removes the first entry of the given value, card or declaration.
    pub fn remove_entry_with_value(&mut self, val: u8) -> (r: Option<TableEntry>)
        ensures
            r is Some ==> r->Some_0@.value() == val && old(self).ms() == final(self).ms().add(r->Some_0@.ms())
                && exists|i: int| 0 <= i < old(self)@.len() && old(self)@[i] == r->Some_0@
                    && final(self)@ == old(self)@.remove(i) && forall|j: int| 0 <= j < i ==> (#[trigger] old(self)@[j]).value() != val,
            r is None ==> final(self)@ == old(self)@
                && forall|i: int| 0 <= i < old(self)@.len() ==> (#[trigger] old(self)@[i]).value() != val,
    {
        let mut i: usize = 0;
        while i < self.entries.len()
            invariant
                self@ == old(self)@,
                0 <= i <= self@.len(),
                forall|j: int| 0 <= j < i ==> (#[trigger] self@[j]).value() != val,
            decreases self.entries.len() - i,
        {
            if self.entries[i].value() == val {
                let e = self.take_at(i);
                return Some(e);
            }
            i = i + 1;
        }
        None
    }

    /// The number of loose cards of the given value.
    pub fn count_cards_with_val(&self, val: u8) -> (r: usize)
        ensures
            r == count_cards_val(self@, val),
    {
        let mut n: usize = 0;
        let mut i: usize = 0;
        while i < self.entries.len()
            invariant
                0 <= i <= self@.len(),
                n == count_cards_val(self@.subrange(0, i as int), val),
                n <= i,
            decreases self.entries.len() - i,
        {
            assert(self@.subrange(0, i + 1).drop_last() =~= self@.subrange(0, i as int));
            if self.entries[i].is_card() && self.entries[i].value() == val {
                n = n + 1;
            }
            i = i + 1;
        }
        assert(self@.subrange(0, self@.len() as int) =~= self@);
        n
    }

    /// Takes every card off the table.
    pub fn remove_all_cards(&mut self) -> (r: Vec<Card>)
        ensures
            r@.to_multiset() == old(self).ms(),
            r@ == cards_of(old(self)@),
            final(self)@.len() == 0,
    {
        let mut out: Vec<Card> = Vec::new();
        let mut i: usize = 0;
        proof {
            assert(self@.subrange(0, 0) =~= Seq::<EntryView>::empty());
            assert(out@.to_multiset() =~= Multiset::<Card>::empty()) by {
                broadcast use vstd::seq_lib::group_to_multiset_ensures;
            }
        }
        while i < self.entries.len()
            invariant
                self@ == old(self)@,
                0 <= i <= self@.len(),
                out@.to_multiset() == entries_ms(self@.subrange(0, i as int)),
                out@ == cards_of(self@.subrange(0, i as int)),
            decreases self.entries.len() - i,
        {
            assert(self@.subrange(0, i + 1).drop_last() =~= self@.subrange(0, i as int));
            assert(self@.subrange(0, i + 1).last() == self@[i as int]);
            assert(self@[i as int] == self.entries@[i as int]@);
            let ghost o0 = out@;
            match &self.entries[i] {
                TableEntry::Card(c) => {
                    out.push(*c);
                    proof {
                        broadcast use vstd::seq_lib::group_to_multiset_ensures;
                        assert(Multiset::singleton(*c) =~= Multiset::<Card>::empty().insert(*c));
                        assert(entries_ms(self@.subrange(0, i + 1)) =~= entries_ms(self@.subrange(0, i as int)).insert(*c));
                    }
                },
                TableEntry::Decl(d) => {
                    append_groups(&mut out, &d.cards);
                },
            }
            assert(out@ =~= o0 + entry_cards(self@[i as int]));
            i = i + 1;
        }
        assert(self@.subrange(0, self@.len() as int) =~= self@);
        self.entries = Vec::new();
        assert(self@ =~= Seq::<EntryView>::empty());
        out
    }

    pub(crate) fn duplicate(&self) -> (r: Table)
        ensures
            r@ == self@,
    {
        let mut out: Vec<TableEntry> = Vec::new();
        let mut i: usize = 0;
        while i < self.entries.len()
            invariant
                0 <= i <= self@.len(),
                entries_view(out@) == self@.subrange(0, i as int),
                out@.len() == i,
            decreases self.entries.len() - i,
        {
            let e = self.entries[i].duplicate();
            let ghost old_out = out@;
            out.push(e);
            assert(out@ == old_out.push(e));
            assert(entries_view(out@)[i as int] == e@);
            i = i + 1;
            assert(entries_view(out@) =~= self@.subrange(0, i as int));
        }
        assert(self@.subrange(0, self@.len() as int) =~= self@);
        Table { entries: out }
    }
}

/// The number of loose cards of the given value.
pub open spec fn count_cards_val(es: Seq<EntryView>, val: u8) -> nat
    decreases es.len(),
{
    if es.len() == 0 {
        0
    } else {
        count_cards_val(es.drop_last(), val) + if es.last() is Card && es.last().value() == val {
            1nat
        } else {
            0nat
        }
    }
}

} // verus!
