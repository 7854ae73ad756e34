//! Properties that relate several functions of the library, proved over the
//! contracts of those functions.
use vstd::prelude::*;

use crate::actions::{decl_value, is_decl_at, no_decl, other_card_of_value, DeclAction, PlayerAction};
use crate::card::Card;
use crate::deck::full_deck;
use crate::repr::{
    cards_from, cards_text, decl_tokens, entries_from, entry_readable, join, lemma_cards_from_texts,
    lemma_cards_text_tokens, lemma_entry_tokens_good, lemma_run_decl, lemma_run_table, lemma_split_join_all,
    lemma_table_tokens_good, split_ws, table_tokens, ParseState,
};
use crate::game::{
    capture_taken, decl_absorbed, decl_groups, decl_rest, decl_taken, flat_targets, remove_each, singles, Game,
};
use crate::session::{nconnected, Session};
use crate::table::{
    first_decl, has_decl_of, keep_not, keep_not_loose, lemma_first_decl_none, remove_first, DeclView, EntryView,
    PlayerTpos,
};

verus! {

/// Conservation: along any sequence of applied actions in which the game does not
/// end, the multiset of all cards (main deck, hands, table, captures) stays the same.
/// A game dealt from the full deck therefore keeps exactly the 52 cards.
pub proof fn lemma_conservation(gs: Seq<Game>)
    requires
        gs.len() > 0,
        forall|i: int| 0 <= i < gs.len() - 1 ==> (#[trigger] gs[i]).step_to(&gs[i + 1]),
        forall|i: int| 0 <= i < gs.len() ==> !((#[trigger] gs[i]).state is GameDone),
    ensures
        gs.last().ms() == gs[0].ms(),
        gs[0].ms() == full_deck().to_multiset() ==> gs.last().ms() == full_deck().to_multiset(),
    decreases gs.len(),
{
    if gs.len() > 1 {
        let init = gs.drop_last();
        assert forall|i: int| 0 <= i < init.len() - 1 implies (#[trigger] init[i]).step_to(&init[i + 1]) by {
            assert(init[i] == gs[i] && init[i + 1] == gs[i + 1]);
        }
        assert forall|i: int| 0 <= i < init.len() implies !((#[trigger] init[i]).state is GameDone) by {
            assert(init[i] == gs[i]);
        }
        lemma_conservation(init);
        assert(gs[gs.len() - 2].step_to(&gs[gs.len() - 1]));
        assert(!(gs[gs.len() - 1].state is GameDone));
    }
}

/// Turn legality: no action is legal for a seat whose turn it is not.
pub proof fn lemma_turn_legality(g: Game, tpos: PlayerTpos, action: PlayerAction)
    requires
        !(g.state is NextTurn && g.state->NextTurn_0 == tpos),
    ensures
        !g.action_allowed(tpos, action),
{
}

/// Declaration bound: a declaration whose value lies outside 1..=10, or that leaves
/// no other card of its value in the hand, is not legal.
pub proof fn lemma_declaration_bound(g: Game, tpos: PlayerTpos, da: DeclAction)
    requires
        da.ee().len() > 0 && da.ee()[0].len() > 0 && da.ee()[0][0] is Card,
        !(1 <= decl_value(da.ee()) <= 10) || !other_card_of_value(g.hand(tpos), da.ee()[0][0]->Card_0, decl_value(da.ee())),
    ensures
        !g.action_allowed(tpos, PlayerAction::Declare(da)),
{
}

/// Single open declaration: a seat with a declaration on the table cannot declare
/// anything that does not take that declaration in.
pub proof fn lemma_single_open_declaration(g: Game, tpos: PlayerTpos, da: DeclAction)
    requires
        has_decl_of(g.table@, tpos),
        no_decl(da.ee()),
    ensures
        !g.action_allowed(tpos, PlayerAction::Declare(da)),
{
    lemma_first_decl_none(g.table@, tpos);
    let own = first_decl(g.table@, tpos)->Some_0;
    crate::actions::lemma_no_decl_not_sole(da.ee(), own);
}

/// The measure that a broadcast from `from` on decreases at every step: connected
/// players first, then the players left in the pass.
pub open spec fn broadcast_measure(s: Session, from: int) -> int {
    nconnected(s.players@) * (s.players@.len() + 2) + (s.players@.len() + 1 - from)
}

/// Broadcast resilience: each delivery step to a connected player `j` found from
/// `from` makes progress, whether it succeeds (the pass moves on) or fails (the player
/// is disconnected and the pass restarts). So a broadcast ends, and it ends with a
/// full pass over the players that are still connected.
pub proof fn lemma_broadcast_progress(s: Session, after_failure: Session, from: int, j: int)
    requires
        0 <= from <= j < s.players@.len(),
        s.players@[j].task is Some,
        after_failure.players@.len() == s.players@.len(),
        nconnected(after_failure.players@) + 1 == nconnected(s.players@),
    ensures
        broadcast_measure(s, j + 1) < broadcast_measure(s, from),
        broadcast_measure(after_failure, 0) < broadcast_measure(s, from),
        broadcast_measure(after_failure, 0) >= 0,
{
    let n = s.players@.len() as int;
    let c = nconnected(s.players@) as int;
    assert(c * (n + 2) == (c - 1) * (n + 2) + (n + 2)) by (nonlinear_arith);
    assert((c - 1) * (n + 2) >= 0) by (nonlinear_arith)
        requires c >= 1, n >= 0;
}

/// Round trip of the text form of a deck: reading the text that
/// `DeckRepr::fmt_deck` writes for cards of valid ranks gives back the same cards.
pub proof fn lemma_deck_text_round_trip(cards: Seq<Card>)
    requires
        forall|i: int| 0 <= i < cards.len() ==> (#[trigger] cards[i]).wf(),
    ensures
        cards_from(split_ws(cards_text(cards)), 0, Seq::empty()) == Some(cards),
{
    lemma_cards_text_tokens(cards);
    lemma_cards_from_texts(cards, 0, Seq::empty());
    assert(Seq::<Card>::empty() + cards.subrange(0, cards.len() as int) =~= cards);
}

/// Round trip of the text form of a table: reading the text that
/// `TableRepr::fmt_table` writes gives back the same entries, for cards of valid ranks
/// and declarations with at least one group and a seat of 0 to 3.
pub proof fn lemma_table_text_round_trip(es: Seq<EntryView>)
    requires
        forall|i: int| 0 <= i < es.len() ==> entry_readable(#[trigger] es[i]),
    ensures
        entries_from(split_ws(join(table_tokens(es))), 0, ParseState::Top, Seq::empty(), false) == Some(es),
{
    let ts = table_tokens(es);
    lemma_table_tokens_good(es);
    lemma_split_join_all(ts);
    assert(ts.subrange(0, ts.len() as int) =~= ts);
    lemma_run_table(ts, 0, es, Seq::empty());
    assert(Seq::<EntryView>::empty() + es =~= es);
}

/// Round trip of the text form of a declaration: reading the text that
/// `DeclRepr::fmt_declaration` writes gives back the same declaration, for one with at
/// least one group, cards of valid ranks and a seat of 0 to 3.
pub proof fn lemma_decl_text_round_trip(d: DeclView)
    requires
        entry_readable(EntryView::Decl(d)),
    ensures
        entries_from(split_ws(join(decl_tokens(d))), 0, ParseState::Top, Seq::empty(), true) == Some(
            seq![EntryView::Decl(d)],
        ),
{
    let ts = decl_tokens(d);
    lemma_entry_tokens_good(EntryView::Decl(d));
    lemma_split_join_all(ts);
    assert(ts.subrange(0, ts.len() as int) =~= ts);
    lemma_run_decl(ts, 0, d, Seq::empty(), true);
    assert(Seq::<EntryView>::empty().push(EntryView::Decl(d)) =~= seq![EntryView::Decl(d)]);
}


/// The number of declarations of seat `p` among some entries.
pub open spec fn decls_of_seat(es: Seq<EntryView>, p: PlayerTpos) -> nat
    decreases es.len(),
{
    if es.len() == 0 {
        0
    } else {
        decls_of_seat(es.drop_last(), p) + if es.last() is Decl && es.last()->Decl_0.player == p {
            1nat
        } else {
            0nat
        }
    }
}

/// Whether every seat has at most one declaration among some entries.
pub open spec fn one_decl_per_seat(es: Seq<EntryView>) -> bool {
    forall|p: PlayerTpos| #[trigger] decls_of_seat(es, p) <= 1
}

/// Whether every declaration of seat `p` among the entries is `Decl(d)`.
pub open spec fn seat_decls_are(es: Seq<EntryView>, p: PlayerTpos, d: DeclView) -> bool {
    forall|i: int| 0 <= i < es.len() && es[i] is Decl && es[i]->Decl_0.player == p ==> #[trigger] es[i] == EntryView::Decl(d)
}

pub proof fn lemma_decls_zero(es: Seq<EntryView>, p: PlayerTpos)
    ensures
        decls_of_seat(es, p) == 0 <==> !has_decl_of(es, p),
    decreases es.len(),
{
    if es.len() > 0 {
        lemma_decls_zero(es.drop_last(), p);
        if has_decl_of(es.drop_last(), p) {
            let k = choose|k: int| 0 <= k < es.len() - 1 && es.drop_last()[k] is Decl && (#[trigger] es.drop_last()[k])->Decl_0.player == p;
            assert(es[k] == es.drop_last()[k]);
        }
        if has_decl_of(es, p) && !(es.last() is Decl && es.last()->Decl_0.player == p) {
            let k = choose|k: int| 0 <= k < es.len() && es[k] is Decl && (#[trigger] es[k])->Decl_0.player == p;
            assert(k < es.len() - 1);
            assert(es.drop_last()[k] == es[k]);
        }
    }
}

pub proof fn lemma_decls_front(es: Seq<EntryView>, p: PlayerTpos)
    requires
        es.len() > 0,
    ensures
        decls_of_seat(es, p) == decls_of_seat(es.drop_first(), p) + if es[0] is Decl && es[0]->Decl_0.player == p {
            1nat
        } else {
            0nat
        },
    decreases es.len(),
{
    if es.len() == 1 {
        assert(es.drop_first() =~= Seq::<EntryView>::empty());
        assert(es.drop_last() =~= Seq::<EntryView>::empty());
    } else {
        lemma_decls_front(es.drop_last(), p);
        assert(es.drop_last().drop_first() =~= es.drop_first().drop_last());
        assert(es.drop_first().last() == es.last());
        assert(es.drop_last()[0] == es[0]);
    }
}

pub proof fn lemma_decls_remove_first(es: Seq<EntryView>, e: EntryView, p: PlayerTpos)
    ensures
        decls_of_seat(remove_first(es, e), p) <= decls_of_seat(es, p),
        es.contains(e) && e is Decl && e->Decl_0.player == p ==> decls_of_seat(remove_first(es, e), p) + 1
            == decls_of_seat(es, p),
        forall|d: DeclView| seat_decls_are(es, p, d) ==> #[trigger] seat_decls_are(remove_first(es, e), p, d),
    decreases es.len(),
{
    if es.len() > 0 {
        lemma_decls_front(es, p);
        if es[0] == e {
            assert forall|d: DeclView| seat_decls_are(es, p, d) implies #[trigger] seat_decls_are(remove_first(es, e), p, d) by {
                assert forall|i: int| 0 <= i < es.drop_first().len() && es.drop_first()[i] is Decl && es.drop_first()[i]->Decl_0.player == p
                    implies #[trigger] es.drop_first()[i] == EntryView::Decl(d) by {
                    assert(es.drop_first()[i] == es[i + 1]);
                }
            }
        } else {
            let t = es.drop_first();
            lemma_decls_remove_first(t, e, p);
            let r = seq![es[0]] + remove_first(t, e);
            assert(r.len() > 0 && r[0] == es[0]);
            assert(r.drop_first() =~= remove_first(t, e));
            lemma_decls_front(r, p);
            if es.contains(e) {
                let k = choose|k: int| 0 <= k < es.len() && es[k] == e;
                assert(k > 0);
                assert(t[k - 1] == e);
                assert(t.contains(e));
            }
            assert forall|d: DeclView| seat_decls_are(es, p, d) implies #[trigger] seat_decls_are(remove_first(es, e), p, d) by {
                assert forall|i: int| 0 <= i < t.len() && t[i] is Decl && t[i]->Decl_0.player == p
                    implies #[trigger] t[i] == EntryView::Decl(d) by {
                    assert(t[i] == es[i + 1]);
                }
                assert(seat_decls_are(t, p, d));
                assert(seat_decls_are(remove_first(t, e), p, d));
                assert forall|i: int| 0 <= i < r.len() && r[i] is Decl && r[i]->Decl_0.player == p
                    implies #[trigger] r[i] == EntryView::Decl(d) by {
                    if i > 0 {
                        assert(r[i] == remove_first(t, e)[i - 1]);
                    }
                }
            }
        }
    }
}

pub proof fn lemma_decls_remove_each(es: Seq<EntryView>, ts: Seq<EntryView>, p: PlayerTpos, d: DeclView)
    requires
        decls_of_seat(es, p) <= 1,
        seat_decls_are(es, p, d),
    ensures
        decls_of_seat(remove_each(es, ts), p) <= decls_of_seat(es, p),
        seat_decls_are(remove_each(es, ts), p, d),
        ts.contains(EntryView::Decl(d)) && d.player == p ==> decls_of_seat(remove_each(es, ts), p) == 0,
    decreases ts.len(),
{
    if ts.len() > 0 {
        let t2 = ts.drop_last();
        lemma_decls_remove_each(es, t2, p, d);
        let m = remove_each(es, t2);
        lemma_decls_remove_first(m, ts.last(), p);
        if ts.contains(EntryView::Decl(d)) && d.player == p {
            if t2.contains(EntryView::Decl(d)) {
            } else {
                let k = choose|k: int| 0 <= k < ts.len() && ts[k] == EntryView::Decl(d);
                if k < ts.len() - 1 {
                    assert(t2[k] == ts[k]);
                }
                assert(ts.last() == EntryView::Decl(d));
                if !m.contains(EntryView::Decl(d)) {
                    lemma_decls_zero(m, p);
                    if has_decl_of(m, p) {
                        let j = choose|j: int| 0 <= j < m.len() && m[j] is Decl && (#[trigger] m[j])->Decl_0.player == p;
                        assert(m[j] == EntryView::Decl(d));
                    }
                }
            }
        }
    }
}

pub proof fn lemma_decls_keep(es: Seq<EntryView>, v: u8, p: PlayerTpos)
    ensures
        decls_of_seat(keep_not_loose(es, v), p) == decls_of_seat(es, p),
        decls_of_seat(keep_not(es, v), p) <= decls_of_seat(es, p),
    decreases es.len(),
{
    if es.len() > 0 {
        lemma_decls_front(es, p);
        lemma_decls_keep(es.drop_first(), v, p);
        if !(es[0] is Card && es[0].value() == v) {
            let r = seq![es[0]] + keep_not_loose(es.drop_first(), v);
            assert(r.drop_first() =~= keep_not_loose(es.drop_first(), v));
            lemma_decls_front(r, p);
        }
        if es[0].value() != v {
            let r = seq![es[0]] + keep_not(es.drop_first(), v);
            assert(r.drop_first() =~= keep_not(es.drop_first(), v));
            lemma_decls_front(r, p);
        }
    }
}

pub proof fn lemma_flat_contains(ee: Seq<Seq<EntryView>>, i: int, j: int)
    requires
        0 <= i < ee.len(),
        0 <= j < ee[i].len(),
    ensures
        flat_targets(ee).contains(ee[i][j]),
        (i > 0 || j > 0) ==> flat_targets(ee).drop_first().contains(ee[i][j]) || flat_targets(ee)[0] == ee[i][j],
    decreases ee.len(),
{
    let f = flat_targets(ee);
    if i == ee.len() - 1 {
        let a = flat_targets(ee.drop_last());
        assert(f == a + ee[i]);
        assert(f[a.len() + j] == ee[i][j]);
        if a.len() + j > 0 {
            assert(f.drop_first()[a.len() + j - 1] == ee[i][j]);
        }
    } else {
        lemma_flat_contains(ee.drop_last(), i, j);
        let a = flat_targets(ee.drop_last());
        assert(f == a + ee.last());
        let k = choose|k: int| 0 <= k < a.len() && a[k] == ee[i][j];
        assert(f[k] == ee[i][j]);
        if k > 0 {
            assert(f.drop_first()[k - 1] == ee[i][j]);
        }
    }
}

/// Single open declaration, kept: when every seat has at most one declaration on
/// the table, any applied action keeps it so, and after a declaration the acting
/// seat has exactly one.
pub proof fn lemma_one_declaration_per_seat(g: Game, tpos: PlayerTpos, action: PlayerAction, g2: Game, p: PlayerTpos)
    requires
        g.wf(),
        one_decl_per_seat(g.table@),
        g.action_allowed(tpos, action),
        g.apply_post(tpos, action, g2),
    ensures
        decls_of_seat(g2.table@, p) <= 1,
        action is Declare && !(g2.state is GameDone) ==> decls_of_seat(g2.table@, tpos) == 1,
{
    let t = g.table@;
    assert(decls_of_seat(t, p) <= 1);
    assert(decls_of_seat(t, tpos) <= 1);
    if g2.state is GameDone {
        assert(g2.table@.len() == 0);
        assert(g2.table@ =~= Seq::<EntryView>::empty());
    } else {
        match action {
            PlayerAction::LayDown(c) => {
                assert(g2.table@ == t.push(EntryView::Card(c)));
                assert(t.push(EntryView::Card(c)).drop_last() =~= t);
            },
            PlayerAction::Capture(ca) => {
                lemma_seat_decls(t, p);
                let d = choose|d: DeclView| seat_decls_are(t, p, d);
                lemma_decls_remove_each(t, flat_targets(ca.ee()), p, d);
                lemma_decls_keep(capture_taken(t, ca), ca.handcard.rank.0, p);
            },
            PlayerAction::Declare(da) => {
                let ee = da.ee();
                let ts = flat_targets(ee).drop_first();
                let v = decl_value(ee);
                let rest = decl_rest(t, da);
                let nd = EntryView::Decl(DeclView { groups: decl_groups(ee) + singles(decl_absorbed(t, da)), player: tpos });
                assert(g2.table@ == rest.push(nd));
                assert(rest.push(nd).drop_last() =~= rest);
                lemma_seat_decls(t, p);
                let d = choose|d: DeclView| seat_decls_are(t, p, d);
                lemma_decls_remove_each(t, ts, p, d);
                lemma_decls_keep(decl_taken(t, da), v, p);
                lemma_seat_decls(t, tpos);
                let dt = choose|dt: DeclView| seat_decls_are(t, tpos, dt);
                lemma_decls_remove_each(t, ts, tpos, dt);
                lemma_decls_keep(decl_taken(t, da), v, tpos);
                lemma_first_decl_none(t, tpos);
                lemma_decls_zero(t, tpos);
                match first_decl(t, tpos) {
                    None => {},
                    Some(own) => {
                        lemma_first_decl_in(t, tpos);
                        assert(seat_decls_are(t, tpos, own));
                        lemma_decls_remove_each(t, ts, tpos, own);
                        let (i, j) = choose|i: int, j: int|
                            #[trigger] is_decl_at(ee, i, j) && ee[i][j] == EntryView::Decl(own) && forall|i2: int, j2: int|
                                #[trigger] is_decl_at(ee, i2, j2) ==> i2 == i && j2 == j;
                        lemma_flat_contains(ee, i, j);
                        lemma_flat_first(ee);
                        assert(i > 0 || j > 0);
                        assert(ts.contains(EntryView::Decl(own)));
                    },
                }
            },
        }
    }
}

/// When a seat has at most one declaration, all of its declarations are one value.
pub proof fn lemma_seat_decls(es: Seq<EntryView>, p: PlayerTpos)
    requires
        decls_of_seat(es, p) <= 1,
    ensures
        exists|d: DeclView| seat_decls_are(es, p, d),
    decreases es.len(),
{
    if es.len() == 0 {
        assert(seat_decls_are(es, p, arbitrary()));
    } else {
        lemma_seat_decls(es.drop_last(), p);
        let d0 = choose|d: DeclView| seat_decls_are(es.drop_last(), p, d);
        let last = es.last();
        if last is Decl && last->Decl_0.player == p {
            let d = last->Decl_0;
            assert(decls_of_seat(es.drop_last(), p) == 0);
            lemma_decls_zero(es.drop_last(), p);
            assert forall|i: int| 0 <= i < es.len() && es[i] is Decl && es[i]->Decl_0.player == p
                implies #[trigger] es[i] == EntryView::Decl(d) by {
                if i < es.len() - 1 {
                    assert(es.drop_last()[i] == es[i]);
                }
            }
            assert(seat_decls_are(es, p, d));
        } else {
            assert forall|i: int| 0 <= i < es.len() && es[i] is Decl && es[i]->Decl_0.player == p
                implies #[trigger] es[i] == EntryView::Decl(d0) by {
                if i < es.len() - 1 {
                    assert(es.drop_last()[i] == es[i]);
                }
            }
            assert(seat_decls_are(es, p, d0));
        }
    }
}

/// The first declaration of a seat is among the entries.
pub proof fn lemma_first_decl_in(es: Seq<EntryView>, p: PlayerTpos)
    requires
        first_decl(es, p) is Some,
    ensures
        es.contains(EntryView::Decl(first_decl(es, p)->Some_0)),
        first_decl(es, p)->Some_0.player == p,
    decreases es.len(),
{
    if !(es[0] is Decl && es[0]->Decl_0.player == p) {
        lemma_first_decl_in(es.drop_first(), p);
        let k = choose|k: int| 0 <= k < es.drop_first().len() && es.drop_first()[k] == EntryView::Decl(first_decl(es, p)->Some_0);
        assert(es[k + 1] == es.drop_first()[k]);
    } else {
        assert(es[0] == EntryView::Decl(es[0]->Decl_0));
    }
}

pub proof fn lemma_flat_first(ee: Seq<Seq<EntryView>>)
    requires
        ee.len() > 0 && ee[0].len() > 0,
    ensures
        flat_targets(ee).len() > 0 && flat_targets(ee)[0] == ee[0][0],
    decreases ee.len(),
{
    if ee.len() > 1 {
        lemma_flat_first(ee.drop_last());
        assert(flat_targets(ee) == flat_targets(ee.drop_last()) + ee.last());
    } else {
        assert(ee.drop_last() =~= Seq::<Seq<EntryView>>::empty());
        assert(flat_targets(ee) == flat_targets(ee.drop_last()) + ee.last());
    }
}

} // verus!
