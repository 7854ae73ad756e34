//! The text form of decks, declarations and tables, used to set up games by hand.
//! Each card is two characters, suit then rank (S5, HT, or the suit's symbol); a
//! declaration is `P:[ c1 c2 ][ c3 ]:` where `P` is the seat of its owner.
use vstd::prelude::*;
use vstd::string::StringExecFns;

use crate::card::{card_chars_result, push_char, u8_to_decimal, decimal_of, Card};
use crate::deck::Deck;
use crate::table::{vv_view, DeclView, Declaration, EntryView, PlayerTpos, Table, TableEntry, entries_view};

verus! {

#[derive(Debug, Clone, PartialEq, Eq, Hash)]
pub struct DeckRepr(pub String);

#[derive(Debug, Clone, PartialEq, Eq, Hash)]
pub struct DeclRepr(pub String);

#[derive(Debug, Clone, PartialEq, Eq, Hash)]
pub struct TableEntryRepr(pub String);

#[derive(Debug, Clone, PartialEq, Eq, Hash)]
pub struct TableRepr(pub String);

pub open spec fn is_ws(c: char) -> bool {
    c == ' ' || c == '\t' || c == '\n' || c == '\r' || c == '\x0b' || c == '\x0c'
}

/// The whitespace-separated tokens of a text.
pub open spec fn split_ws(s: Seq<char>) -> Seq<Seq<char>>
    decreases s.len(),
{
    if s.len() == 0 {
        Seq::empty()
    } else {
        let rest = split_ws(s.drop_last());
        let c = s.last();
        if is_ws(c) {
            rest
        } else if s.len() >= 2 && !is_ws(s[s.len() - 2]) {
            rest.drop_last().push(rest.last().push(c))
        } else {
            rest.push(seq![c])
        }
    }
}

/// The card a token names, if any.
pub open spec fn tok_card(t: Seq<char>) -> Option<Card> {
    if t.len() == 2 && card_chars_result(t[0], t[1]) is Ok {
        Some(card_chars_result(t[0], t[1])->Ok_0)
    } else {
        None
    }
}

/// The seat that opens a declaration: `0:[` to `3:[`.
pub open spec fn decl_begin(t: Seq<char>) -> Option<PlayerTpos> {
    if t.len() == 3 && '0' <= t[0] <= '3' && t[1] == ':' && t[2] == '[' {
        Some(PlayerTpos(((t[0] as u8) - ('0' as u8)) as u8))
    } else {
        None
    }
}

pub open spec fn is_sep(t: Seq<char>) -> bool {
    t == seq![']', '[']
}

pub open spec fn is_end(t: Seq<char>) -> bool {
    t == seq![']', ':']
}

/// Where the reading of table entries stands: between entries, or inside a
/// declaration (its seat, its finished groups, the group being read).
pub enum ParseState {
    Top,
    InDecl(PlayerTpos, Seq<Seq<Card>>, Seq<Card>),
}

/// Reads table entries from token `k` on. With `single`, the first entry is the
/// result and what follows it is not read.
pub open spec fn entries_from(ts: Seq<Seq<char>>, k: int, st: ParseState, acc: Seq<EntryView>, single: bool) -> Option<
    Seq<EntryView>,
>
    decreases ts.len() - k,
{
    if k < 0 || k >= ts.len() {
        if st is Top && !single {
            Some(acc)
        } else {
            None
        }
    } else {
        let t = ts[k];
        match st {
            ParseState::Top => if tok_card(t) is Some {
                let e = EntryView::Card(tok_card(t)->Some_0);
                if single {
                    Some(acc.push(e))
                } else {
                    entries_from(ts, k + 1, ParseState::Top, acc.push(e), single)
                }
            } else if decl_begin(t) is Some {
                entries_from(ts, k + 1, ParseState::InDecl(decl_begin(t)->Some_0, Seq::empty(), Seq::empty()), acc, single)
            } else {
                None
            },
            ParseState::InDecl(p, gs, cur) => if is_sep(t) {
                entries_from(ts, k + 1, ParseState::InDecl(p, gs.push(cur), Seq::empty()), acc, single)
            } else if is_end(t) {
                let e = EntryView::Decl(DeclView { groups: gs.push(cur), player: p });
                if single {
                    Some(acc.push(e))
                } else {
                    entries_from(ts, k + 1, ParseState::Top, acc.push(e), single)
                }
            } else if tok_card(t) is Some {
                entries_from(ts, k + 1, ParseState::InDecl(p, gs, cur.push(tok_card(t)->Some_0)), acc, single)
            } else {
                None
            },
        }
    }
}

/// Reads cards from token `k` on; every token must be a card.
pub open spec fn cards_from(ts: Seq<Seq<char>>, k: int, acc: Seq<Card>) -> Option<Seq<Card>>
    decreases ts.len() - k,
{
    if k < 0 || k >= ts.len() {
        Some(acc)
    } else if tok_card(ts[k]) is Some {
        cards_from(ts, k + 1, acc.push(tok_card(ts[k])->Some_0))
    } else {
        None
    }
}

pub open spec fn toks_view(v: Vec<Vec<char>>) -> Seq<Seq<char>> {
    v@.map_values(|t: Vec<char>| t@)
}

fn is_ws_char(c: char) -> (r: bool)
    ensures
        r == is_ws(c),
{
    c == ' ' || c == '\t' || c == '\n' || c == '\r' || c == '\x0b' || c == '\x0c'
}

/// Splits a text into its whitespace-separated tokens.
pub fn tokenize(s: &str) -> (r: Vec<Vec<char>>)
    ensures
        toks_view(r) == split_ws(s@),
{
    let n = s.unicode_len();
    let mut toks: Vec<Vec<char>> = Vec::new();
    let mut cur: Vec<char> = Vec::new();
    let mut i: usize = 0;
    while i < n
        invariant
            n == s@.len(),
            0 <= i <= n,
            cur@.len() > 0 <==> (i > 0 && !is_ws(s@[i - 1])),
            split_ws(s@.subrange(0, i as int)) == if cur@.len() > 0 {
                toks_view(toks).push(cur@)
            } else {
                toks_view(toks)
            },
        decreases n - i,
    {
        let c = s.get_char(i);
        let ghost pre = s@.subrange(0, i as int);
        let ghost next = s@.subrange(0, i + 1);
        assert(next.drop_last() =~= pre);
        assert(next.last() == c);
        if is_ws_char(c) {
            if cur.len() > 0 {
                let ghost tv = toks_view(toks);
                let done = cur;
                toks.push(done);
                assert(toks_view(toks) =~= tv.push(done@));
                cur = Vec::new();
            }
        } else {
            let ghost cv = cur@;
            cur.push(c);
            proof {
                if i > 0 {
                    assert(next[next.len() - 2] == s@[i - 1]);
                }
                if cv.len() > 0 {
                    assert(cur@ =~= cv.push(c));
                } else {
                    assert(cur@ =~= seq![c]);
                }
            }
        }
        i = i + 1;
    }
    assert(s@.subrange(0, n as int) =~= s@);
    if cur.len() > 0 {
        let ghost tv = toks_view(toks);
        let done = cur;
        toks.push(done);
        assert(toks_view(toks) =~= tv.push(done@));
    }
    toks
}

fn token_card(t: &Vec<char>) -> (r: Option<Card>)
    ensures
        r == tok_card(t@),
{
    if t.len() != 2 {
        return None;
    }
    match Card::from_chars(t[0], t[1]) {
        Ok(c) => Some(c),
        Err(_) => None,
    }
}

fn token_decl_begin(t: &Vec<char>) -> (r: Option<PlayerTpos>)
    ensures
        r == decl_begin(t@),
{
    if t.len() == 3 && '0' <= t[0] && t[0] <= '3' && t[1] == ':' && t[2] == '[' {
        Some(PlayerTpos((t[0] as u8) - ('0' as u8)))
    } else {
        None
    }
}

fn token_is2(t: &Vec<char>, a: char, b: char) -> (r: bool)
    ensures
        r == (t@ == seq![a, b]),
{
    let r = t.len() == 2 && t[0] == a && t[1] == b;
    proof {
        if r {
            assert(t@ =~= seq![a, b]);
        }
    }
    r
}

/// Reads the cards of all tokens; None if one is not a card.
fn parse_cards(ts: &Vec<Vec<char>>) -> (r: Option<Vec<Card>>)
    ensures
        r is Some <==> cards_from(toks_view(*ts), 0, Seq::empty()) is Some,
        r is Some ==> r->Some_0@ == cards_from(toks_view(*ts), 0, Seq::empty())->Some_0,
{
    let ghost tv = toks_view(*ts);
    let mut cards: Vec<Card> = Vec::new();
    let mut k: usize = 0;
    while k < ts.len()
        invariant
            tv == toks_view(*ts),
            0 <= k <= ts@.len(),
            cards_from(tv, k as int, cards@) == cards_from(tv, 0, Seq::empty()),
        decreases ts.len() - k,
    {
        assert(tv[k as int] == ts@[k as int]@);
        match token_card(&ts[k]) {
            Some(c) => cards.push(c),
            None => return None,
        }
        k = k + 1;
    }
    Some(cards)
}

fn make_decl(p: PlayerTpos, groups: Vec<Vec<Card>>) -> (r: TableEntry)
    ensures
        r@ == EntryView::Decl(DeclView { groups: vv_view(groups), player: p }),
{
    TableEntry::Decl(Declaration { cards: groups, player: p })
}

/// Reads table entries; with `single`, only the first one.
fn parse_entries(ts: &Vec<Vec<char>>, single: bool) -> (r: Option<Vec<TableEntry>>)
    ensures
        r is Some <==> entries_from(toks_view(*ts), 0, ParseState::Top, Seq::empty(), single) is Some,
        r is Some ==> entries_view(r->Some_0@) == entries_from(toks_view(*ts), 0, ParseState::Top, Seq::empty(), single)->Some_0,
{
    let ghost tv = toks_view(*ts);
    let ghost goal = entries_from(tv, 0, ParseState::Top, Seq::empty(), single);
    let mut acc: Vec<TableEntry> = Vec::new();
    let mut in_decl = false;
    let mut player = PlayerTpos(0);
    let mut groups: Vec<Vec<Card>> = Vec::new();
    let mut cur: Vec<Card> = Vec::new();
    let mut k: usize = 0;
    proof {
        assert(entries_view(acc@) =~= Seq::<EntryView>::empty());
    }
    while k < ts.len()
        invariant
            tv == toks_view(*ts),
            0 <= k <= ts@.len(),
            goal == entries_from(tv, 0, ParseState::Top, Seq::empty(), single),
            goal == entries_from(tv, k as int, if in_decl {
                ParseState::InDecl(player, vv_view(groups), cur@)
            } else {
                ParseState::Top
            }, entries_view(acc@), single),
            !in_decl ==> groups@.len() == 0,
        decreases ts.len() - k,
    {
        let t = &ts[k];
        assert(tv[k as int] == t@);
        let ghost a0 = entries_view(acc@);
        if !in_decl {
            match token_card(t) {
                Some(c) => {
                    acc.push(TableEntry::Card(c));
                    assert(entries_view(acc@) =~= a0.push(EntryView::Card(c)));
                    if single {
                        return Some(acc);
                    }
                },
                None => match token_decl_begin(t) {
                    Some(p) => {
                        in_decl = true;
                        player = p;
                        groups = Vec::new();
                        cur = Vec::new();
                        assert(vv_view(groups) =~= Seq::<Seq<Card>>::empty());
                        assert(cur@ =~= Seq::<Card>::empty());
                    },
                    None => return None,
                },
            }
        } else if token_is2(t, ']', '[') {
            let ghost g0 = vv_view(groups);
            let ghost gl = groups@;
            let done = cur;
            groups.push(done);
            assert(groups@ == gl.push(done));
            assert(vv_view(groups) =~= g0.push(done@));
            cur = Vec::new();
            assert(cur@ =~= Seq::<Card>::empty());
        } else if token_is2(t, ']', ':') {
            let ghost g0 = vv_view(groups);
            let ghost gl = groups@;
            let done = cur;
            let mut gs = groups;
            gs.push(done);
            assert(gs@ == gl.push(done));
            assert(vv_view(gs) =~= g0.push(done@));
            let e = make_decl(player, gs);
            acc.push(e);
            assert(entries_view(acc@) =~= a0.push(e@));
            if single {
                return Some(acc);
            }
            in_decl = false;
            groups = Vec::new();
            cur = Vec::new();
        } else {
            match token_card(t) {
                Some(c) => {
                    cur.push(c);
                },
                None => return None,
            }
        }
        k = k + 1;
    }
    if in_decl || single {
        None
    } else {
        Some(acc)
    }
}

/// The text of a card: the suit's symbol, then the rank's.
pub open spec fn card_text(c: Card) -> Seq<char> {
    seq![c.suit.symbol_spec(), c.rank.symbol_spec()]
}

/// The texts of some cards, separated by a space.
pub open spec fn cards_text(cs: Seq<Card>) -> Seq<char>
    decreases cs.len(),
{
    if cs.len() == 0 {
        Seq::empty()
    } else if cs.len() == 1 {
        card_text(cs[0])
    } else {
        cards_text(cs.drop_last()) + seq![' '] + card_text(cs.last())
    }
}

fn append_card(s: &mut String, c: &Card)
    requires
        c.wf(),
    ensures
        final(s)@ == old(s)@ + card_text(*c),
{
    push_char(s, c.suit.to_symbol());
    push_char(s, c.rank.to_symbol());
    assert(final(s)@ =~= old(s)@ + card_text(*c));
}

/// Whether every card of a declaration has a valid rank.
pub open spec fn decl_cards_wf(gs: Seq<Seq<Card>>) -> bool {
    forall|i: int, j: int| 0 <= i < gs.len() && 0 <= j < gs[i].len() ==> (#[trigger] gs[i][j]).wf()
}

pub open spec fn entry_wf(e: EntryView) -> bool {
    match e {
        EntryView::Card(c) => c.wf(),
        EntryView::Decl(d) => decl_cards_wf(d.groups),
    }
}

impl DeckRepr {
    pub fn new(s: &str) -> (r: Self)
        ensures
            r.0@ == s@,
    {
        DeckRepr(String::from_str(s))
    }

    /// The deck that the text lists, or None if a token is not a card.
    pub fn parse(&self) -> (r: Option<Deck>)
        ensures
            r is Some <==> cards_from(split_ws(self.0@), 0, Seq::empty()) is Some,
            r is Some ==> r->Some_0@ == cards_from(split_ws(self.0@), 0, Seq::empty())->Some_0,
    {
        let ts = tokenize(self.0.as_str());
        match parse_cards(&ts) {
            Some(cards) => Some(Deck { cards: cards }),
            None => None,
        }
    }

    /// The text of a deck: its cards, separated by a space.
    pub fn fmt_deck(deck: &Deck) -> (r: String)
        requires
            forall|i: int| 0 <= i < deck@.len() ==> (#[trigger] deck@[i]).wf(),
        ensures
            r@ == cards_text(deck@),
    {
        let mut s = String::new();
        let mut i: usize = 0;
        while i < deck.cards.len()
            invariant
                0 <= i <= deck@.len(),
                forall|k: int| 0 <= k < deck@.len() ==> (#[trigger] deck@[k]).wf(),
                s@ == cards_text(deck@.subrange(0, i as int)),
            decreases deck.cards.len() - i,
        {
            assert(deck@.subrange(0, i + 1).drop_last() =~= deck@.subrange(0, i as int));
            if i > 0 {
                push_char(&mut s, ' ');
            }
            let ghost s0 = s@;
            append_card(&mut s, &deck.cards[i]);
            i = i + 1;
            proof {
                if i == 1 {
                    assert(s0 =~= Seq::<char>::empty());
                }
                assert(s@ =~= cards_text(deck@.subrange(0, i as int)));
            }
        }
        assert(deck@.subrange(0, deck@.len() as int) =~= deck@);
        s
    }
}

impl DeclRepr {
    pub fn new(s: &str) -> (r: Self)
        ensures
            r.0@ == s@,
    {
        DeclRepr(String::from_str(s))
    }

    /// The declaration that the text starts with, if it starts with one.
    pub fn parse(&self) -> (r: Option<Declaration>)
        ensures
            r is Some ==> ({
                let es = entries_from(split_ws(self.0@), 0, ParseState::Top, Seq::empty(), true);
                es is Some && es->Some_0.len() == 1 && es->Some_0[0] == EntryView::Decl(r->Some_0@)
            }),
            r is None ==> ({
                let es = entries_from(split_ws(self.0@), 0, ParseState::Top, Seq::empty(), true);
                es is None || !(es->Some_0[0] is Decl)
            }),
    {
        let ts = tokenize(self.0.as_str());
        match parse_entries(&ts, true) {
            Some(es) => {
                proof {
                    lemma_single_len(toks_view(ts), 0, ParseState::Top, Seq::empty());
                }
                assert(entries_view(es@)[0] == es@[0]@);
                match &es[0] {
                    TableEntry::Decl(d) => Some(d.duplicate()),
                    TableEntry::Card(_) => None,
                }
            },
            None => None,
        }
    }

    /// The text of a declaration: `P:[ c1 c2 ][ c3 ]:`.
    pub fn fmt_declaration(decl: &Declaration) -> (r: String)
        requires
            decl_cards_wf(decl@.groups),
        ensures
            r@ == join(decl_tokens(decl@)),
    {
        let mut ts: Vec<Vec<char>> = Vec::new();
        push_decl_tokens(&mut ts, decl);
        assert(toks_view(ts) =~= decl_tokens(decl@));
        join_tokens(&ts)
    }
}

pub proof fn lemma_single_len(ts: Seq<Seq<char>>, k: int, st: ParseState, acc: Seq<EntryView>)
    requires
        acc.len() == 0,
        entries_from(ts, k, st, acc, true) is Some,
    ensures
        entries_from(ts, k, st, acc, true)->Some_0.len() == 1,
    decreases ts.len() - k,
{
    if 0 <= k < ts.len() {
        let t = ts[k];
        match st {
            ParseState::Top => {
                if tok_card(t) is Some {
                } else if decl_begin(t) is Some {
                    lemma_single_len(ts, k + 1, ParseState::InDecl(decl_begin(t)->Some_0, Seq::empty(), Seq::empty()), acc);
                }
            },
            ParseState::InDecl(p, gs, cur) => {
                if is_sep(t) {
                    lemma_single_len(ts, k + 1, ParseState::InDecl(p, gs.push(cur), Seq::empty()), acc);
                } else if is_end(t) {
                } else if tok_card(t) is Some {
                    lemma_single_len(ts, k + 1, ParseState::InDecl(p, gs, cur.push(tok_card(t)->Some_0)), acc);
                }
            },
        }
    }
}

impl TableEntryRepr {
    pub fn new(s: &str) -> (r: Self)
        ensures
            r.0@ == s@,
    {
        TableEntryRepr(String::from_str(s))
    }

    /// The entry that the text starts with.
    pub fn parse(&self) -> (r: Option<TableEntry>)
        ensures
            r is Some <==> entries_from(split_ws(self.0@), 0, ParseState::Top, Seq::empty(), true) is Some,
            r is Some ==> seq![r->Some_0@] == entries_from(split_ws(self.0@), 0, ParseState::Top, Seq::empty(), true)->Some_0,
    {
        let ts = tokenize(self.0.as_str());
        match parse_entries(&ts, true) {
            Some(es) => {
                proof {
                    lemma_single_len(toks_view(ts), 0, ParseState::Top, Seq::empty());
                }
                assert(entries_view(es@)[0] == es@[0]@);
                assert(entries_view(es@) =~= seq![es@[0]@]);
                Some(es[0].duplicate())
            },
            None => None,
        }
    }

    pub fn fmt_table_entry(entry: &TableEntry) -> (r: String)
        requires
            entry_wf(entry@),
        ensures
            r@ == join(entry_tokens(entry@)),
    {
        let mut ts: Vec<Vec<char>> = Vec::new();
        push_entry_tokens(&mut ts, entry);
        assert(toks_view(ts) =~= entry_tokens(entry@));
        join_tokens(&ts)
    }
}

impl TableRepr {
    pub fn new(s: &str) -> (r: Self)
        ensures
            r.0@ == s@,
    {
        TableRepr(String::from_str(s))
    }

    /// The table that the text lists: cards and declarations.
    pub fn parse(&self) -> (r: Option<Table>)
        ensures
            r is Some <==> entries_from(split_ws(self.0@), 0, ParseState::Top, Seq::empty(), false) is Some,
            r is Some ==> r->Some_0@ == entries_from(split_ws(self.0@), 0, ParseState::Top, Seq::empty(), false)->Some_0,
    {
        let ts = tokenize(self.0.as_str());
        match parse_entries(&ts, false) {
            Some(es) => Some(Table { entries: es }),
            None => None,
        }
    }

    /// The text of a table: its entries, separated by a space.
    pub fn fmt_table(table: &Table) -> (r: String)
        requires
            forall|i: int| 0 <= i < table@.len() ==> entry_wf(#[trigger] table@[i]),
        ensures
            r@ == join(table_tokens(table@)),
    {
        let mut ts: Vec<Vec<char>> = Vec::new();
        let mut i: usize = 0;
        proof {
            assert(table@.subrange(0, 0) =~= Seq::<EntryView>::empty());
            assert(toks_view(ts) =~= table_tokens(table@.subrange(0, 0)));
        }
        while i < table.entries.len()
            invariant
                0 <= i <= table@.len(),
                forall|k: int| 0 <= k < table@.len() ==> entry_wf(#[trigger] table@[k]),
                toks_view(ts) == table_tokens(table@.subrange(0, i as int)),
            decreases table.entries.len() - i,
        {
            assert(table@[i as int] == table.entries@[i as int]@);
            push_entry_tokens(&mut ts, &table.entries[i]);
            proof {
                lemma_table_tokens_push(table@.subrange(0, i as int), table@[i as int]);
                assert(table@.subrange(0, i as int).push(table@[i as int]) =~= table@.subrange(0, i + 1));
            }
            i = i + 1;
        }
        assert(table@.subrange(0, table@.len() as int) =~= table@);
        join_tokens(&ts)
    }
}

/// Whether a text holds no whitespace.
pub open spec fn no_ws(t: Seq<char>) -> bool {
    forall|i: int| 0 <= i < t.len() ==> !is_ws(#[trigger] t[i])
}

pub proof fn lemma_split_single(t: Seq<char>)
    requires
        t.len() > 0,
        no_ws(t),
    ensures
        split_ws(t) == seq![t],
    decreases t.len(),
{
    if t.len() == 1 {
        assert(t.drop_last() =~= Seq::<char>::empty());
        assert(split_ws(t.drop_last()) == Seq::<Seq<char>>::empty());
        assert(!is_ws(t.last()));
        assert(seq![t.last()] =~= t);
        assert(split_ws(t) == Seq::<Seq<char>>::empty().push(seq![t.last()]));
        assert(Seq::<Seq<char>>::empty().push(seq![t.last()]) =~= seq![t]);
    } else {
        lemma_split_single(t.drop_last());
        assert(t[t.len() - 2] == t.drop_last().last());
        assert(!is_ws(t.last()));
        assert(!is_ws(t[t.len() - 2]));
        assert(t.drop_last().push(t.last()) =~= t);
        assert(seq![t.drop_last()].drop_last().push(seq![t.drop_last()].last().push(t.last())) =~= seq![t]);
    }
}

pub proof fn lemma_split_nonempty(s: Seq<char>)
    requires
        s.len() > 0,
        !is_ws(s.last()),
    ensures
        split_ws(s).len() > 0,
{
}

/// Text joined by a space splits into the tokens of each side.
pub proof fn lemma_split_join(a: Seq<char>, b: Seq<char>)
    ensures
        split_ws(a + seq![' '] + b) == split_ws(a) + split_ws(b),
    decreases b.len(),
{
    let s = a + seq![' '] + b;
    if b.len() == 0 {
        assert(s.drop_last() =~= a);
        assert(split_ws(a) + split_ws(b) =~= split_ws(a));
    } else {
        let b1 = b.drop_last();
        let c = b.last();
        lemma_split_join(a, b1);
        assert(s.drop_last() =~= a + seq![' '] + b1);
        assert(s.last() == c);
        let rest = split_ws(a) + split_ws(b1);
        if is_ws(c) {
        } else if !is_ws(s[s.len() - 2]) {
            assert(b1.len() > 0) by {
                if b1.len() == 0 {
                    assert(s[s.len() - 2] == ' ');
                }
            }
            assert(s[s.len() - 2] == b1.last());
            assert(b[b.len() - 2] == b1.last());
            lemma_split_nonempty(b1);
            assert(rest.drop_last() =~= split_ws(a) + split_ws(b1).drop_last());
            assert(rest.last() == split_ws(b1).last());
            assert(split_ws(s) =~= split_ws(a) + split_ws(b));
        } else {
            if b.len() >= 2 {
                assert(b[b.len() - 2] == s[s.len() - 2]);
            } else {
                assert(b1 =~= Seq::<char>::empty());
            }
            assert(split_ws(s) =~= split_ws(a) + split_ws(b));
        }
    }
}

/// A card's text reads back as that card.
pub proof fn lemma_card_token(c: Card)
    requires
        c.wf(),
    ensures
        tok_card(card_text(c)) == Some(c),
        no_ws(card_text(c)),
        card_text(c).len() == 2,
{
    let r = c.rank.0;
    if 2 <= r <= 9 {
        let ch = (('0' as u8) + r) as char;
        assert(ch as u8 == ('0' as u8) + r);
        assert('1' <= ch <= '9');
    }
    let t = card_text(c);
    assert(t[0] == c.suit.symbol_spec());
    assert(t[1] == c.rank.symbol_spec());
}

/// The tokens of the text of some cards are the texts of the cards.
pub proof fn lemma_cards_text_tokens(cs: Seq<Card>)
    requires
        forall|i: int| 0 <= i < cs.len() ==> (#[trigger] cs[i]).wf(),
    ensures
        split_ws(cards_text(cs)) == cs.map_values(|c: Card| card_text(c)),
    decreases cs.len(),
{
    if cs.len() == 0 {
        assert(cs.map_values(|c: Card| card_text(c)) =~= Seq::<Seq<char>>::empty());
    } else if cs.len() == 1 {
        lemma_card_token(cs[0]);
        lemma_split_single(card_text(cs[0]));
        assert(cs.map_values(|c: Card| card_text(c)) =~= seq![card_text(cs[0])]);
    } else {
        let init = cs.drop_last();
        assert forall|i: int| 0 <= i < init.len() implies (#[trigger] init[i]).wf() by {
            assert(init[i] == cs[i]);
        }
        lemma_cards_text_tokens(init);
        lemma_card_token(cs.last());
        lemma_split_single(card_text(cs.last()));
        lemma_split_join(cards_text(init), card_text(cs.last()));
        assert(cs.map_values(|c: Card| card_text(c)) =~= init.map_values(|c: Card| card_text(c)) + seq![
            card_text(cs.last()),
        ]);
    }
}

/// Reading the texts of some cards gives the cards, after those read so far.
pub proof fn lemma_cards_from_texts(cs: Seq<Card>, k: int, acc: Seq<Card>)
    requires
        0 <= k <= cs.len(),
        forall|i: int| 0 <= i < cs.len() ==> (#[trigger] cs[i]).wf(),
    ensures
        cards_from(cs.map_values(|c: Card| card_text(c)), k, acc) == Some(acc + cs.subrange(k, cs.len() as int)),
    decreases cs.len() - k,
{
    let ts = cs.map_values(|c: Card| card_text(c));
    if k == cs.len() {
        assert(acc + cs.subrange(k, cs.len() as int) =~= acc);
    } else {
        lemma_card_token(cs[k]);
        assert(ts[k] == card_text(cs[k]));
        lemma_cards_from_texts(cs, k + 1, acc.push(cs[k]));
        assert(acc.push(cs[k]) + cs.subrange(k + 1, cs.len() as int) =~= acc + cs.subrange(k, cs.len() as int));
    }
}


/// Tokens joined by single spaces.
pub open spec fn join(ts: Seq<Seq<char>>) -> Seq<char>
    decreases ts.len(),
{
    if ts.len() == 0 {
        Seq::empty()
    } else if ts.len() == 1 {
        ts[0]
    } else {
        join(ts.drop_last()) + seq![' '] + ts.last()
    }
}

/// The tokens of some cards.
pub open spec fn card_tokens(g: Seq<Card>) -> Seq<Seq<char>> {
    g.map_values(|c: Card| card_text(c))
}

/// The tokens of the groups of a declaration after the first: `][`, then the cards.
pub open spec fn more_groups_tokens(hs: Seq<Seq<Card>>) -> Seq<Seq<char>>
    decreases hs.len(),
{
    if hs.len() == 0 {
        Seq::empty()
    } else {
        seq![seq![']', '[']] + card_tokens(hs[0]) + more_groups_tokens(hs.drop_first())
    }
}

/// The tokens of a declaration: `P:[`, the cards of the groups separated by `][`, `]:`.
pub open spec fn decl_tokens(d: DeclView) -> Seq<Seq<char>> {
    if d.groups.len() == 0 {
        seq![decimal_of(d.player.0 as nat) + seq![':', ':']]
    } else {
        seq![decimal_of(d.player.0 as nat) + seq![':', '[']] + card_tokens(d.groups[0]) + more_groups_tokens(
            d.groups.drop_first(),
        ) + seq![seq![']', ':']]
    }
}

pub open spec fn entry_tokens(e: EntryView) -> Seq<Seq<char>> {
    match e {
        EntryView::Card(c) => seq![card_text(c)],
        EntryView::Decl(d) => decl_tokens(d),
    }
}

/// The tokens of some table entries, in order.
pub open spec fn table_tokens(es: Seq<EntryView>) -> Seq<Seq<char>>
    decreases es.len(),
{
    if es.len() == 0 {
        Seq::empty()
    } else {
        entry_tokens(es[0]) + table_tokens(es.drop_first())
    }
}

/// Splitting tokens joined by spaces gives the tokens back.
pub proof fn lemma_split_join_all(ts: Seq<Seq<char>>)
    requires
        forall|i: int| 0 <= i < ts.len() ==> (#[trigger] ts[i]).len() > 0 && no_ws(ts[i]),
    ensures
        split_ws(join(ts)) == ts,
    decreases ts.len(),
{
    if ts.len() == 0 {
    } else if ts.len() == 1 {
        lemma_split_single(ts[0]);
        assert(seq![ts[0]] =~= ts);
    } else {
        let init = ts.drop_last();
        assert forall|i: int| 0 <= i < init.len() implies (#[trigger] init[i]).len() > 0 && no_ws(init[i]) by {
            assert(init[i] == ts[i]);
        }
        lemma_split_join_all(init);
        lemma_split_single(ts.last());
        lemma_split_join(join(init), ts.last());
        assert(init + seq![ts.last()] =~= ts);
    }
}

fn card_token(c: &Card) -> (r: Vec<char>)
    requires
        c.wf(),
    ensures
        r@ == card_text(*c),
{
    let mut t: Vec<char> = Vec::new();
    t.push(c.suit.to_symbol());
    t.push(c.rank.to_symbol());
    assert(t@ =~= card_text(*c));
    t
}

fn push_token(out: &mut Vec<Vec<char>>, t: Vec<char>)
    ensures
        toks_view(*final(out)) == toks_view(*old(out)).push(t@),
{
    let ghost o = out@;
    out.push(t);
    assert(out@ == o.push(t));
    assert(toks_view(*out) =~= toks_view(*old(out)).push(t@));
}

fn push_card_tokens(out: &mut Vec<Vec<char>>, g: &Vec<Card>)
    requires
        forall|i: int| 0 <= i < g@.len() ==> (#[trigger] g@[i]).wf(),
    ensures
        toks_view(*final(out)) == toks_view(*old(out)) + card_tokens(g@),
{
    let mut i: usize = 0;
    while i < g.len()
        invariant
            0 <= i <= g@.len(),
            forall|k: int| 0 <= k < g@.len() ==> (#[trigger] g@[k]).wf(),
            toks_view(*out) == toks_view(*old(out)) + card_tokens(g@.subrange(0, i as int)),
        decreases g.len() - i,
    {
        let t = card_token(&g[i]);
        push_token(out, t);
        i = i + 1;
        assert(card_tokens(g@.subrange(0, i as int)) =~= card_tokens(g@.subrange(0, i - 1)).push(card_text(g@[i - 1])));
        assert(toks_view(*out) =~= toks_view(*old(out)) + card_tokens(g@.subrange(0, i as int)));
    }
    assert(g@.subrange(0, g@.len() as int) =~= g@);
}

fn decimal_chars(v: u8) -> (r: Vec<char>)
    ensures
        r@ == decimal_of(v as nat),
{
    let s = u8_to_decimal(v);
    let n = s.as_str().unicode_len();
    let mut r: Vec<char> = Vec::new();
    let mut i: usize = 0;
    while i < n
        invariant
            n == s@.len(),
            0 <= i <= n,
            r@ == s@.subrange(0, i as int),
        decreases n - i,
    {
        r.push(s.as_str().get_char(i));
        i = i + 1;
        assert(r@ =~= s@.subrange(0, i as int));
    }
    assert(s@.subrange(0, n as int) =~= s@);
    r
}

pub proof fn lemma_more_groups_split(hs: Seq<Seq<Card>>)
    requires
        hs.len() > 0,
    ensures
        more_groups_tokens(hs) == more_groups_tokens(hs.drop_last()) + seq![seq![']', '[']] + card_tokens(hs.last()),
    decreases hs.len(),
{
    if hs.len() == 1 {
        assert(hs.drop_first() =~= Seq::<Seq<Card>>::empty());
        assert(hs.drop_last() =~= Seq::<Seq<Card>>::empty());
        assert(more_groups_tokens(hs) =~= more_groups_tokens(hs.drop_last()) + seq![seq![']', '[']] + card_tokens(
            hs.last(),
        ));
    } else {
        lemma_more_groups_split(hs.drop_first());
        assert(hs.drop_first().drop_last() =~= hs.drop_last().drop_first());
        assert(hs.drop_first().last() == hs.last());
        assert(hs.drop_last()[0] == hs[0]);
        assert(more_groups_tokens(hs) =~= more_groups_tokens(hs.drop_last()) + seq![seq![']', '[']] + card_tokens(
            hs.last(),
        ));
    }
}

/// Appends the tokens of a declaration.
fn push_decl_tokens(out: &mut Vec<Vec<char>>, d: &Declaration)
    requires
        decl_cards_wf(d@.groups),
    ensures
        toks_view(*final(out)) == toks_view(*old(out)) + decl_tokens(d@),
{
    let ghost gs = d@.groups;
    let mut first = decimal_chars(d.player.0);
    first.push(':');
    let ghost dec = decimal_of(d.player.0 as nat);
    if d.cards.len() == 0 {
        first.push(':');
        assert(first@ =~= dec + seq![':', ':']);
        push_token(out, first);
        assert(toks_view(*out) =~= toks_view(*old(out)) + decl_tokens(d@));
        return;
    }
    first.push('[');
    assert(first@ =~= dec + seq![':', '[']);
    let ghost o0 = toks_view(*out);
    push_token(out, first);
    assert(toks_view(*out) == toks_view(*old(out)).push(dec + seq![':', '[']));
    assert(gs[0] == d.cards@[0]@);
    push_card_tokens(out, &d.cards[0]);
    let ghost base = toks_view(*out);
    let mut i: usize = 1;
    proof {
        assert(gs.subrange(1, 1) =~= Seq::<Seq<Card>>::empty());
        assert(toks_view(*out) =~= base + more_groups_tokens(gs.subrange(1, 1)));
    }
    while i < d.cards.len()
        invariant
            gs == d@.groups,
            decl_cards_wf(gs),
            1 <= i <= gs.len(),
            toks_view(*out) == base + more_groups_tokens(gs.subrange(1, i as int)),
        decreases d.cards.len() - i,
    {
        let mut sep: Vec<char> = Vec::new();
        sep.push(']');
        sep.push('[');
        assert(sep@ =~= seq![']', '[']);
        push_token(out, sep);
        assert(gs[i as int] == d.cards@[i as int]@);
        proof {
            assert forall|k: int| 0 <= k < gs[i as int].len() implies (#[trigger] gs[i as int][k]).wf() by {}
        }
        push_card_tokens(out, &d.cards[i]);
        proof {
            lemma_more_groups_split(gs.subrange(1, i + 1));
            assert(gs.subrange(1, i + 1).drop_last() =~= gs.subrange(1, i as int));
            assert(gs.subrange(1, i + 1).last() == gs[i as int]);
        }
        i = i + 1;
        assert(toks_view(*out) =~= base + more_groups_tokens(gs.subrange(1, i as int)));
    }
    let mut end: Vec<char> = Vec::new();
    end.push(']');
    end.push(':');
    assert(end@ =~= seq![']', ':']);
    push_token(out, end);
    assert(gs.subrange(1, gs.len() as int) =~= gs.drop_first());
    assert(d@.groups.len() > 0);
    assert(base == toks_view(*old(out)).push(dec + seq![':', '[']) + card_tokens(gs[0]));
    assert(toks_view(*out) =~= toks_view(*old(out)) + decl_tokens(d@));
}

/// Joins tokens with single spaces.
fn join_tokens(ts: &Vec<Vec<char>>) -> (r: String)
    ensures
        r@ == join(toks_view(*ts)),
{
    let ghost tv = toks_view(*ts);
    let mut s = String::new();
    let mut i: usize = 0;
    while i < ts.len()
        invariant
            tv == toks_view(*ts),
            0 <= i <= ts@.len(),
            s@ == join(tv.subrange(0, i as int)),
        decreases ts.len() - i,
    {
        let ghost s0 = s@;
        if i > 0 {
            push_char(&mut s, ' ');
        }
        let t = &ts[i];
        assert(tv[i as int] == t@);
        let mut k: usize = 0;
        let ghost s1 = s@;
        while k < t.len()
            invariant
                0 <= k <= t@.len(),
                s@ == s1 + t@.subrange(0, k as int),
            decreases t.len() - k,
        {
            push_char(&mut s, t[k]);
            k = k + 1;
            assert(s@ =~= s1 + t@.subrange(0, k as int));
        }
        assert(t@.subrange(0, t@.len() as int) =~= t@);
        proof {
            assert(tv.subrange(0, i + 1).drop_last() =~= tv.subrange(0, i as int));
            if i == 0 {
                assert(s0 =~= Seq::<char>::empty());
                assert(s@ =~= join(tv.subrange(0, 1)));
            } else {
                assert(s@ =~= join(tv.subrange(0, i + 1)));
            }
        }
        i = i + 1;
    }
    assert(tv.subrange(0, tv.len() as int) =~= tv);
    s
}


pub proof fn lemma_table_tokens_push(es: Seq<EntryView>, e: EntryView)
    ensures
        table_tokens(es.push(e)) == table_tokens(es) + entry_tokens(e),
    decreases es.len(),
{
    if es.len() == 0 {
        assert(es.push(e).drop_first() =~= Seq::<EntryView>::empty());
        assert(es.push(e)[0] == e);
        assert(table_tokens(es.push(e).drop_first()) == Seq::<Seq<char>>::empty());
        assert(table_tokens(es) == Seq::<Seq<char>>::empty());
        assert(table_tokens(es.push(e)) == entry_tokens(e) + Seq::<Seq<char>>::empty());
        assert(table_tokens(es.push(e)) =~= table_tokens(es) + entry_tokens(e));
    } else {
        lemma_table_tokens_push(es.drop_first(), e);
        assert(es.push(e).drop_first() =~= es.drop_first().push(e));
        assert(es.push(e)[0] == es[0]);
        let a = entry_tokens(es[0]);
        let b = table_tokens(es.drop_first());
        let c = entry_tokens(e);
        assert(table_tokens(es.push(e)) == a + table_tokens(es.drop_first().push(e)));
        assert(table_tokens(es.push(e)) == a + (b + c));
        assert(table_tokens(es) == a + b);
        assert(a + (b + c) =~= (a + b) + c);
    }
}

fn push_entry_tokens(out: &mut Vec<Vec<char>>, e: &TableEntry)
    requires
        entry_wf(e@),
    ensures
        toks_view(*final(out)) == toks_view(*old(out)) + entry_tokens(e@),
{
    match e {
        TableEntry::Card(c) => {
            let t = card_token(c);
            push_token(out, t);
            assert(toks_view(*out) =~= toks_view(*old(out)) + entry_tokens(e@));
        },
        TableEntry::Decl(d) => push_decl_tokens(out, d),
    }
}

/// Whether each token is non-empty and holds no whitespace.
pub open spec fn good_tokens(ts: Seq<Seq<char>>) -> bool {
    forall|i: int| 0 <= i < ts.len() ==> (#[trigger] ts[i]).len() > 0 && no_ws(ts[i])
}

/// Whether an entry reads back from its text: cards of valid ranks, and for a
/// declaration at least one group and a seat of 0 to 3.
pub open spec fn entry_readable(e: EntryView) -> bool {
    match e {
        EntryView::Card(c) => c.wf(),
        EntryView::Decl(d) => d.groups.len() > 0 && d.player.0 <= 3 && decl_cards_wf(d.groups),
    }
}

pub proof fn lemma_good_concat(a: Seq<Seq<char>>, b: Seq<Seq<char>>)
    requires
        good_tokens(a),
        good_tokens(b),
    ensures
        good_tokens(a + b),
{
    assert forall|i: int| 0 <= i < (a + b).len() implies (#[trigger] (a + b)[i]).len() > 0 && no_ws((a + b)[i]) by {
        if i < a.len() {
            assert((a + b)[i] == a[i]);
        } else {
            assert((a + b)[i] == b[i - a.len()]);
        }
    }
}

pub proof fn lemma_card_tokens_good(g: Seq<Card>)
    requires
        forall|i: int| 0 <= i < g.len() ==> (#[trigger] g[i]).wf(),
    ensures
        good_tokens(card_tokens(g)),
{
    assert forall|i: int| 0 <= i < card_tokens(g).len() implies (#[trigger] card_tokens(g)[i]).len() > 0 && no_ws(
        card_tokens(g)[i],
    ) by {
        lemma_card_token(g[i]);
    }
}

pub proof fn lemma_more_groups_good(hs: Seq<Seq<Card>>)
    requires
        decl_cards_wf(hs),
    ensures
        good_tokens(more_groups_tokens(hs)),
    decreases hs.len(),
{
    if hs.len() > 0 {
        let t = hs.drop_first();
        assert forall|i: int, j: int| 0 <= i < t.len() && 0 <= j < t[i].len() implies (#[trigger] t[i][j]).wf() by {
            assert(t[i] == hs[i + 1]);
        }
        lemma_more_groups_good(t);
        assert forall|j: int| 0 <= j < hs[0].len() implies (#[trigger] hs[0][j]).wf() by {}
        lemma_card_tokens_good(hs[0]);
        let sep = seq![seq![']', '[']];
        assert(good_tokens(sep)) by {
            assert(sep[0] == seq![']', '[']);
        }
        lemma_good_concat(sep, card_tokens(hs[0]));
        lemma_good_concat(sep + card_tokens(hs[0]), more_groups_tokens(t));
    }
}

pub proof fn lemma_decimal_digit(p: u8)
    requires
        p <= 9,
    ensures
        decimal_of(p as nat) == seq![(('0' as u8) + p) as char],
        (((('0' as u8) + p) as char) as u8) == ('0' as u8) + p,
{
    assert(decimal_of(p as nat) == seq![(('0' as nat) + p) as char]);
}

pub proof fn lemma_entry_tokens_good(e: EntryView)
    requires
        entry_readable(e),
    ensures
        good_tokens(entry_tokens(e)),
{
    match e {
        EntryView::Card(c) => {
            lemma_card_token(c);
            assert(entry_tokens(e)[0] == card_text(c));
        },
        EntryView::Decl(d) => {
            let gs = d.groups;
            lemma_decimal_digit(d.player.0);
            let first = seq![decimal_of(d.player.0 as nat) + seq![':', '[']];
            assert(good_tokens(first)) by {
                assert(first[0] =~= seq![(('0' as u8) + d.player.0) as char, ':', '[']);
            }
            assert forall|j: int| 0 <= j < gs[0].len() implies (#[trigger] gs[0][j]).wf() by {}
            lemma_card_tokens_good(gs[0]);
            let t = gs.drop_first();
            assert forall|i: int, j: int| 0 <= i < t.len() && 0 <= j < t[i].len() implies (#[trigger] t[i][j]).wf() by {
                assert(t[i] == gs[i + 1]);
            }
            lemma_more_groups_good(t);
            let end = seq![seq![']', ':']];
            assert(good_tokens(end)) by {
                assert(end[0] == seq![']', ':']);
            }
            lemma_good_concat(first, card_tokens(gs[0]));
            lemma_good_concat(first + card_tokens(gs[0]), more_groups_tokens(t));
            lemma_good_concat(first + card_tokens(gs[0]) + more_groups_tokens(t), end);
        },
    }
}

pub proof fn lemma_table_tokens_good(es: Seq<EntryView>)
    requires
        forall|i: int| 0 <= i < es.len() ==> entry_readable(#[trigger] es[i]),
    ensures
        good_tokens(table_tokens(es)),
    decreases es.len(),
{
    if es.len() > 0 {
        let t = es.drop_first();
        assert forall|i: int| 0 <= i < t.len() implies entry_readable(#[trigger] t[i]) by {
            assert(t[i] == es[i + 1]);
        }
        lemma_table_tokens_good(t);
        lemma_entry_tokens_good(es[0]);
        lemma_good_concat(entry_tokens(es[0]), table_tokens(t));
    }
}

/// Reading the tokens of a group's cards adds them to the group being read.
pub proof fn lemma_run_cards(
    ts: Seq<Seq<char>>,
    k: int,
    p: PlayerTpos,
    gs: Seq<Seq<Card>>,
    cur: Seq<Card>,
    acc: Seq<EntryView>,
    single: bool,
    g: Seq<Card>,
)
    requires
        0 <= k,
        k + g.len() <= ts.len(),
        ts.subrange(k, k + g.len()) == card_tokens(g),
        forall|i: int| 0 <= i < g.len() ==> (#[trigger] g[i]).wf(),
    ensures
        entries_from(ts, k, ParseState::InDecl(p, gs, cur), acc, single) == entries_from(
            ts,
            k + g.len(),
            ParseState::InDecl(p, gs, cur + g),
            acc,
            single,
        ),
    decreases g.len(),
{
    if g.len() == 0 {
        assert(cur + g =~= cur);
    } else {
        lemma_card_token(g[0]);
        assert(ts[k] == ts.subrange(k, k + g.len())[0]);
        assert(ts[k] == card_text(g[0]));
        assert(!is_sep(ts[k])) by {
            if is_sep(ts[k]) {
                assert(ts[k][0] == ']');
            }
        }
        assert(!is_end(ts[k])) by {
            if is_end(ts[k]) {
                assert(ts[k][0] == ']');
            }
        }
        let t = g.drop_first();
        assert forall|i: int| 0 <= i < t.len() implies (#[trigger] t[i]).wf() by {
            assert(t[i] == g[i + 1]);
        }
        assert forall|i: int| 0 <= i < t.len() implies ts.subrange(k + 1, k + 1 + t.len())[i] == card_tokens(t)[i] by {
            assert(ts.subrange(k + 1, k + 1 + t.len())[i] == ts[k + 1 + i]);
            assert(ts[k + 1 + i] == ts.subrange(k, k + g.len())[1 + i]);
            assert(card_tokens(g)[1 + i] == card_text(g[1 + i]));
            assert(t[i] == g[1 + i]);
        }
        assert(ts.subrange(k + 1, k + 1 + t.len()) =~= card_tokens(t));
        lemma_run_cards(ts, k + 1, p, gs, cur.push(g[0]), acc, single, t);
        assert(cur.push(g[0]) + t =~= cur + g);
    }
}

/// Reading the tokens of the groups after the first: each `][` closes the group
/// being read.
pub proof fn lemma_run_more(
    ts: Seq<Seq<char>>,
    k: int,
    p: PlayerTpos,
    gs: Seq<Seq<Card>>,
    cur: Seq<Card>,
    acc: Seq<EntryView>,
    single: bool,
    hs: Seq<Seq<Card>>,
)
    requires
        0 <= k,
        k + more_groups_tokens(hs).len() <= ts.len(),
        ts.subrange(k, k + more_groups_tokens(hs).len()) == more_groups_tokens(hs),
        decl_cards_wf(hs),
    ensures
        hs.len() == 0 ==> entries_from(ts, k, ParseState::InDecl(p, gs, cur), acc, single) == entries_from(
            ts,
            k + more_groups_tokens(hs).len(),
            ParseState::InDecl(p, gs, cur),
            acc,
            single,
        ),
        hs.len() > 0 ==> entries_from(ts, k, ParseState::InDecl(p, gs, cur), acc, single) == entries_from(
            ts,
            k + more_groups_tokens(hs).len(),
            ParseState::InDecl(p, gs.push(cur) + hs.drop_last(), hs.last()),
            acc,
            single,
        ),
    decreases hs.len(),
{
    if hs.len() > 0 {
        let m = more_groups_tokens(hs);
        let g0 = hs[0];
        let t = hs.drop_first();
        let n0 = card_tokens(g0).len();
        assert(m == seq![seq![']', '[']] + card_tokens(g0) + more_groups_tokens(t));
        assert(ts[k] == m[0]);
        assert(is_sep(ts[k]));
        assert(tok_card(ts[k]) is None) by {
            assert(ts[k][0] == ']');
        }
        assert forall|j: int| 0 <= j < g0.len() implies (#[trigger] g0[j]).wf() by {}
        assert(ts.subrange(k + 1, k + 1 + g0.len()) =~= card_tokens(g0)) by {
            assert forall|i: int| 0 <= i < g0.len() implies ts.subrange(k + 1, k + 1 + g0.len())[i] == card_tokens(g0)[i] by {
                assert(ts[k + 1 + i] == m[1 + i]);
            }
        }
        lemma_run_cards(ts, k + 1, p, gs.push(cur), Seq::empty(), acc, single, g0);
        assert(Seq::<Card>::empty() + g0 =~= g0);
        assert forall|i: int, j: int| 0 <= i < t.len() && 0 <= j < t[i].len() implies (#[trigger] t[i][j]).wf() by {
            assert(t[i] == hs[i + 1]);
        }
        let k2 = k + 1 + g0.len();
        assert(ts.subrange(k2, k2 + more_groups_tokens(t).len()) =~= more_groups_tokens(t)) by {
            assert forall|i: int| 0 <= i < more_groups_tokens(t).len() implies ts.subrange(
                k2,
                k2 + more_groups_tokens(t).len(),
            )[i] == more_groups_tokens(t)[i] by {
                assert(ts[k2 + i] == m[1 + g0.len() + i]);
            }
        }
        lemma_run_more(ts, k2, p, gs.push(cur), g0, acc, single, t);
        if t.len() == 0 {
            assert(hs.drop_last() =~= Seq::<Seq<Card>>::empty());
            assert(gs.push(cur) + hs.drop_last() =~= gs.push(cur));
        } else {
            assert(gs.push(cur).push(g0) + t.drop_last() =~= gs.push(cur) + hs.drop_last());
            assert(t.last() == hs.last());
        }
    }
}

/// Reading the tokens of a declaration gives that declaration.
pub proof fn lemma_run_decl(ts: Seq<Seq<char>>, k: int, d: DeclView, acc: Seq<EntryView>, single: bool)
    requires
        0 <= k,
        k + decl_tokens(d).len() <= ts.len(),
        ts.subrange(k, k + decl_tokens(d).len()) == decl_tokens(d),
        entry_readable(EntryView::Decl(d)),
    ensures
        entries_from(ts, k, ParseState::Top, acc, single) == if single {
            Some(acc.push(EntryView::Decl(d)))
        } else {
            entries_from(ts, k + decl_tokens(d).len(), ParseState::Top, acc.push(EntryView::Decl(d)), single)
        },
{
    let gs = d.groups;
    let p = d.player;
    let dt = decl_tokens(d);
    let g0 = gs[0];
    let t = gs.drop_first();
    lemma_decimal_digit(p.0);
    let first = decimal_of(p.0 as nat) + seq![':', '['];
    assert(first =~= seq![(('0' as u8) + p.0) as char, ':', '[']);
    assert(dt == seq![first] + card_tokens(g0) + more_groups_tokens(t) + seq![seq![']', ':']]);
    assert(ts[k] == dt[0]);
    assert(ts[k] == first);
    assert(tok_card(ts[k]) is None);
    assert(decl_begin(ts[k]) == Some(p));
    assert forall|j: int| 0 <= j < g0.len() implies (#[trigger] g0[j]).wf() by {}
    assert(ts.subrange(k + 1, k + 1 + g0.len()) =~= card_tokens(g0)) by {
        assert forall|i: int| 0 <= i < g0.len() implies ts.subrange(k + 1, k + 1 + g0.len())[i] == card_tokens(g0)[i] by {
            assert(ts[k + 1 + i] == dt[1 + i]);
        }
    }
    lemma_run_cards(ts, k + 1, p, Seq::empty(), Seq::empty(), acc, single, g0);
    assert(Seq::<Card>::empty() + g0 =~= g0);
    assert forall|i: int, j: int| 0 <= i < t.len() && 0 <= j < t[i].len() implies (#[trigger] t[i][j]).wf() by {
        assert(t[i] == gs[i + 1]);
    }
    let k2 = k + 1 + g0.len();
    let mt = more_groups_tokens(t);
    assert(ts.subrange(k2, k2 + mt.len()) =~= mt) by {
        assert forall|i: int| 0 <= i < mt.len() implies ts.subrange(k2, k2 + mt.len())[i] == mt[i] by {
            assert(ts[k2 + i] == dt[1 + g0.len() + i]);
        }
    }
    lemma_run_more(ts, k2, p, Seq::empty(), g0, acc, single, t);
    let k3 = k2 + mt.len();
    assert(ts[k3] == dt[dt.len() - 1]);
    assert(is_end(ts[k3]));
    assert(!is_sep(ts[k3]));
    let (fg, fc) = if t.len() == 0 {
        (Seq::<Seq<Card>>::empty(), g0)
    } else {
        (Seq::<Seq<Card>>::empty().push(g0) + t.drop_last(), t.last())
    };
    assert(fg.push(fc) =~= gs);
    assert(k3 + 1 == k + dt.len());
}

/// Reading the tokens of some entries gives those entries.
pub proof fn lemma_run_table(ts: Seq<Seq<char>>, k: int, es: Seq<EntryView>, acc: Seq<EntryView>)
    requires
        0 <= k,
        k + table_tokens(es).len() <= ts.len(),
        ts.subrange(k, k + table_tokens(es).len()) == table_tokens(es),
        forall|i: int| 0 <= i < es.len() ==> entry_readable(#[trigger] es[i]),
    ensures
        entries_from(ts, k, ParseState::Top, acc, false) == entries_from(
            ts,
            k + table_tokens(es).len(),
            ParseState::Top,
            acc + es,
            false,
        ),
    decreases es.len(),
{
    if es.len() == 0 {
        assert(acc + es =~= acc);
    } else {
        let e = es[0];
        let t = es.drop_first();
        let tt = table_tokens(es);
        let et = entry_tokens(e);
        assert(tt == et + table_tokens(t));
        assert forall|i: int| 0 <= i < t.len() implies entry_readable(#[trigger] t[i]) by {
            assert(t[i] == es[i + 1]);
        }
        assert(ts.subrange(k, k + et.len()) =~= et) by {
            assert forall|i: int| 0 <= i < et.len() implies ts.subrange(k, k + et.len())[i] == et[i] by {
                assert(ts[k + i] == tt[i]);
            }
        }
        let k2 = k + et.len();
        assert(ts.subrange(k2, k2 + table_tokens(t).len()) =~= table_tokens(t)) by {
            assert forall|i: int| 0 <= i < table_tokens(t).len() implies ts.subrange(k2, k2 + table_tokens(t).len())[i]
                == table_tokens(t)[i] by {
                assert(ts[k2 + i] == tt[et.len() + i]);
            }
        }
        match e {
            EntryView::Card(c) => {
                lemma_card_token(c);
                assert(ts[k] == ts.subrange(k, k + et.len())[0]);
                assert(et[0] == card_text(c));
                assert(ts[k] == card_text(c));
                assert(et.len() == 1);
            },
            EntryView::Decl(d) => {
                lemma_run_decl(ts, k, d, acc, false);
            },
        }
        lemma_run_table(ts, k2, t, acc.push(e));
        assert(acc.push(e) + t =~= acc + es);
    }
}

} // verus!
