use vstd::prelude::*;
use rand::distributions::Alphanumeric;
use rand::Rng;

use crate::card::push_char;

verus! {

/// The length of a game identifier.
pub const GAME_ID_LEN: usize = 16;

/// How many random identifiers a new game tries before giving up.
pub const MAX_ID_TRIES: usize = 64;

/// Whether a character is an ASCII letter or digit.
pub open spec fn is_alnum(c: char) -> bool {
    ('a' <= c <= 'z') || ('A' <= c <= 'Z') || ('0' <= c <= '9')
}

/// Relies on rand's `Alphanumeric` distribution sampled from `thread_rng`: an endless
/// stream of ASCII letters and digits, of which `take(n)` keeps exactly `n`.
#[verifier::external_body]
fn random_alnum(n: usize) -> (r: Vec<char>)
    ensures
        r@.len() == n,
        forall|i: int| 0 <= i < n ==> is_alnum(#[trigger] r@[i]),
{
    rand::thread_rng().sample_iter(&Alphanumeric).take(n).collect()
}

/// A session identifier: sixteen characters.
#[derive(Clone, Copy, PartialEq, Eq, Hash, Debug)]
pub struct GameId(pub [char; 16]);

impl GameId {
    pub open spec fn chars(&self) -> Seq<char> {
        self.0@
    }

    pub fn len() -> (r: usize)
        ensures
            r == GAME_ID_LEN,
    {
        GAME_ID_LEN
    }

    /// A random identifier of letters and digits.
    pub fn new_random() -> (r: GameId)
        ensures
            forall|i: int| 0 <= i < GAME_ID_LEN ==> is_alnum(#[trigger] r.chars()[i]),
    {
        let v = random_alnum(GAME_ID_LEN);
        let mut arr: [char; 16] = ['x'; 16];
        let mut i: usize = 0;
        while i < GAME_ID_LEN
            invariant
                v@.len() == GAME_ID_LEN,
                forall|k: int| 0 <= k < GAME_ID_LEN ==> is_alnum(#[trigger] v@[k]),
                0 <= i <= GAME_ID_LEN,
                forall|k: int| 0 <= k < i ==> arr@[k] == v@[k],
            decreases GAME_ID_LEN - i,
        {
            arr.set(i, v[i]);
            i = i + 1;
        }
        GameId(arr)
    }

    /// The identifier that a text of exactly sixteen characters spells.
    pub fn from_string(s: &str) -> (r: Option<GameId>)
        ensures
            r is Some <==> s@.len() == GAME_ID_LEN,
            r is Some ==> r->Some_0.chars() == s@,
    {
        if s.unicode_len() != GAME_ID_LEN {
            return None;
        }
        let mut arr: [char; 16] = ['y'; 16];
        let mut i: usize = 0;
        while i < GAME_ID_LEN
            invariant
                s@.len() == GAME_ID_LEN,
                0 <= i <= GAME_ID_LEN,
                forall|k: int| 0 <= k < i ==> arr@[k] == s@[k],
            decreases GAME_ID_LEN - i,
        {
            arr.set(i, s.get_char(i));
            i = i + 1;
        }
        assert(arr@ =~= s@);
        Some(GameId(arr))
    }

    /// The identifier's text.
    pub fn to_string(&self) -> (r: String)
        ensures
            r@ == self.chars(),
    {
        let mut s = String::new();
        let mut i: usize = 0;
        while i < GAME_ID_LEN
            invariant
                0 <= i <= GAME_ID_LEN,
                s@ == self.chars().subrange(0, i as int),
            decreases GAME_ID_LEN - i,
        {
            push_char(&mut s, self.0[i]);
            i = i + 1;
            assert(s@ =~= self.chars().subrange(0, i as int));
        }
        assert(self.chars().subrange(0, 16) =~= self.chars());
        s
    }

    pub fn same(&self, other: &GameId) -> (r: bool)
        ensures
            r == (self.chars() == other.chars()),
    {
        let mut i: usize = 0;
        while i < GAME_ID_LEN
            invariant
                0 <= i <= GAME_ID_LEN,
                forall|k: int| 0 <= k < i ==> self.chars()[k] == other.chars()[k],
            decreases GAME_ID_LEN - i,
        {
            if self.0[i] != other.0[i] {
                return false;
            }
            i = i + 1;
        }
        assert(self.chars() =~= other.chars());
        true
    }
}

/// The session directory: maps identifiers to session handles, one entry per
/// identifier.
pub struct Directory<H> {
    pub ht: Vec<(GameId, H)>,
}

impl<H> Directory<H> {
    pub open spec fn ids(&self) -> Seq<Seq<char>> {
        self.ht@.map_values(|e: (GameId, H)| e.0.chars())
    }

    /// Identifiers are unique.
    pub open spec fn wf(&self) -> bool {
        forall|i: int, j: int| 0 <= i < j < self.ht@.len() ==> (#[trigger] self.ht@[i]).0.chars() != (#[trigger] self.ht@[j]).0.chars()
    }

    pub open spec fn has_id(&self, id: Seq<char>) -> bool {
        exists|i: int| 0 <= i < self.ht@.len() && (#[trigger] self.ht@[i]).0.chars() == id
    }

    pub fn new() -> (r: Directory<H>)
        ensures
            r.wf(),
            r.ht@.len() == 0,
    {
        Directory { ht: Vec::new() }
    }

    fn find(&self, gid: &GameId) -> (r: Option<usize>)
        ensures
            r is Some ==> r->Some_0 < self.ht@.len() && self.ht@[r->Some_0 as int].0.chars() == gid.chars(),
            r is None ==> !self.has_id(gid.chars()),
    {
        let mut i: usize = 0;
        while i < self.ht.len()
            invariant
                0 <= i <= self.ht@.len(),
                forall|k: int| 0 <= k < i ==> (#[trigger] self.ht@[k]).0.chars() != gid.chars(),
            decreases self.ht.len() - i,
        {
            if self.ht[i].0.same(gid) {
                return Some(i);
            }
            i = i + 1;
        }
        None
    }

    /// The handle of a session.
    pub fn get_game_handle(&self, gid: GameId) -> (r: Option<&H>)
        ensures
            r is Some <==> self.has_id(gid.chars()),
            r is Some ==> exists|i: int|
                0 <= i < self.ht@.len() && self.ht@[i].0.chars() == gid.chars() && *r->Some_0 == self.ht@[i].1,
    {
        match self.find(&gid) {
            Some(i) => Some(&self.ht[i].1),
            None => None,
        }
    }

    /// A random identifier that no session has yet; random identifiers are drawn
    /// again on a collision, up to a bound.
    pub fn new_game_id(&self) -> (r: Option<GameId>)
        ensures
            r is Some ==> !self.has_id(r->Some_0.chars()) && forall|i: int|
                0 <= i < GAME_ID_LEN ==> is_alnum(#[trigger] r->Some_0.chars()[i]),
    {
        let mut tries: usize = 0;
        while tries < MAX_ID_TRIES
            invariant
                0 <= tries <= MAX_ID_TRIES,
            decreases MAX_ID_TRIES - tries,
        {
            let gid = GameId::new_random();
            if self.find(&gid).is_none() {
                return Some(gid);
            }
            tries = tries + 1;
        }
        None
    }

    /// Creates a session under a random identifier that no session has: `spawn`
    /// makes the session's handle from its identifier, and the handle is recorded.
    /// None when no free identifier was found.
    pub fn new_game<F: FnOnce(GameId) -> H>(&mut self, spawn: F) -> (r: Option<GameId>)
        requires
            old(self).wf(),
            forall|gid: GameId| #[trigger] spawn.requires((gid,)),
        ensures
            final(self).wf(),
            r is None ==> final(self).ht@ == old(self).ht@,
            r is Some ==> !old(self).has_id(r->Some_0.chars()) && final(self).ht@.len() == old(self).ht@.len() + 1
                && final(self).ht@.drop_last() == old(self).ht@ && final(self).ht@.last().0 == r->Some_0
                && spawn.ensures((r->Some_0,), final(self).ht@.last().1),
    {
        match self.new_game_id() {
            Some(gid) => {
                let h = spawn(gid);
                match self.insert(gid, h) {
                    Ok(()) => {
                        assert(self.ht@.drop_last() =~= old(self).ht@);
                        Some(gid)
                    },
                    Err(_) => None,
                }
            },
            None => None,
        }
    }

    /// Records the handle of a new session under an identifier no session has.
    pub fn insert(&mut self, gid: GameId, handle: H) -> (r: Result<(), H>)
        requires
            old(self).wf(),
        ensures
            final(self).wf(),
            r is Ok <==> !old(self).has_id(gid.chars()),
            r is Ok ==> final(self).ht@ == old(self).ht@.push((gid, handle)),
            r is Err ==> final(self).ht@ == old(self).ht@ && r->Err_0 == handle,
    {
        match self.find(&gid) {
            Some(_) => Err(handle),
            None => {
                self.ht.push((gid, handle));
                Ok(())
            },
        }
    }
}

} // verus!
