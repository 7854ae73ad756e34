use vstd::prelude::*;

use crate::actions::PlayerAction;
use crate::game::PlayerGameView;
use crate::deck::Deck;
use crate::repr::{cards_from, entries_from, split_ws, DeckRepr, ParseState, TableRepr};
use crate::session::{GameConfig, GameDebug};
use crate::table::{PlayerTpos, Table};

verus! {

/// A deal given as text, for a game set up by hand.
#[derive(Debug, Clone, Default)]
pub struct CreateReqDebug {
    pub hand_s: String,
    pub table_s: String,
}

/// A request to create a game session.
#[derive(Debug, Clone, Default)]
pub struct CreateReq {
    pub nplayers: u8,
    pub debug: Option<CreateReqDebug>,
}

#[derive(Debug, Clone, Default)]
pub struct CreateRep {
    pub game_id: String,
}

#[derive(Debug, Clone, Default)]
pub struct JoinReq {}

/// What the other players see of a player.
#[derive(Debug, Clone)]
pub struct PlayerInfo {
    /// the admin is the first player that joined
    pub admin: bool,
    /// table position
    pub tpos: PlayerTpos,
    pub name: String,
    /// whether the player is connected to the server
    pub connected: bool,
}

/// A player's index in the lobby's list of players.
#[derive(Debug, Clone, Copy, PartialEq, Eq, Structural)]
pub struct PlayerId(pub usize);

/// The lobby as one player sees it.
#[derive(Debug, Clone)]
pub struct LobbyInfo {
    pub players: Vec<PlayerInfo>,
    /// the index of the player that receives this information
    pub self_id: PlayerId,
    /// seats of the game
    pub nplayers: u8,
}

#[derive(Debug, Clone)]
pub enum ServerMsg {
    LobbyUpdate(LobbyInfo),
    GameUpdate(PlayerGameView),
    InvalidAction(String),
}

#[derive(Debug, Clone)]
pub enum ClientMsg {
    StartGame,
    SwapTpos(PlayerTpos, PlayerTpos),
    PlayerAction(PlayerAction),
}

impl CreateReq {
    /// The hand of the deal given as text, if there is one and it reads as cards.
    pub fn get_debug_hand(&self) -> (r: Option<Deck>)
        ensures
            r is Some <==> self.debug is Some && self.debug->Some_0.hand_s@.len() > 0 && cards_from(
                split_ws(self.debug->Some_0.hand_s@),
                0,
                Seq::empty(),
            ) is Some,
            r is Some ==> r->Some_0@ == cards_from(split_ws(self.debug->Some_0.hand_s@), 0, Seq::empty())->Some_0,
    {
        match &self.debug {
            Some(debug) => {
                if debug.hand_s.as_str().unicode_len() == 0 {
                    None
                } else {
                    DeckRepr(debug.hand_s.clone()).parse()
                }
            },
            None => None,
        }
    }

    /// The table of the deal given as text, if there is one and it reads as a table.
    pub fn get_debug_table(&self) -> (r: Option<Table>)
        ensures
            r is Some <==> self.debug is Some && self.debug->Some_0.table_s@.len() > 0 && entries_from(
                split_ws(self.debug->Some_0.table_s@),
                0,
                ParseState::Top,
                Seq::empty(),
                false,
            ) is Some,
            r is Some ==> r->Some_0@ == entries_from(
                split_ws(self.debug->Some_0.table_s@),
                0,
                ParseState::Top,
                Seq::empty(),
                false,
            )->Some_0,
    {
        match &self.debug {
            Some(debug) => {
                if debug.table_s.as_str().unicode_len() == 0 {
                    None
                } else {
                    TableRepr(debug.table_s.clone()).parse()
                }
            },
            None => None,
        }
    }

    /// Drops a deal given as text unless both its hand and its table read.
    pub fn verify_debug(&mut self)
        ensures
            final(self).nplayers == old(self).nplayers,
            (old(self).get_debug_ok()) ==> final(self).debug == old(self).debug,
            !(old(self).get_debug_ok()) ==> final(self).debug is None,
    {
        let valid = self.get_debug_hand().is_some() && self.get_debug_table().is_some();
        if !valid {
            self.debug = None;
        }
    }

    pub open spec fn get_debug_ok(&self) -> bool {
        &&& self.debug is Some
        &&& self.debug->Some_0.hand_s@.len() > 0
        &&& cards_from(split_ws(self.debug->Some_0.hand_s@), 0, Seq::empty()) is Some
        &&& self.debug->Some_0.table_s@.len() > 0
        &&& entries_from(split_ws(self.debug->Some_0.table_s@), 0, ParseState::Top, Seq::empty(), false) is Some
    }
}

impl GameConfig {
    /// The configuration of a requested game; a deal given as text is kept when
    /// both its hand and its table read.
    pub fn from_req(req: CreateReq) -> (r: GameConfig)
        ensures
            r.nplayers == req.nplayers,
            r.debug is Some <==> req.get_debug_ok(),
            r.debug is Some ==> r.debug->Some_0.hand@ == cards_from(split_ws(req.debug->Some_0.hand_s@), 0, Seq::empty())->Some_0
                && r.debug->Some_0.table@ == entries_from(
                split_ws(req.debug->Some_0.table_s@),
                0,
                ParseState::Top,
                Seq::empty(),
                false,
            )->Some_0,
    {
        let debug_hand = req.get_debug_hand();
        let debug_table = req.get_debug_table();
        match (debug_hand, debug_table) {
            (Some(hand), Some(table)) => GameConfig { nplayers: req.nplayers, debug: Some(GameDebug { hand: hand, table: table }) },
            _ => GameConfig { nplayers: req.nplayers, debug: None },
        }
    }
}

impl From<CreateReq> for GameConfig {
    fn from(req: CreateReq) -> GameConfig {
        GameConfig::from_req(req)
    }
}

impl vstd::std_specs::convert::FromSpecImpl<CreateReq> for GameConfig {
    open spec fn obeys_from_spec() -> bool {
        false
    }

    open spec fn from_spec(v: CreateReq) -> GameConfig {
        GameConfig { nplayers: v.nplayers, debug: None }
    }
}

/// Whether `i` is the index of the first player at a position.
pub open spec fn first_at(ps: Seq<PlayerInfo>, tpos: PlayerTpos, i: int) -> bool {
    0 <= i < ps.len() && ps[i].tpos == tpos && forall|j: int| 0 <= j < i ==> (#[trigger] ps[j]).tpos != tpos
}

/// Whether no player is at a position.
pub open spec fn none_at(ps: Seq<PlayerInfo>, tpos: PlayerTpos) -> bool {
    forall|j: int| 0 <= j < ps.len() ==> (#[trigger] ps[j]).tpos != tpos
}

/// The number of connected players.
pub open spec fn count_connected(ps: Seq<PlayerInfo>) -> nat
    decreases ps.len(),
{
    if ps.len() == 0 {
        0
    } else {
        count_connected(ps.drop_last()) + if ps.last().connected { 1nat } else { 0nat }
    }
}

impl LobbyInfo {
    fn find_tpos(&self, tpos: PlayerTpos) -> (r: Option<usize>)
        ensures
            r is Some ==> first_at(self.players@, tpos, r->Some_0 as int),
            r is None ==> none_at(self.players@, tpos),
    {
        let mut i: usize = 0;
        while i < self.players.len()
            invariant
                0 <= i <= self.players@.len(),
                forall|j: int| 0 <= j < i ==> (#[trigger] self.players@[j]).tpos != tpos,
            decreases self.players.len() - i,
        {
            if self.players[i].tpos == tpos {
                return Some(i);
            }
            i = i + 1;
        }
        None
    }

    /// The first player at a position.
    pub fn player_from_tpos(&self, tpos: PlayerTpos) -> (r: Option<&PlayerInfo>)
        ensures
            r is None ==> none_at(self.players@, tpos),
            r is Some ==> exists|i: int| first_at(self.players@, tpos, i) && *r->Some_0 == self.players@[i],
    {
        match self.find_tpos(tpos) {
            Some(i) => {
                assert(first_at(self.players@, tpos, i as int));
                Some(&self.players[i])
            },
            None => None,
        }
    }

    /// The players with their ids.
    pub fn iter_players(&self) -> (r: Vec<(PlayerId, &PlayerInfo)>)
        ensures
            r@.len() == self.players@.len(),
            forall|i: int| 0 <= i < r@.len() ==> (#[trigger] r@[i]).0 == PlayerId(i as usize) && *r@[i].1 == self.players@[i],
    {
        let mut r: Vec<(PlayerId, &PlayerInfo)> = Vec::new();
        let mut i: usize = 0;
        while i < self.players.len()
            invariant
                0 <= i <= self.players@.len(),
                r@.len() == i,
                forall|k: int| 0 <= k < i ==> (#[trigger] r@[k]).0 == PlayerId(k as usize) && *r@[k].1 == self.players@[k],
            decreases self.players.len() - i,
        {
            r.push((PlayerId(i), &self.players[i]));
            i = i + 1;
        }
        r
    }

    /// Whether as many players are connected as the game has seats.
    pub fn all_ready(&self) -> (r: bool)
        ensures
            r == (count_connected(self.players@) == self.nplayers),
    {
        let mut n: usize = 0;
        let mut i: usize = 0;
        while i < self.players.len()
            invariant
                0 <= i <= self.players@.len(),
                n == count_connected(self.players@.subrange(0, i as int)),
                n <= i,
            decreases self.players.len() - i,
        {
            assert(self.players@.subrange(0, i + 1).drop_last() =~= self.players@.subrange(0, i as int));
            if self.players[i].connected {
                n = n + 1;
            }
            i = i + 1;
        }
        assert(self.players@.subrange(0, self.players@.len() as int) =~= self.players@);
        n == self.nplayers as usize
    }

    pub fn is_self(&self, pid: PlayerId) -> (r: bool)
        ensures
            r == (self.self_id == pid),
    {
        self.self_id == pid
    }

    /// Whether the first player at a position is the receiving player.
    pub fn is_self_from_tpos(&self, tpos: PlayerTpos) -> (r: bool)
        ensures
            r == first_at(self.players@, tpos, self.self_id.0 as int),
    {
        match self.player_id_from_tpos(tpos) {
            Some(pid) => {
                proof {
                    if first_at(self.players@, tpos, self.self_id.0 as int) && self.self_id != pid {
                        let a = self.self_id.0 as int;
                        let b = pid.0 as int;
                        if a < b {
                            assert(self.players@[a].tpos != tpos);
                        } else {
                            assert(self.players@[b].tpos != tpos);
                        }
                    }
                }
                self.self_id == pid
            },
            None => false,
        }
    }

    pub fn is_admin(&self, pid: PlayerId) -> (r: bool)
        ensures
            r == (pid.0 < self.players@.len() && self.players@[pid.0 as int].admin),
    {
        if pid.0 < self.players.len() {
            self.players[pid.0].admin
        } else {
            false
        }
    }

    pub fn am_i_admin(&self) -> (r: bool)
        requires
            self.self_id.0 < self.players@.len(),
        ensures
            r == self.players@[self.self_id.0 as int].admin,
    {
        self.players[self.self_id.0].admin
    }

    /// The players in seat order: for each seat the first player there, if any.
    pub fn iter_players_tpos(&self) -> (r: Vec<(PlayerTpos, &PlayerInfo)>)
        ensures
            forall|k: int| 0 <= k < r@.len() ==> (#[trigger] r@[k]).0.0 < self.nplayers && exists|i: int|
                first_at(self.players@, r@[k].0, i) && *r@[k].1 == self.players@[i],
            forall|k1: int, k2: int| 0 <= k1 < k2 < r@.len() ==> (#[trigger] r@[k1]).0.0 < (#[trigger] r@[k2]).0.0,
            forall|t: u8| t < self.nplayers && !none_at(self.players@, PlayerTpos(t)) ==> exists|k: int|
                0 <= k < r@.len() && (#[trigger] r@[k]).0 == PlayerTpos(t),
    {
        let mut r: Vec<(PlayerTpos, &PlayerInfo)> = Vec::new();
        let mut i: u8 = 0;
        while i < self.nplayers
            invariant
                0 <= i <= self.nplayers,
                forall|k: int| 0 <= k < r@.len() ==> (#[trigger] r@[k]).0.0 < i && exists|j: int|
                    first_at(self.players@, r@[k].0, j) && *r@[k].1 == self.players@[j],
                forall|k1: int, k2: int| 0 <= k1 < k2 < r@.len() ==> (#[trigger] r@[k1]).0.0 < (#[trigger] r@[k2]).0.0,
                forall|t: u8| t < i && !none_at(self.players@, PlayerTpos(t)) ==> exists|k: int|
                    0 <= k < r@.len() && (#[trigger] r@[k]).0 == PlayerTpos(t),
            decreases self.nplayers - i,
        {
            let tpos = PlayerTpos(i);
            let ghost r0 = r@;
            match self.player_from_tpos(tpos) {
                Some(p) => {
                    r.push((tpos, p));
                    proof {
                        assert(r@[r@.len() - 1].0 == tpos);
                        assert forall|t: u8| t < i + 1 && !none_at(self.players@, PlayerTpos(t)) implies exists|k: int|
                            0 <= k < r@.len() && (#[trigger] r@[k]).0 == PlayerTpos(t) by {
                            if t < i {
                                let k = choose|k: int| 0 <= k < r0.len() && (#[trigger] r0[k]).0 == PlayerTpos(t);
                                assert(r@[k] == r0[k]);
                            } else {
                                assert(r@[r@.len() - 1].0 == PlayerTpos(t));
                            }
                        }
                        assert forall|k: int| 0 <= k < r@.len() implies (#[trigger] r@[k]).0.0 < i + 1 && exists|j: int|
                            first_at(self.players@, r@[k].0, j) && *r@[k].1 == self.players@[j] by {
                            if k < r0.len() {
                                assert(r@[k] == r0[k]);
                            }
                        }
                    }
                },
                None => {},
            }
            i = i + 1;
        }
        r
    }

    pub fn my_tpos(&self) -> (r: PlayerTpos)
        requires
            self.self_id.0 < self.players@.len(),
        ensures
            r == self.players@[self.self_id.0 as int].tpos,
    {
        self.players[self.self_id.0].tpos
    }

    pub fn get_player(&self, pid: PlayerId) -> (r: Option<&PlayerInfo>)
        ensures
            pid.0 < self.players@.len() ==> r == Some(&self.players@[pid.0 as int]),
            pid.0 >= self.players@.len() ==> r is None,
    {
        if pid.0 < self.players.len() {
            Some(&self.players[pid.0])
        } else {
            None
        }
    }

    /// The id of the first player at a position.
    pub fn player_id_from_tpos(&self, tpos: PlayerTpos) -> (r: Option<PlayerId>)
        ensures
            r is Some ==> first_at(self.players@, tpos, r->Some_0.0 as int),
            r is None ==> none_at(self.players@, tpos),
    {
        match self.find_tpos(tpos) {
            Some(i) => Some(PlayerId(i)),
            None => None,
        }
    }

    /// One team for one player; two for two or four players.
    pub fn nteams(&self) -> (r: usize)
        requires
            self.nplayers == 1 || self.nplayers == 2 || self.nplayers == 4,
        ensures
            r == if self.nplayers == 1 { 1usize } else { 2usize },
    {
        if self.nplayers == 1 {
            1
        } else {
            2
        }
    }

    /// The seats of team `i`: seats of one parity play together.
    pub fn team_tpos(&self, i: usize) -> (r: Vec<PlayerTpos>)
        requires
            (self.nplayers == 1 && i == 0) || ((self.nplayers == 2 || self.nplayers == 4) && i < 2),
        ensures
            r@.len() == if self.nplayers == 4 { 2int } else { 1int },
            forall|k: int| 0 <= k < r@.len() ==> (#[trigger] r@[k]).0 == i + 2 * k,
    {
        let mut r: Vec<PlayerTpos> = Vec::new();
        r.push(PlayerTpos(i as u8));
        if self.nplayers == 4 {
            r.push(PlayerTpos((i + 2) as u8));
        }
        r
    }

    /// The ids of the disconnected players, in order.
    pub fn disconnected_players(&self) -> (r: Vec<PlayerId>)
        ensures
            forall|k: int| 0 <= k < r@.len() ==> (#[trigger] r@[k]).0 < self.players@.len() && !self.players@[r@[k].0 as int].connected,
            forall|j: int| 0 <= j < self.players@.len() && !(#[trigger] self.players@[j]).connected ==> r@.contains(PlayerId(j as usize)),
            forall|k1: int, k2: int| 0 <= k1 < k2 < r@.len() ==> (#[trigger] r@[k1]).0 < (#[trigger] r@[k2]).0,
    {
        let mut r: Vec<PlayerId> = Vec::new();
        let mut i: usize = 0;
        while i < self.players.len()
            invariant
                0 <= i <= self.players@.len(),
                forall|k: int| 0 <= k < r@.len() ==> (#[trigger] r@[k]).0 < i && !self.players@[r@[k].0 as int].connected,
                forall|j: int| 0 <= j < i && !(#[trigger] self.players@[j]).connected ==> r@.contains(PlayerId(j as usize)),
                forall|k1: int, k2: int| 0 <= k1 < k2 < r@.len() ==> (#[trigger] r@[k1]).0 < (#[trigger] r@[k2]).0,
            decreases self.players.len() - i,
        {
            let ghost r0 = r@;
            if !self.players[i].connected {
                r.push(PlayerId(i));
                proof {
                    assert(r@[r@.len() - 1] == PlayerId(i));
                    assert forall|j: int| 0 <= j < i + 1 && !(#[trigger] self.players@[j]).connected implies r@.contains(
                        PlayerId(j as usize),
                    ) by {
                        if j < i {
                            let k = choose|k: int| 0 <= k < r0.len() && r0[k] == PlayerId(j as usize);
                            assert(r@[k] == r0[k]);
                        } else {
                            assert(r@[r@.len() - 1] == PlayerId(j as usize));
                        }
                    }
                }
            }
            i = i + 1;
        }
        r
    }
}

} // verus!
