use vstd::prelude::*;

use crate::actions::PlayerAction;
use crate::card::push_char;
use crate::deck::Deck;
use crate::game::Game;
use crate::srvcli::{ClientMsg, LobbyInfo, PlayerId, PlayerInfo, ServerMsg};
use crate::table::{PlayerTpos, Table};

verus! {

/// Identifies a player's connection to a session; issued once and never reused.
#[derive(Debug, Clone, Copy, PartialEq, Eq, Structural)]
pub struct PlayerTaskId(pub usize);

/// What a session sends to a player's connection.
#[derive(Debug)]
pub enum PlayerTaskMsg {
    /// The first message after a registration: the player's connection id, which
    /// never changes, or why the registration was refused.
    RegistrationResult(Result<PlayerTaskId, String>),
    ForwardToClient(ServerMsg),
}

/// A deal given by hand, for a one-player game.
#[derive(Debug, Clone)]
pub struct GameDebug {
    pub hand: Deck,
    pub table: Table,
}

#[derive(Debug, Clone)]
pub struct GameConfig {
    pub nplayers: u8,
    pub debug: Option<GameDebug>,
}

/// A seat of a session; a player is never removed, only disconnected.
#[derive(Debug)]
pub struct SessionPlayer {
    pub tpos: PlayerTpos,
    pub name: String,
    /// the player's connection, or None once disconnected
    pub task: Option<PlayerTaskId>,
}

#[derive(Debug, Clone, Copy, PartialEq, Eq, Structural)]
pub enum SessionState {
    InLobby,
    InGame,
}

/// What the session asks its driver to do after a request.
#[derive(Debug)]
pub enum Reply {
    /// nothing to send
    Ignored,
    /// send the lobby to every connected player
    LobbyUpdate,
    /// send each connected player their view of the game
    GameUpdate,
    /// tell the sender that their action was rejected, and why
    Invalid(String),
}

/// The state of one game session: its seats and the game being played.
#[derive(Debug)]
pub struct Session {
    /// players in order of registration; the first one is the admin
    pub players: Vec<SessionPlayer>,
    pub state: SessionState,
    pub curr_game: Game,
    pub nplayers: u8,
    pub nteams: u8,
    pub next_player_task_id: usize,
    /// seats not yet taken, in the order they are handed out
    pub available_tpos: Vec<PlayerTpos>,
}

/// The number of connected players.
pub open spec fn nconnected(ps: Seq<SessionPlayer>) -> nat
    decreases ps.len(),
{
    if ps.len() == 0 {
        0
    } else {
        nconnected(ps.drop_last()) + if ps.last().task is Some { 1nat } else { 0nat }
    }
}

/// Whether some player has the name.
pub open spec fn name_in(ps: Seq<SessionPlayer>, name: Seq<char>) -> bool {
    exists|j: int| 0 <= j < ps.len() && (#[trigger] ps[j]).name@ == name
}

/// A name made unique by appending underscores.
pub open spec fn suffixed(name: Seq<char>, k: nat) -> Seq<char>
    decreases k,
{
    if k == 0 {
        name
    } else {
        suffixed(name, (k - 1) as nat).push('_')
    }
}

pub proof fn lemma_nconnected_update(ps: Seq<SessionPlayer>, i: int, p: SessionPlayer)
    requires
        0 <= i < ps.len(),
    ensures
        nconnected(ps.update(i, p)) + (if ps[i].task is Some { 1int } else { 0int }) == nconnected(ps) + (
        if p.task is Some { 1int } else { 0int }),
    decreases ps.len(),
{
    if i < ps.len() - 1 {
        lemma_nconnected_update(ps.drop_last(), i, p);
        assert(ps.update(i, p).drop_last() =~= ps.drop_last().update(i, p));
    } else {
        assert(ps.update(i, p).drop_last() =~= ps.drop_last());
    }
}

impl Session {
    pub open spec fn wf(&self) -> bool {
        &&& self.nplayers == 1 || self.nplayers == 2 || self.nplayers == 4
        &&& self.curr_game.wf()
        &&& self.curr_game.nplayers() == self.nplayers
        &&& self.players@.len() + self.available_tpos@.len() == self.nplayers
        &&& self.next_player_task_id == self.players@.len()
        &&& forall|i: int| 0 <= i < self.players@.len() ==> (#[trigger] self.players@[i]).tpos.0 < self.nplayers
        &&& forall|i: int| 0 <= i < self.available_tpos@.len() ==> (#[trigger] self.available_tpos@[i]).0 < self.nplayers
        &&& forall|i: int|
            0 <= i < self.players@.len() && (#[trigger] self.players@[i]).task is Some ==> self.players@[i].task->Some_0
                == PlayerTaskId(i as usize)
    }

    /// Whether the connection `ptid` belongs to player `i`.
    pub open spec fn owns(&self, i: int, ptid: PlayerTaskId) -> bool {
        0 <= i < self.players@.len() && self.players@[i].task == Some(ptid)
    }

    /// A session in the lobby, with its game dealt.
    pub fn new(cfg: GameConfig, rng: rand_pcg::Lcg128Xsl64) -> (r: Session)
        requires
            cfg.nplayers == 1 || cfg.nplayers == 2 || cfg.nplayers == 4,
            cfg.debug is Some ==> cfg.nplayers == 1 && cfg.debug->Some_0.hand@.len()
                + cfg.debug->Some_0.table.ms().len() <= 52,
        ensures
            r.wf(),
            r.state == SessionState::InLobby,
            r.players@.len() == 0,
            r.nplayers == cfg.nplayers,
            r.nteams == if cfg.nplayers == 1 { 1u8 } else { 2u8 },
            cfg.debug is None ==> r.curr_game.fresh_deal(),
            cfg.debug is Some ==> r.curr_game.table@ == cfg.debug->Some_0.table@ && r.curr_game.hand(PlayerTpos(0))
                == cfg.debug->Some_0.hand@ && r.curr_game.main_deck@.len() == 0,
            forall|i: int| 0 <= i < cfg.nplayers ==> (#[trigger] r.available_tpos@[i]) == PlayerTpos(i as u8),
    {
        let nplayers = cfg.nplayers;
        let game = match cfg.debug {
            Some(dbg) => Game::new_1p_debug(rng, dbg.table, dbg.hand),
            None => if nplayers == 1 {
                Game::new_1p(rng)
            } else if nplayers == 2 {
                Game::new_2p(rng)
            } else {
                Game::new_4p(rng)
            },
        };
        let nteams: u8 = if nplayers == 1 { 1 } else { 2 };
        let mut available: Vec<PlayerTpos> = Vec::new();
        let mut i: u8 = 0;
        while i < nplayers
            invariant
                0 <= i <= nplayers,
                available@.len() == i,
                forall|k: int| 0 <= k < i ==> (#[trigger] available@[k]) == PlayerTpos(k as u8),
            decreases nplayers - i,
        {
            available.push(PlayerTpos(i));
            i = i + 1;
        }
        Session {
            players: Vec::new(),
            state: SessionState::InLobby,
            curr_game: game,
            nplayers: nplayers,
            nteams: nteams,
            next_player_task_id: 0,
            available_tpos: available,
        }
    }

    /// The number of connected players.
    pub fn nconnected(&self) -> (r: usize)
        ensures
            r == nconnected(self.players@),
    {
        let mut n: usize = 0;
        let mut i: usize = 0;
        while i < self.players.len()
            invariant
                0 <= i <= self.players@.len(),
                n == nconnected(self.players@.subrange(0, i as int)),
                n <= i,
            decreases self.players.len() - i,
        {
            assert(self.players@.subrange(0, i + 1).drop_last() =~= self.players@.subrange(0, i as int));
            if self.players[i].task.is_some() {
                n = n + 1;
            }
            i = i + 1;
        }
        assert(self.players@.subrange(0, self.players@.len() as int) =~= self.players@);
        n
    }

    /// Whether every player has disconnected.
    pub fn all_disconnected(&self) -> (r: bool)
        ensures
            r == forall|i: int| 0 <= i < self.players@.len() ==> (#[trigger] self.players@[i]).task is None,
    {
        let mut i: usize = 0;
        while i < self.players.len()
            invariant
                0 <= i <= self.players@.len(),
                forall|k: int| 0 <= k < i ==> (#[trigger] self.players@[k]).task is None,
            decreases self.players.len() - i,
        {
            if self.players[i].task.is_some() {
                return false;
            }
            i = i + 1;
        }
        true
    }

    /// Whether every seat is taken by a connected player.
    pub fn players_ready(&self) -> (r: bool)
        ensures
            r == (nconnected(self.players@) == self.nplayers),
    {
        self.nconnected() == self.nplayers as usize
    }

    /// The player that the connection `ptid` belongs to.
    pub fn player_by_ptid(&self, ptid: PlayerTaskId) -> (r: Option<usize>)
        ensures
            r is Some ==> self.owns(r->Some_0 as int, ptid),
            r is None ==> forall|i: int| 0 <= i < self.players@.len() ==> !self.owns(i, ptid),
    {
        let mut i: usize = 0;
        while i < self.players.len()
            invariant
                0 <= i <= self.players@.len(),
                forall|k: int| 0 <= k < i ==> !self.owns(k, ptid),
            decreases self.players.len() - i,
        {
            match self.players[i].task {
                Some(t) => {
                    if t == ptid {
                        return Some(i);
                    }
                },
                None => {},
            }
            i = i + 1;
        }
        None
    }

    /// Whether `ptid` is the connection of the admin, the first player.
    pub fn is_player_admin(&self, ptid: PlayerTaskId) -> (r: bool)
        ensures
            r == self.owns(0, ptid),
    {
        if self.players.len() == 0 {
            return false;
        }
        match self.players[0].task {
            Some(t) => t == ptid,
            None => false,
        }
    }

    fn name_taken(&self, name: &String) -> (r: bool)
        ensures
            r == exists|i: int| 0 <= i < self.players@.len() && (#[trigger] self.players@[i]).name@ == name@,
    {
        let mut i: usize = 0;
        while i < self.players.len()
            invariant
                0 <= i <= self.players@.len(),
                forall|k: int| 0 <= k < i ==> (#[trigger] self.players@[k]).name@ != name@,
            decreases self.players.len() - i,
        {
            if self.players[i].name == *name {
                return true;
            }
            i = i + 1;
        }
        false
    }

    /// Registers a player in a free seat. The name gets underscores appended until no
    /// other player has it; the player gets a fresh connection id and the next free seat.
    pub fn register_player(&mut self, name: String) -> (r: Result<PlayerTaskId, String>)
        requires
            old(self).wf(),
        ensures
            final(self).wf(),
            r is Ok <==> old(self).state == SessionState::InLobby && old(self).players@.len() < old(self).nplayers,
            r is Err ==> final(self).players@ == old(self).players@ && final(self).available_tpos@ == old(
                self,
            ).available_tpos@,
            final(self).state == old(self).state && final(self).curr_game == old(self).curr_game,
            final(self).nplayers == old(self).nplayers,
            r is Ok ==> ({
                let n = old(self).players@.len();
                let p = final(self).players@[n as int];
                &&& r->Ok_0 == PlayerTaskId(n as usize)
                &&& final(self).players@.len() == n + 1
                &&& final(self).players@.subrange(0, n as int) == old(self).players@
                &&& p.task == Some(r->Ok_0)
                &&& p.tpos == old(self).available_tpos@[0]
                &&& final(self).available_tpos@ == old(self).available_tpos@.drop_first()
                &&& (exists|k: nat|
                    p.name@ == suffixed(name@, k) && forall|k2: nat| k2 < k ==> #[trigger] name_in(
                        old(self).players@,
                        suffixed(name@, k2),
                    ))
                &&& forall|i: int| 0 <= i < n ==> (#[trigger] old(self).players@[i]).name@ != p.name@
            }),
    {
        if self.state != SessionState::InLobby {
            return Err("Cannot register while game in progress.".to_string());
        }
        if self.players.len() >= self.nplayers as usize {
            return Err("Too many players.".to_string());
        }
        let mut maxlen: usize = 0;
        let mut i: usize = 0;
        while i < self.players.len()
            invariant
                0 <= i <= self.players@.len(),
                forall|k: int| 0 <= k < i ==> (#[trigger] self.players@[k]).name@.len() <= maxlen,
            decreases self.players.len() - i,
        {
            let l = self.players[i].name.as_str().unicode_len();
            if l > maxlen {
                maxlen = l;
            }
            i = i + 1;
        }
        let mut player_name = name;
        let ghost mut k: nat = 0;
        while self.name_taken(&player_name)
            invariant
                forall|j: int| 0 <= j < self.players@.len() ==> (#[trigger] self.players@[j]).name@.len() <= maxlen,
                player_name@ == suffixed(name@, k),
                forall|k2: nat| k2 < k ==> #[trigger] name_in(self.players@, suffixed(name@, k2)),
            decreases maxlen + 1 - player_name@.len(),
        {
            push_char(&mut player_name, '_');
            proof {
                k = k + 1;
            }
        }
        let ptid = self.new_ptid();
        let tpos = self.available_tpos.remove(0);
        let ghost name_final = player_name@;
        let ghost kk = k;
        self.players.push(SessionPlayer { tpos: tpos, name: player_name, task: Some(ptid) });
        proof {
            let n = old(self).players@.len();
            assert(self.players@.subrange(0, n as int) =~= old(self).players@);
            assert(self.players@[n as int].name@ == name_final);

            assert(self.available_tpos@ =~= old(self).available_tpos@.drop_first());
        }
        Ok(ptid)
    }

    /// A fresh connection id: the next one in order.
    fn new_ptid(&mut self) -> (r: PlayerTaskId)
        requires
            old(self).next_player_task_id < usize::MAX,
        ensures
            r == PlayerTaskId(old(self).next_player_task_id),
            final(self).next_player_task_id == old(self).next_player_task_id + 1,
            final(self).players == old(self).players && final(self).available_tpos == old(self).available_tpos,
            final(self).state == old(self).state && final(self).curr_game == old(self).curr_game,
            final(self).nplayers == old(self).nplayers && final(self).nteams == old(self).nteams,
    {
        let ret = PlayerTaskId(self.next_player_task_id);
        self.next_player_task_id = self.next_player_task_id + 1;
        ret
    }

    /// What every player sees of the lobby.
    pub fn mk_players_info(&self) -> (r: Vec<PlayerInfo>)
        ensures
            r@.len() == self.players@.len(),
            forall|i: int|
                0 <= i < r@.len() ==> (#[trigger] r@[i]).admin == (i == 0) && r@[i].tpos == self.players@[i].tpos
                    && r@[i].name@ == self.players@[i].name@ && r@[i].connected == self.players@[i].task is Some,
    {
        let mut r: Vec<PlayerInfo> = Vec::new();
        let mut i: usize = 0;
        while i < self.players.len()
            invariant
                0 <= i <= self.players@.len(),
                r@.len() == i,
                forall|k: int|
                    0 <= k < i ==> (#[trigger] r@[k]).admin == (k == 0) && r@[k].tpos == self.players@[k].tpos
                        && r@[k].name@ == self.players@[k].name@ && r@[k].connected == self.players@[k].task is Some,
            decreases self.players.len() - i,
        {
            let p = &self.players[i];
            r.push(PlayerInfo { admin: i == 0, tpos: p.tpos, name: p.name.clone(), connected: p.task.is_some() });
            i = i + 1;
        }
        r
    }

    /// The lobby as player `pid` sees it.
    pub fn lobby_info_for(&self, pid: usize) -> (r: LobbyInfo)
        ensures
            r.self_id == PlayerId(pid),
            r.nplayers == self.nplayers,
            r.players@.len() == self.players@.len(),
            forall|i: int|
                0 <= i < r.players@.len() ==> (#[trigger] r.players@[i]).admin == (i == 0) && r.players@[i].tpos
                    == self.players@[i].tpos && r.players@[i].connected == self.players@[i].task is Some,
    {
        LobbyInfo { players: self.mk_players_info(), self_id: PlayerId(pid), nplayers: self.nplayers }
    }

    /// The game as player `pid` sees it.
    pub fn game_update_for(&self, pid: usize) -> (r: ServerMsg)
        requires
            self.wf(),
            pid < self.players@.len(),
        ensures
            r is GameUpdate,
            r->GameUpdate_0.pid == self.players@[pid as int].tpos,
            r->GameUpdate_0.own_hand@ == self.curr_game.hand(self.players@[pid as int].tpos),
    {
        ServerMsg::GameUpdate(self.curr_game.get_player_game_view(self.players[pid].tpos))
    }

    /// Swaps the seats of the players at two positions.
    pub fn swap_player_tpos(&mut self, tpos1: PlayerTpos, tpos2: PlayerTpos) -> (r: Result<(), String>)
        requires
            old(self).wf(),
        ensures
            final(self).wf(),
            final(self).state == old(self).state && final(self).curr_game == old(self).curr_game,
            final(self).players@.len() == old(self).players@.len(),
            r is Ok <==> (exists|i: int| 0 <= i < old(self).players@.len() && (#[trigger] old(self).players@[i]).tpos == tpos1)
                && (exists|i: int| 0 <= i < old(self).players@.len() && (#[trigger] old(self).players@[i]).tpos == tpos2),
            r is Err ==> final(self).players@ == old(self).players@,
            forall|i: int| 0 <= i < old(self).players@.len() ==> (#[trigger] final(self).players@[i]).task == old(self).players@[i].task,
            r is Ok ==> old(self).swapped(*final(self), tpos1, tpos2),
    {
        let p1 = match self.find_tpos(tpos1) {
            Some(x) => x,
            None => return Err("Failed to find tpos1".to_string()),
        };
        let p2 = match self.find_tpos(tpos2) {
            Some(x) => x,
            None => return Err("Failed to find tpos2".to_string()),
        };
        let ghost mid = self.players@;
        self.set_tpos(p1, tpos2);
        let ghost mid2 = self.players@;
        self.set_tpos(p2, tpos1);
        proof {
            if p1 != p2 {
                assert(self.players@[p1 as int] == mid2[p1 as int]);
            }
        }
        Ok(())
    }

    fn find_tpos(&self, tpos: PlayerTpos) -> (r: Option<usize>)
        ensures
            r is Some ==> r->Some_0 < self.players@.len() && self.players@[r->Some_0 as int].tpos == tpos
                && forall|k: int| 0 <= k < r->Some_0 ==> (#[trigger] self.players@[k]).tpos != tpos,
            r is None ==> !exists|i: int| 0 <= i < self.players@.len() && (#[trigger] self.players@[i]).tpos == tpos,
    {
        let mut i: usize = 0;
        while i < self.players.len()
            invariant
                0 <= i <= self.players@.len(),
                forall|k: int| 0 <= k < i ==> (#[trigger] self.players@[k]).tpos != tpos,
            decreases self.players.len() - i,
        {
            if self.players[i].tpos == tpos {
                return Some(i);
            }
            i = i + 1;
        }
        None
    }

    fn set_tpos(&mut self, i: usize, tpos: PlayerTpos)
        requires
            old(self).wf(),
            i < old(self).players@.len(),
            tpos.0 < old(self).nplayers,
        ensures
            final(self).wf(),
            final(self).state == old(self).state && final(self).curr_game == old(self).curr_game,
            final(self).players@.len() == old(self).players@.len(),
            final(self).players@[i as int].tpos == tpos,
            final(self).players@[i as int].name == old(self).players@[i as int].name,
            forall|k: int| 0 <= k < old(self).players@.len() && k != i ==> #[trigger] final(self).players@[k] == old(self).players@[k],
            forall|k: int| 0 <= k < old(self).players@.len() ==> (#[trigger] final(self).players@[k]).task == old(self).players@[k].task,
    {
        let p = SessionPlayer { tpos: tpos, name: self.players[i].name.clone(), task: self.players[i].task };
        self.players.set(i, p);
    }

    /// Marks a player as disconnected; their seat and data stay.
    pub fn mark_disconnected(&mut self, i: usize)
        requires
            old(self).wf(),
            i < old(self).players@.len(),
        ensures
            final(self).wf(),
            final(self).state == old(self).state && final(self).curr_game == old(self).curr_game,
            final(self).players@.len() == old(self).players@.len(),
            final(self).players@[i as int].task is None,
            forall|k: int| 0 <= k < old(self).players@.len() && k != i ==> #[trigger] final(self).players@[k] == old(self).players@[k],
            nconnected(final(self).players@) + (if old(self).players@[i as int].task is Some { 1int } else { 0int })
                == nconnected(old(self).players@),
    {
        let p = SessionPlayer { tpos: self.players[i].tpos, name: self.players[i].name.clone(), task: None };
        let ghost ps = self.players@;
        self.players.set(i, p);
        proof {
            lemma_nconnected_update(ps, i as int, p);
        }
    }

    /// The connection `ptid` has ended: its player is marked disconnected. Returns
    /// whether the session is over, every player being disconnected.
    pub fn player_terminated(&mut self, ptid: PlayerTaskId) -> (r: bool)
        requires
            old(self).wf(),
        ensures
            final(self).wf(),
            final(self).players@.len() == old(self).players@.len(),
            forall|i: int| 0 <= i < old(self).players@.len() ==> (#[trigger] final(self).players@[i]).task == if old(
                self,
            ).owns(i, ptid) {
                None
            } else {
                old(self).players@[i].task
            },
            r == forall|i: int| 0 <= i < final(self).players@.len() ==> (#[trigger] final(self).players@[i]).task is None,
    {
        match self.player_by_ptid(ptid) {
            Some(i) => {
                proof {
                    assert forall|k: int| 0 <= k < old(self).players@.len() && k != i implies !old(self).owns(k, ptid) by {
                        assert(old(self).players@[k].task is Some ==> old(self).players@[k].task->Some_0 == PlayerTaskId(k as usize));
                    }
                }
                self.mark_disconnected(i);
            },
            None => {},
        }
        self.all_disconnected()
    }

    /// The first connected player at index `from` or after.
    pub fn next_connected(&self, from: usize) -> (r: Option<usize>)
        ensures
            r is Some ==> from <= r->Some_0 < self.players@.len() && self.players@[r->Some_0 as int].task is Some
                && forall|k: int| from <= k < r->Some_0 ==> (#[trigger] self.players@[k]).task is None,
            r is None ==> forall|k: int| from <= k < self.players@.len() ==> (#[trigger] self.players@[k]).task is None,
    {
        let mut i: usize = from;
        while i < self.players.len()
            invariant
                from <= i,
                forall|k: int| from <= k < i && k < self.players@.len() ==> (#[trigger] self.players@[k]).task is None,
            decreases self.players.len() - i,
        {
            if self.players[i].task.is_some() {
                return Some(i);
            }
            i = i + 1;
        }
        None
    }

    /// One step of a broadcast. `last` is the outcome of the previous delivery
    /// (player, delivered); None starts a pass. A failed delivery disconnects its
    /// player and restarts the pass from the first player; the broadcast is over when
    /// a pass reaches the end with no failure. Returns the next player to deliver to.
    pub fn broadcast_next(&mut self, last: Option<(usize, bool)>) -> (r: Option<usize>)
        requires
            old(self).wf(),
            last is Some ==> last->Some_0.0 < old(self).players@.len(),
        ensures
            final(self).wf(),
            final(self).state == old(self).state && final(self).curr_game == old(self).curr_game,
            final(self).players@.len() == old(self).players@.len(),
            ({
                let from: int = match last {
                    None => 0,
                    Some((i, true)) => i + 1,
                    Some((i, false)) => 0,
                };
                &&& r is Some ==> from <= r->Some_0 < final(self).players@.len() && final(self).players@[r->Some_0 as int].task is Some
                    && forall|k: int| from <= k < r->Some_0 ==> (#[trigger] final(self).players@[k]).task is None
                &&& r is None ==> forall|k: int| from <= k < final(self).players@.len() ==> (#[trigger] final(self).players@[k]).task is None
            }),
            match last {
                Some((i, false)) => final(self).players@[i as int].task is None && nconnected(final(self).players@)
                    + (if old(self).players@[i as int].task is Some { 1int } else { 0int }) == nconnected(old(self).players@)
                    && forall|k: int| 0 <= k < old(self).players@.len() && k != i ==> #[trigger] final(self).players@[k] == old(self).players@[k],
                _ => final(self).players@ == old(self).players@,
            },
    {
        match last {
            None => self.next_connected(0),
            Some((i, true)) => self.next_connected(i + 1),
            Some((i, false)) => {
                self.mark_disconnected(i);
                self.next_connected(0)
            },
        }
    }

    fn apply_action(&mut self, ptid: PlayerTaskId, action: PlayerAction) -> (r: Reply)
        requires
            old(self).wf(),
            old(self).state == SessionState::InGame,
        ensures
            final(self).wf(),
            final(self).players@ == old(self).players@,
            final(self).state == old(self).state,
            r is GameUpdate || r is Invalid || r is Ignored,
            r is Ignored <==> forall|i: int| 0 <= i < old(self).players@.len() ==> !old(self).owns(i, ptid),
            !(r is GameUpdate) ==> final(self).curr_game == old(self).curr_game,
            old(self).action_reply(ptid, action, *final(self), r),
    {
        let idx = match self.player_by_ptid(ptid) {
            Some(i) => i,
            None => return Reply::Ignored,
        };
        proof {
            assert forall|i: int| #[trigger] old(self).owns(i, ptid) implies i == idx by {
                assert(old(self).players@[i].task->Some_0 == PlayerTaskId(i as usize));
                assert(old(self).players@[idx as int].task->Some_0 == PlayerTaskId(idx));
            }
        }
        let tpos = self.players[idx].tpos;
        let pview = self.curr_game.get_player_game_view(tpos);
        match action.validate(&pview) {
            Ok(()) => {},
            Err(e) => {
                assert(!old(self).curr_game.action_allowed(tpos, action));
                return Reply::Invalid(e);
            },
        }
        let newgame = match self.curr_game.apply_action(tpos, action) {
            Ok(g) => g,
            Err(e) => return Reply::Invalid(e),
        };
        let ghost g = newgame;
        self.curr_game = newgame;
        if self.curr_game.state().is_round_done() {
            self.curr_game.new_round();
        }
        proof {
            assert(old(self).owns(idx as int, ptid) && old(self).curr_game.action_allowed(tpos, action)
                && old(self).curr_game.apply_post(tpos, action, g));
        }
        Reply::GameUpdate
    }

    /// What an action request does: ignored without a player behind the connection;
    /// otherwise applied to the game when it succeeds there (then a new round is dealt
    /// if the round ended), and rejected when it is not legal.
    pub open spec fn action_reply(&self, ptid: PlayerTaskId, action: PlayerAction, next: Session, r: Reply) -> bool {
        &&& r is GameUpdate || r is Invalid || r is Ignored
        &&& r is Ignored <==> forall|i: int| 0 <= i < self.players@.len() ==> !self.owns(i, ptid)
        &&& forall|i: int|
            #[trigger] self.owns(i, ptid) && self.curr_game.apply_succeeds(self.players@[i].tpos, action)
                ==> r is GameUpdate
        &&& forall|i: int|
            #[trigger] self.owns(i, ptid) && !self.curr_game.action_allowed(self.players@[i].tpos, action)
                ==> r is Invalid
        &&& !(r is GameUpdate) ==> next.curr_game == self.curr_game
        &&& r is GameUpdate ==> exists|i: int, g: Game|
            {
                &&& #[trigger] self.owns(i, ptid)
                &&& self.curr_game.action_allowed(self.players@[i].tpos, action)
                &&& #[trigger] self.curr_game.apply_post(self.players@[i].tpos, action, g)
                &&& g.state is RoundDone ==> g.new_round_post(next.curr_game)
                &&& !(g.state is RoundDone) ==> next.curr_game == g
            }
    }

    /// The seats of the first players at `tpos1` and `tpos2` are exchanged; nothing
    /// else changes.
    pub open spec fn swapped(&self, next: Session, tpos1: PlayerTpos, tpos2: PlayerTpos) -> bool {
        exists|i1: int, i2: int|
            {
                &&& 0 <= i1 < self.players@.len() && 0 <= i2 < self.players@.len()
                &&& self.players@[i1].tpos == tpos1 && self.players@[i2].tpos == tpos2
                &&& forall|k: int| 0 <= k < i1 ==> (#[trigger] self.players@[k]).tpos != tpos1
                &&& forall|k: int| 0 <= k < i2 ==> (#[trigger] self.players@[k]).tpos != tpos2
                &&& next.players@.len() == self.players@.len()
                &&& #[trigger] next.players@[i1].tpos == tpos2 && #[trigger] next.players@[i2].tpos == tpos1
                &&& next.players@[i1].name == self.players@[i1].name
                &&& next.players@[i2].name == self.players@[i2].name
                &&& next.players@[i1].task == self.players@[i1].task
                &&& next.players@[i2].task == self.players@[i2].task
                &&& forall|k: int|
                    0 <= k < self.players@.len() && k != i1 && k != i2 ==> #[trigger] next.players@[k]
                        == self.players@[k]
            }
    }

    /// Decides what a client request does. Admin commands (start, swap seats) count
    /// only from the admin's connection and once every seat is taken and connected;
    /// otherwise they are ignored. Actions go to the game while one is in progress.
    pub fn handle_clireq(&mut self, ptid: PlayerTaskId, climsg: ClientMsg) -> (r: Reply)
        requires
            old(self).wf(),
        ensures
            final(self).wf(),
            final(self).players@.len() == old(self).players@.len(),
            forall|i: int| 0 <= i < old(self).players@.len() ==> (#[trigger] final(self).players@[i]).task == old(self).players@[i].task,
            match climsg {
                ClientMsg::SwapTpos(tpos1, tpos2) => {
                    &&& (old(self).state == SessionState::InLobby && old(self).owns(0, ptid) && nconnected(old(self).players@)
                        == old(self).nplayers) ==> r is LobbyUpdate && (old(self).swapped(*final(self), tpos1, tpos2)
                        || final(self).players@ == old(self).players@)
                    &&& (old(self).state == SessionState::InLobby && old(self).owns(0, ptid) && nconnected(old(self).players@)
                        == old(self).nplayers && (exists|i: int| 0 <= i < old(self).players@.len() && (#[trigger] old(self).players@[i]).tpos == tpos1)
                        && (exists|i: int| 0 <= i < old(self).players@.len() && (#[trigger] old(self).players@[i]).tpos == tpos2))
                        ==> old(self).swapped(*final(self), tpos1, tpos2)
                    &&& !(old(self).state == SessionState::InLobby && old(self).owns(0, ptid) && nconnected(old(self).players@)
                        == old(self).nplayers) ==> r is Ignored && final(self).players@ == old(self).players@
                    &&& final(self).state == old(self).state && final(self).curr_game == old(self).curr_game
                },
                ClientMsg::StartGame => {
                    &&& !(old(self).owns(0, ptid) && nconnected(old(self).players@) == old(self).nplayers) ==> r is Ignored
                        && final(self).state == old(self).state && final(self).curr_game == old(self).curr_game
                    &&& (old(self).owns(0, ptid) && nconnected(old(self).players@) == old(self).nplayers
                        && old(self).state == SessionState::InLobby) ==> r is GameUpdate && final(self).state
                        == SessionState::InGame && final(self).curr_game == old(self).curr_game
                    &&& (old(self).owns(0, ptid) && nconnected(old(self).players@) == old(self).nplayers
                        && old(self).state == SessionState::InGame) ==> (old(self).curr_game.state is GameDone <==> r is GameUpdate)
                    &&& final(self).players@ == old(self).players@
                },
                ClientMsg::PlayerAction(a) => {
                    &&& old(self).state == SessionState::InLobby ==> r is Ignored && final(self).curr_game == old(self).curr_game
                    &&& old(self).state == SessionState::InGame ==> old(self).action_reply(ptid, a, *final(self), r)
                    &&& final(self).players@ == old(self).players@ && final(self).state == old(self).state
                },
            },
    {
        match climsg {
            ClientMsg::SwapTpos(tpos1, tpos2) => {
                if self.state != SessionState::InLobby || !self.is_player_admin(ptid) || !self.players_ready() {
                    return Reply::Ignored;
                }
                let _ = self.swap_player_tpos(tpos1, tpos2);
                Reply::LobbyUpdate
            },
            ClientMsg::StartGame => {
                if !self.is_player_admin(ptid) || !self.players_ready() {
                    return Reply::Ignored;
                }
                if self.state == SessionState::InLobby {
                    self.state = SessionState::InGame;
                    Reply::GameUpdate
                } else if self.curr_game.state().is_game_done() {
                    self.curr_game.next_game();
                    Reply::GameUpdate
                } else {
                    Reply::Ignored
                }
            },
            ClientMsg::PlayerAction(action) => {
                if self.state != SessionState::InGame {
                    return Reply::Ignored;
                }
                self.apply_action(ptid, action)
            },
        }
    }
}

} // verus!
