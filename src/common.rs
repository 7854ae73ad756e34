//! Plain request and reply shapes shared by the server and its clients.
use vstd::prelude::*;

verus! {

#[derive(Debug, Clone, Default)]
pub struct CreateGameReq {
    pub nplayers: u8,
}

#[derive(Debug, Clone, Default)]
pub struct CreateGameRep {
    pub game_id: String,
}

#[derive(Debug, Clone, Default)]
pub struct GameInfo {}

#[derive(Debug, Clone, Default)]
pub struct GameEndInfo {}

} // verus!
