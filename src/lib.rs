//! Rules engine, scoring and session logic for the Diloti card game.

pub mod actions;
pub mod card;
pub mod common;
pub mod deck;
pub mod directory;
pub mod error;
pub mod game;
pub mod laws;
pub mod repr;
pub mod scoring;
pub mod session;
pub mod srvcli;
pub mod table;

pub use actions::{CaptureAction, CaptureActionBuilder, DeclAction, DeclActionBuilder, PlayerAction};
pub use card::{Card, Rank, Suit};
pub use deck::Deck;
pub use game::{Game, GameState, PlayerGameView};
pub use scoring::ScoreSheet;
pub use table::{Declaration, Table, TableEntry};
