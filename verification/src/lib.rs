//! A rules engine for the board game Go on a 19 x 19 board.
//!
//! The engine keeps one authoritative game state and enforces every
//! legality constraint: stone placement, group capture, the suicide
//! prohibition, the one-ply ko rule, turn alternation, pass and game-end
//! detection, and area scoring with komi.

pub mod board;
pub mod flood;
pub mod game;

pub use board::Stone;
pub use game::GameState;
pub use game::IntersectionData;
