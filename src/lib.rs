//! Battleship: cell masks, ships, fleets and boards, the two-player game state,
//! the text shown to players, a heuristic shot picker, and an exact posterior over
//! where the remaining ships lie.
pub mod mask;
pub mod posterior;
pub mod constants;
pub mod ship;
pub mod fleet;
pub mod board;
pub mod duel;
pub mod text;
pub mod probability;
mod chance;
pub mod engine;
pub mod input;
pub mod transport;
