//! Ultimate tic-tac-toe: a bit-packed board model and a Monte Carlo tree
//! search engine over it.
//!
//! The board side proves legality, transition and win detection; the engine
//! side proves the shape of the search tree and the bookkeeping of its
//! statistics.

mod clock;
pub mod engine;
mod rng;
pub mod state;
pub mod uct;

pub use engine::MctsEngine;
pub use engine::Node;
pub use state::BitBoard;
pub use state::Board;
pub use state::HasWinner;
pub use state::Move;
pub use state::Player;
pub use state::SubBoard;
pub use state::WinBoard;
pub use state::Winner;
