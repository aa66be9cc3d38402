//! Search engine for the connection game Y, played on a triangular grid.
//!
//! A player wins by joining all three sides of the board with one connected
//! group of stones. The crate holds a compact board snapshot with make/undo,
//! win detection by graph traversal, a one-ply tactical scan, a static
//! evaluation and an iterative-deepening alpha-beta search.
//!
//! Contracts are stated over [`board::Board`], the mathematical board that a
//! snapshot stands for. What the engine takes from outside crates stands in
//! [`mask`], [`moves`] and [`clock`]; the contracts there are believed, not
//! proved.
pub mod board;
pub mod bot;
pub mod clock;
pub mod coords;
pub mod eval;
pub mod game;
pub mod laws;
pub mod mask;
pub mod moves;
pub mod pruning;
pub mod scan;
pub mod search;
pub mod snapshot;
pub mod state;
pub mod walks;

pub use bot::MinimaxBot;
pub use coords::Coordinates;
pub use eval::{evaluate_position_strength, evaluate_state, INFINITY, LOSE_SCORE, WIN_SCORE};
pub use game::{GameY, PlayerId};
pub use search::{greedy_search, iterative_deepening_search, minimax, search_best_move};
pub use state::MinimaxState;
