//! A verified minesweeper board engine.
//!
//! The board is a rectangular grid with a hidden set of mined cells.
//! Revealing a safe cell flood-fills the surrounding zero-mine region;
//! revealing a mine ends the game. Flags mark suspected mines and can be
//! toggled freely on unrevealed cells.

mod board;
mod rng;

pub use board::adjacent;
pub use board::cell_char;
pub use board::flag_transition;
pub use board::is_unopened;
pub use board::lemma_flag_twice;
pub use board::lemma_goal_counts_unopened_safe;
pub use board::lemma_goal_zero_all_revealed;
pub use board::lemma_render_same;
pub use board::lemma_reveal_decrements_exactly;
pub use board::reveal_transition;
pub use board::same_board;
pub use board::spec_newly_revealed;
pub use board::spec_safe_unopened;
pub use board::toggled;
pub use board::valid_mine_list;
pub use board::Cell;
pub use board::GameError;
pub use board::Minesweeper;
pub use board::Position;
