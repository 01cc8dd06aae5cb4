//! A sudoku board that helps with solving: it works out which numbers a
//! block may still hold, marks the blocks that break the rules, and shows or
//! applies deduction rules that narrow the possibilities.
//!
//! Every function states what it returns or changes over a mathematical
//! view of the board (`board::BoardView`), and Verus proves that it does.

pub mod block;
pub mod board;
pub mod candidates;
pub mod conflicts;
pub mod containers;
pub mod edits;
pub mod game;
pub mod index;
pub mod moves;
pub mod numbers;
pub mod strategies;

pub use block::Conflicting;
pub use block::Possibilities;
pub use block::SudokuBlock;
pub use block::SudokuBlockStatus;
pub use board::SudokuBoard;
pub use containers::find_mistake_in_container;
pub use containers::find_similar_in_container;
pub use containers::get_missing_numbers;
pub use containers::get_numbers;
pub use game::CommandType;
pub use game::Direction;
pub use game::SelectedBlock;
pub use game::SelectionMode;
pub use game::SudokuGame;
pub use index::square_number;
pub use index::BlockIndex;
pub use index::SquareIndex;
pub use moves::BlockChange;
