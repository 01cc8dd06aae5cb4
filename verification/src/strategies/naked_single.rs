use crate::board::{BoardView, SudokuBoard};
use crate::strategies::{Strategy, SudokuSolvingStrategy};
use vstd::prelude::*;

verus! {

/// The rule of the block with one possible number. It changes nothing:
/// such blocks are resolved by `SudokuBoard::resolve_satisfied_blocks`.
#[derive(Clone, Copy, Debug, Default)]
pub struct NakedSingleStrategy;

impl SudokuSolvingStrategy for NakedSingleStrategy {
    open spec fn rule(&self) -> Strategy {
        Strategy::NakedSingle
    }

    open spec fn applied(&self, board: BoardView, show_only_effect: bool) -> BoardView {
        board
    }

    fn strategy(&self) -> (strategy: Strategy) {
        Strategy::NakedSingle
    }

    fn update_possible_numbers(&self, _board: &mut SudokuBoard, _show_only_effect: bool) {
    }
}

} // verus!
