use crate::block::{Possibilities, PossibilitiesView, StatusView, SudokuBlockStatus};
use crate::board::{BoardView, SudokuBoard};
use crate::conflicts::with_status;
use crate::index::BlockIndex;
use crate::numbers::{SudokuNumber, SudokuNumbers};
use vstd::prelude::*;

verus! {

/// What a move did to the block it was made on.
#[derive(Clone, Copy, Debug, PartialEq, Eq, Structural)]
pub enum BlockChange {
    /// Nothing: the block is given.
    Refused,
    /// The block is unresolved now.
    Cleared,
    /// The block is resolved to the number now.
    Resolved(SudokuNumber),
    /// The number was taken from the block's possible numbers (`cleared`) or
    /// added to them.
    Possibility { number: SudokuNumber, cleared: bool },
}

impl BlockChange {
    /// What `mark_conflicts` wants to know of a move on possibilities.
    pub open spec fn spec_candidate_change(&self) -> Option<(SudokuNumber, bool)> {
        match *self {
            BlockChange::Possibility { number, cleared } => Some((number, cleared)),
            _ => None,
        }
    }

    #[verifier::when_used_as_spec(spec_candidate_change)]
    pub fn candidate_change(&self) -> (change: Option<(SudokuNumber, bool)>)
        ensures
            change == self.spec_candidate_change(),
    {
        match *self {
            BlockChange::Possibility { number, cleared } => Some((number, cleared)),
            _ => None,
        }
    }
}

/// What resolving the block at `index` to `number` does to it: nothing to a
/// given block; a block that is resolved to this number already becomes
/// unresolved; any other block becomes resolved to the number.
pub open spec fn resolve_change(board: BoardView, index: BlockIndex, number: SudokuNumber) -> BlockChange {
    match board[index].status {
        StatusView::Fixed(_) => BlockChange::Refused,
        StatusView::Resolved(held) if held == number => BlockChange::Cleared,
        _ => BlockChange::Resolved(number),
    }
}

/// What clearing the block at `index` does to it: nothing to a given block;
/// any other block becomes unresolved.
pub open spec fn clear_change(board: BoardView, index: BlockIndex) -> BlockChange {
    match board[index].status {
        StatusView::Fixed(_) => BlockChange::Refused,
        _ => BlockChange::Cleared,
    }
}

/// What toggling the possible `number` of the block at `index` does to it:
/// nothing to a given block; a block that lists the number loses it; a block
/// that lists others gains it; an unresolved or a resolved block lists this
/// number alone afterwards.
pub open spec fn toggle_change(board: BoardView, index: BlockIndex, number: SudokuNumber) -> BlockChange {
    match board[index].status {
        StatusView::Fixed(_) => BlockChange::Refused,
        StatusView::Possibilities(possibilities) => BlockChange::Possibility {
            number,
            cleared: possibilities.numbers.contains(number),
        },
        _ => BlockChange::Possibility { number, cleared: false },
    }
}

/// The status of a block after a move that did `change` to it.
pub open spec fn status_after(status: StatusView, change: BlockChange) -> StatusView {
    match change {
        BlockChange::Refused => status,
        BlockChange::Cleared => StatusView::Unresolved,
        BlockChange::Resolved(number) => StatusView::Resolved(number),
        BlockChange::Possibility { number, cleared } => match status {
            StatusView::Possibilities(possibilities) => StatusView::Possibilities(
                if cleared {
                    possibilities.without_number(number)
                } else {
                    possibilities.with_number(number)
                },
            ),
            _ => StatusView::Possibilities(PossibilitiesView::fresh(set![number])),
        },
    }
}

/// The board after a move that did `change` to the block at `index`. Only
/// the status of that block changes; its conflict tag and all other blocks
/// stay.
pub open spec fn moved(board: BoardView, index: BlockIndex, change: BlockChange) -> BoardView {
    match change {
        BlockChange::Refused => board,
        _ => with_status(board, index, status_after(board[index].status, change)),
    }
}

impl SudokuBoard {
    /// Resolves the block at `index` to `number`, or clears it where it is
    /// resolved to `number` already. A given block stays as it is.
    pub fn set_resolved(&mut self, index: &BlockIndex, number: SudokuNumber) -> (change: BlockChange)
        requires
            old(self).wf(),
        ensures
            final(self).wf(),
            change == resolve_change(old(self)@, *index, number),
            final(self)@ == moved(old(self)@, *index, change),
    {
        let block = self.block(index);
        match block.status() {
            SudokuBlockStatus::Fixed(_) => BlockChange::Refused,
            SudokuBlockStatus::Resolved(held) if held == number => {
                self.put(index, block.with_status(SudokuBlockStatus::Unresolved));
                BlockChange::Cleared
            },
            _ => {
                self.put(index, block.with_status(SudokuBlockStatus::Resolved(number)));
                BlockChange::Resolved(number)
            },
        }
    }

    /// Makes the block at `index` unresolved. A given block stays as it is.
    pub fn clear_block(&mut self, index: &BlockIndex) -> (change: BlockChange)
        requires
            old(self).wf(),
        ensures
            final(self).wf(),
            change == clear_change(old(self)@, *index),
            final(self)@ == moved(old(self)@, *index, change),
    {
        let block = self.block(index);
        match block.status() {
            SudokuBlockStatus::Fixed(_) => BlockChange::Refused,
            _ => {
                self.put(index, block.with_status(SudokuBlockStatus::Unresolved));
                BlockChange::Cleared
            },
        }
    }

    /// Adds `number` to the possible numbers of the block at `index`, or
    /// takes it from them where it is one. A block without possibilities
    /// lists this number alone afterwards. A given block stays as it is.
    pub fn toggle_possibility(&mut self, index: &BlockIndex, number: SudokuNumber) -> (change:
        BlockChange)
        requires
            old(self).wf(),
        ensures
            final(self).wf(),
            change == toggle_change(old(self)@, *index, number),
            final(self)@ == moved(old(self)@, *index, change),
    {
        let block = self.block(index);
        match block.status() {
            SudokuBlockStatus::Fixed(_) => BlockChange::Refused,
            SudokuBlockStatus::Possibilities(mut possibilities) => {
                let cleared = possibilities.has_number(number);
                if cleared {
                    possibilities.del_number(number);
                } else {
                    possibilities.set_number(number);
                }
                self.put(index, block.with_status(SudokuBlockStatus::Possibilities(possibilities)));
                BlockChange::Possibility { number, cleared }
            },
            _ => {
                let mut numbers = SudokuNumbers::default();
                numbers.set_number(number);
                assert(numbers@ =~= set![number]);
                self.put(
                    index,
                    block.with_status(SudokuBlockStatus::Possibilities(Possibilities::new(numbers))),
                );
                BlockChange::Possibility { number, cleared: false }
            },
        }
    }
}

} // verus!
