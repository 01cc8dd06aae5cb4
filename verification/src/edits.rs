use crate::block::{BlockView, Possibilities, PossibilitiesView, StatusView, SudokuBlockStatus};
use crate::board::{lemma_position, BoardView, SudokuBoard};
use crate::conflicts::lemma_take_step;
use crate::index::BlockIndex;
use crate::numbers::{SudokuNumber, SudokuNumbers};
use crate::strategies::StrategyMarker;
use vstd::prelude::*;

verus! {

/// A change to what a block lists as possible. It leaves a block without
/// possibilities as it is.
#[derive(Clone, Copy, Debug)]
pub enum Edit {
    /// These numbers are possible no longer.
    Remove(SudokuNumbers),
    /// Only this number stays possible, and it carries no mark.
    Collapse(SudokuNumber),
    /// These numbers, where possible, carry the mark, but that a `Source`
    /// mark is not replaced by the `Effected` mark of the same strategy.
    Mark(SudokuNumbers, StrategyMarker),
    /// These numbers carry no mark.
    Unmark(SudokuNumbers),
    /// No number carries a mark.
    UnmarkAll,
}

/// What an `Edit` stands for.
pub enum EditView {
    Remove(Set<SudokuNumber>),
    Collapse(SudokuNumber),
    Mark(Set<SudokuNumber>, StrategyMarker),
    Unmark(Set<SudokuNumber>),
    UnmarkAll,
}

impl View for Edit {
    type V = EditView;

    open spec fn view(&self) -> EditView {
        match *self {
            Edit::Remove(numbers) => EditView::Remove(numbers@),
            Edit::Collapse(number) => EditView::Collapse(number),
            Edit::Mark(numbers, marker) => EditView::Mark(numbers@, marker),
            Edit::Unmark(numbers) => EditView::Unmark(numbers@),
            Edit::UnmarkAll => EditView::UnmarkAll,
        }
    }
}

impl EditView {
    /// The possibilities after the edit.
    pub open spec fn result(self, possibilities: PossibilitiesView) -> PossibilitiesView {
        match self {
            EditView::Remove(numbers) => possibilities.without_numbers(numbers),
            EditView::Collapse(number) => possibilities.only(number).without_marker(number),
            EditView::Mark(numbers, marker) => possibilities.with_marks(numbers, marker),
            EditView::Unmark(numbers) => possibilities.without_marks(numbers),
            EditView::UnmarkAll => possibilities.without_markers(),
        }
    }

    /// The block after the edit.
    pub open spec fn block(self, block: BlockView) -> BlockView {
        match block.status {
            StatusView::Possibilities(possibilities) => BlockView {
                status: StatusView::Possibilities(self.result(possibilities)),
                ..block
            },
            _ => block,
        }
    }
}

impl Edit {
    pub fn apply(&self, possibilities: &mut Possibilities)
        ensures
            final(possibilities)@ == self@.result(old(possibilities)@),
    {
        match self {
            Edit::Remove(numbers) => possibilities.del_numbers(numbers),
            Edit::Collapse(number) => {
                possibilities.keep_only(*number);
                possibilities.clear_strategy_marker(*number);
            },
            Edit::Mark(numbers, marker) => possibilities.mark_numbers(numbers, *marker),
            Edit::Unmark(numbers) => possibilities.unmark_numbers(numbers),
            Edit::UnmarkAll => possibilities.clear_strategy_markers(),
        }
    }
}

/// The board after the block at `index` was edited.
pub open spec fn edited(board: BoardView, index: BlockIndex, edit: EditView) -> BoardView {
    board.insert(index, edit.block(board[index]))
}

/// The board after every peer of the block at `source` was edited.
pub open spec fn edited_peers(board: BoardView, source: BlockIndex, edit: EditView) -> BoardView {
    Map::total(
        |index: BlockIndex|
            if source.is_peer(index) {
                edit.block(board[index])
            } else {
                board[index]
            },
    )
}

/// The board after every block was edited.
pub open spec fn edited_all(board: BoardView, edit: EditView) -> BoardView {
    Map::total(|index: BlockIndex| edit.block(board[index]))
}

/// The board with no mark of a strategy left.
pub open spec fn unmarked(board: BoardView) -> BoardView {
    edited_all(board, EditView::UnmarkAll)
}

impl SudokuBoard {
    /// Edits what the block at `index` lists as possible.
    pub(crate) fn edit(&mut self, index: &BlockIndex, edit: &Edit)
        requires
            old(self).wf(),
        ensures
            final(self).wf(),
            final(self)@ == edited(old(self)@, *index, edit@),
    {
        let block = self.block(index);
        match block.status() {
            SudokuBlockStatus::Possibilities(mut possibilities) => {
                edit.apply(&mut possibilities);
                self.put(index, block.with_status(SudokuBlockStatus::Possibilities(possibilities)));
            },
            _ => {
                assert(self@ =~= edited(self@, *index, edit@));
            },
        }
    }

    /// Edits what every peer of the block at `source` lists as possible.
    pub(crate) fn edit_peers(&mut self, source: &BlockIndex, edit: &Edit)
        requires
            old(self).wf(),
        ensures
            final(self).wf(),
            final(self)@ == edited_peers(old(self)@, *source, edit@),
    {
        let peers = source.peers();
        let mut k: usize = 0;
        while k < peers.len()
            invariant
                k <= peers.len(),
                self.wf(),
                old(self).wf(),
                peers@.no_duplicates(),
                forall|other: BlockIndex| #[trigger]
                    peers@.contains(other) <==> source.is_peer(other),
                forall|other: BlockIndex| #[trigger]
                    self@[other] == if peers@.take(k as int).contains(other) {
                        edited_peers(old(self)@, *source, edit@)[other]
                    } else {
                        old(self)@[other]
                    },
            decreases peers.len() - k,
        {
            let ghost before = self@;
            let peer = peers[k];
            proof {
                lemma_take_step(peers@, k as int, peer);
                assert(peers@.contains(peer));
                assert(before[peer] == old(self)@[peer]);
            }
            self.edit(&peer, edit);
            proof {
                assert forall|other: BlockIndex| #[trigger]
                    self@[other] == if peers@.take(k + 1).contains(other) {
                        edited_peers(old(self)@, *source, edit@)[other]
                    } else {
                        old(self)@[other]
                    } by {
                    lemma_take_step(peers@, k as int, other);
                    assert(before[other] == if peers@.take(k as int).contains(other) {
                        edited_peers(old(self)@, *source, edit@)[other]
                    } else {
                        old(self)@[other]
                    });
                }
            }
            k += 1;
        }
        proof {
            assert(peers@.take(peers.len() as int) =~= peers@);
            assert(self@ =~= edited_peers(old(self)@, *source, edit@));
        }
    }

    /// Takes every mark of a strategy from the board.
    pub fn clear_strategy_markers(&mut self)
        requires
            old(self).wf(),
        ensures
            final(self).wf(),
            final(self)@ == unmarked(old(self)@),
    {
        let edit = Edit::UnmarkAll;
        let mut position: usize = 0;
        while position < 81
            invariant
                position <= 81,
                self.wf(),
                old(self).wf(),
                edit@ == EditView::UnmarkAll,
                forall|index: BlockIndex| #[trigger]
                    self@[index] == if index.position() < position {
                        unmarked(old(self)@)[index]
                    } else {
                        old(self)@[index]
                    },
            decreases 81 - position,
        {
            let index = BlockIndex::nth(position);
            let ghost before = self@;
            self.edit(&index, &edit);
            proof {
                assert forall|other: BlockIndex| #[trigger]
                    self@[other] == if other.position() < position + 1 {
                        unmarked(old(self)@)[other]
                    } else {
                        old(self)@[other]
                    } by {
                    lemma_position(other);
                    if other.position() == position {
                        assert(other == index);
                    }
                    assert(before[other] == if other.position() < position {
                        unmarked(old(self)@)[other]
                    } else {
                        old(self)@[other]
                    });
                }
            }
            position += 1;
        }
        proof {
            assert forall|index: BlockIndex| #[trigger]
                self@[index] == unmarked(old(self)@)[index] by {
                lemma_position(index);
            }
            assert(self@ =~= unmarked(old(self)@));
        }
    }
}

} // verus!
