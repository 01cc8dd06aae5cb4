use crate::block::{BlockView, Possibilities, PossibilitiesView, StatusView, SudokuBlockStatus};
use crate::board::{
    board_of, board_wf, givens_of, lemma_position, shows, BoardView, Givens, SudokuBoard,
};
use crate::conflicts::{conflict_free, holds, marked_all, marked_upto};
use crate::containers::{get_numbers, placed_in};
use crate::index::{
    col_seq, lemma_col_member, lemma_row_member, lemma_square_member, row_seq, square_seq,
    BlockIndex,
};
use crate::numbers::{SudokuNumber, SudokuNumbers};
use vstd::prelude::*;

verus! {

/// The numbers that the block at `index` may hold: all but those that a
/// block of its row, its column or its square holds, given or resolved.
pub open spec fn possible_numbers(board: BoardView, index: BlockIndex) -> Set<SudokuNumber> {
    Set::new(
        |number: SudokuNumber|
            forall|other: BlockIndex|
                index.shares_container(other) ==> !#[trigger] holds(board, other, number),
    )
}

/// The board after the possible numbers of every empty block were worked
/// out afresh: an unresolved block and a block with possibilities list what
/// `possible_numbers` gives, none of it conflicting or marked. Given and
/// resolved blocks, and all conflict tags, stay.
pub open spec fn recomputed(board: BoardView) -> BoardView {
    Map::total(
        |index: BlockIndex|
            if board[index].status is Unresolved || board[index].status is Possibilities {
                BlockView {
                    status: StatusView::Possibilities(
                        PossibilitiesView::fresh(possible_numbers(board, index)),
                    ),
                    ..board[index]
                }
            } else {
                board[index]
            },
    )
}

/// The board after every block with exactly one possible number was
/// resolved to that number.
pub open spec fn resolved_singles(board: BoardView) -> BoardView {
    Map::total(
        |index: BlockIndex|
            match board[index].status {
                StatusView::Possibilities(possibilities) if possibilities.numbers.len() == 1 => {
                    BlockView {
                        status: StatusView::Resolved(possibilities.numbers.choose()),
                        ..board[index]
                    }
                },
                _ => board[index],
            },
    )
}

/// The board after the blocks with one possible number were resolved, all
/// conflicts were worked out and, where there is none, the possible numbers
/// of the empty blocks were worked out afresh.
pub open spec fn satisfied(board: BoardView) -> BoardView {
    let resolved = resolved_singles(board);
    if conflict_free(resolved) {
        recomputed(marked_all(resolved))
    } else {
        marked_all(resolved)
    }
}

/// The board after a reset: the given blocks as they are, every other block
/// unresolved, no conflict tag.
pub open spec fn cleared(board: BoardView) -> BoardView {
    Map::total(
        |index: BlockIndex|
            BlockView {
                index: board[index].index,
                conflicting: None,
                status: if board[index].status is Fixed {
                    board[index].status
                } else {
                    StatusView::Unresolved
                },
            },
    )
}

/// No number that is possible for a block is held, given or resolved, by
/// one of its peers.
pub proof fn law_possible_numbers_avoid_peers(
    board: BoardView,
    index: BlockIndex,
    peer: BlockIndex,
    number: SudokuNumber,
)
    requires
        index.is_peer(peer),
        holds(board, peer, number),
    ensures
        !possible_numbers(board, index).contains(number),
{
}

/// A reset brings back the board that the puzzle started with: its given
/// numbers, each in its place and unchanged, and nothing else.
pub proof fn law_reset_restores_givens(board: BoardView)
    requires
        board_wf(board),
    ensures
        cleared(board) == board_of(givens_of(board)),
        givens_of(cleared(board)) == givens_of(board),
        forall|index: BlockIndex|
            board[index].status is Fixed ==> (#[trigger] cleared(board)[index]) == board[index],
{
    assert(cleared(board) =~= board_of(givens_of(board)));
    assert(givens_of(cleared(board)) =~= givens_of(board));
}

/// The board of a puzzle gives back the numbers it was made from, and each
/// of them stands in its place on the board.
pub proof fn law_givens_round_trip(givens: Givens)
    ensures
        board_wf(board_of(givens)),
        givens_of(board_of(givens)) == givens,
        forall|index: BlockIndex|
            givens.dom().contains(index) ==> (#[trigger] board_of(givens)[index]).status
                == StatusView::Fixed(givens[index]),
{
    assert(givens_of(board_of(givens)) =~= givens);
}

/// Working out all conflicts keeps what every block holds and lists as
/// possible.
pub proof fn lemma_marked_upto_keeps(board: BoardView, count: int)
    requires
        board_wf(board),
    ensures
        board_wf(marked_upto(board, count)),
        forall|other: BlockIndex|
            !(board[other].status is Possibilities) ==> (#[trigger] marked_upto(
                board,
                count,
            )[other]).status == board[other].status,
        forall|other: BlockIndex|
            board[other].status is Possibilities ==> (#[trigger] marked_upto(
                board,
                count,
            )[other]).status is Possibilities,
    decreases count,
{
    if count > 0 {
        lemma_marked_upto_keeps(board, count - 1);
        let before = marked_upto(board, count - 1);
        crate::conflicts::lemma_marked_keeps(before, BlockIndex::at(count - 1), None);
    }
}

/// Resolving the blocks with one possible number changes nothing on a board
/// without possibilities whose conflict tags are up to date, unless the
/// board is free of conflicts and has an unresolved block: that block would
/// get its possible numbers.
pub proof fn law_satisfied_without_possibilities(board: BoardView)
    requires
        board_wf(board),
        forall|index: BlockIndex| !((#[trigger] board[index]).status is Possibilities),
        marked_all(board) == board,
        conflict_free(board) ==> forall|index: BlockIndex|
            !((#[trigger] board[index]).status is Unresolved),
    ensures
        satisfied(board) == board,
{
    assert(resolved_singles(board) =~= board);
    if conflict_free(board) {
        assert(recomputed(board) =~= board);
    }
}

/// Where no block lists possibilities, resolving the blocks with one
/// possible number resolves nothing: it is working out all conflicts and,
/// where there is none, the possible numbers of the unresolved blocks.
pub proof fn law_satisfied_resolves_nothing(board: BoardView)
    requires
        board_wf(board),
        forall|index: BlockIndex| !((#[trigger] board[index]).status is Possibilities),
    ensures
        resolved_singles(board) == board,
        satisfied(board) == if conflict_free(board) {
            recomputed(marked_all(board))
        } else {
            marked_all(board)
        },
        !conflict_free(board) ==> forall|index: BlockIndex|
            (#[trigger] satisfied(board)[index]).status == board[index].status,
{
    assert(resolved_singles(board) =~= board);
    lemma_marked_upto_keeps(board, 81);
}

/// Working out the possible numbers, resolving the blocks with one possible
/// number and a reset leave every given block as it is.
pub proof fn law_givens_stay(board: BoardView, given: BlockIndex)
    requires
        board_wf(board),
        board[given].status is Fixed,
    ensures
        recomputed(board)[given] == board[given],
        resolved_singles(board)[given] == board[given],
        satisfied(board)[given] == board[given],
        cleared(board)[given] == board[given],
{
    let resolved = resolved_singles(board);
    assert(board_wf(resolved)) by {
        assert forall|index: BlockIndex|
            crate::board::tag_fits(#[trigger] resolved[index], index) by {
            assert(crate::board::tag_fits(board[index], index));
        }
    }
    crate::conflicts::law_marking_keeps_givens(resolved, given, None, given);
}

/// The one member of a set with one member.
pub proof fn lemma_single_member(numbers: Set<SudokuNumber>, number: SudokuNumber)
    requires
        numbers.finite(),
        numbers.len() == 1,
        numbers.contains(number),
    ensures
        numbers.choose() == number,
{
    Set::lemma_is_singleton(numbers);
    assert(numbers.contains(numbers.choose()));
}

impl SudokuBoard {
    /// The numbers that the block at `index` may hold: all but those that a
    /// block of its row, its column or its square holds, given or resolved.
    pub fn get_block_possible_numbers(&self, index: &BlockIndex) -> (numbers: SudokuNumbers)
        ensures
            numbers@ == possible_numbers(self@, *index),
            forall|peer: BlockIndex, number: SudokuNumber|
                index.is_peer(peer) && #[trigger] holds(self@, peer, number) ==> !numbers@.contains(
                    number,
                ),
    {
        let mut possibles = SudokuNumbers::new_all();
        let row = self.get_row(index.row);
        let col = self.get_col(index.col);
        let square = self.get_square(index.square_number());
        let in_row = get_numbers(row.as_slice());
        let in_col = get_numbers(col.as_slice());
        let in_square = get_numbers(square.as_slice());
        possibles.del_numbers(in_row.get_numbers().as_slice());
        possibles.del_numbers(in_col.get_numbers().as_slice());
        possibles.del_numbers(in_square.get_numbers().as_slice());
        proof {
            let board = self@;
            assert forall|number: SudokuNumber|
                possibles@.contains(number) == possible_numbers(board, *index).contains(
                    number,
                ) by {
                lemma_placed(board, row_seq(index.row), row@, number);
                lemma_placed(board, col_seq(index.col), col@, number);
                lemma_placed(board, square_seq(index.spec_square_number()), square@, number);
                if possibles@.contains(number) {
                    assert forall|other: BlockIndex| index.shares_container(other) implies !#[trigger] holds(
                        board,
                        other,
                        number,
                    ) by {
                        lemma_row_member(index.row, other);
                        lemma_col_member(index.col, other);
                        lemma_square_member(index.spec_square_number(), other);
                    }
                } else {
                    let other = choose|other: BlockIndex|
                        (row_seq(index.row).contains(other) || col_seq(index.col).contains(other)
                            || square_seq(index.spec_square_number()).contains(other)) && holds(
                            board,
                            other,
                            number,
                        );
                    lemma_row_member(index.row, other);
                    lemma_col_member(index.col, other);
                    lemma_square_member(index.spec_square_number(), other);
                    assert(index.shares_container(other) && holds(board, other, number));
                }
            }
            assert(possibles@ =~= possible_numbers(board, *index));
        }
        possibles
    }

    /// Works out the possible numbers of every unresolved block and of
    /// every block with possibilities afresh.
    pub fn update_possibilities(&mut self)
        requires
            old(self).wf(),
        ensures
            final(self).wf(),
            final(self)@ == recomputed(old(self)@),
    {
        let mut position: usize = 0;
        while position < 81
            invariant
                position <= 81,
                self.wf(),
                old(self).wf(),
                forall|index: BlockIndex| #[trigger]
                    self@[index] == if index.position() < position {
                        recomputed(old(self)@)[index]
                    } else {
                        old(self)@[index]
                    },
            decreases 81 - position,
        {
            let index = BlockIndex::nth(position);
            let ghost before = self@;
            let block = self.block(&index);
            let status = block.status();
            if status.is_unresolved() || status.is_possibilities() {
                let possibles = self.get_block_possible_numbers(&index);
                proof {
                    assert forall|other: BlockIndex, number: SudokuNumber|
                        holds(before, other, number) == holds(old(self)@, other, number) by {
                        assert(before[other].status.placed() == old(self)@[other].status.placed());
                    }
                    assert forall|number: SudokuNumber|
                        possibles@.contains(number) == possible_numbers(old(self)@, index).contains(
                            number,
                        ) by {
                        if possibles@.contains(number) {
                            assert forall|other: BlockIndex|
                                index.shares_container(other) implies !#[trigger] holds(
                                old(self)@,
                                other,
                                number,
                            ) by {
                                assert(!holds(before, other, number));
                            }
                        } else {
                            let other = choose|other: BlockIndex|
                                index.shares_container(other) && #[trigger] holds(
                                    before,
                                    other,
                                    number,
                                );
                            assert(holds(old(self)@, other, number));
                        }
                    }
                    assert(possibles@ =~= possible_numbers(old(self)@, index));
                }
                self.put(
                    &index,
                    block.with_status(SudokuBlockStatus::Possibilities(Possibilities::new(possibles))),
                );
            }
            proof {
                assert forall|other: BlockIndex| #[trigger]
                    self@[other] == if other.position() < position + 1 {
                        recomputed(old(self)@)[other]
                    } else {
                        old(self)@[other]
                    } by {
                    lemma_position(other);
                    if other.position() == position {
                        assert(other == index);
                    }
                    assert(before[other] == if other.position() < position {
                        recomputed(old(self)@)[other]
                    } else {
                        old(self)@[other]
                    });
                }
            }
            position += 1;
        }
        proof {
            assert forall|index: BlockIndex| #[trigger]
                self@[index] == recomputed(old(self)@)[index] by {
                lemma_position(index);
            }
            assert(self@ =~= recomputed(old(self)@));
        }
    }

    /// Resolves every block that lists exactly one possible number to that
    /// number.
    fn resolve_singles(&mut self)
        requires
            old(self).wf(),
        ensures
            final(self).wf(),
            final(self)@ == resolved_singles(old(self)@),
    {
        let mut position: usize = 0;
        while position < 81
            invariant
                position <= 81,
                self.wf(),
                old(self).wf(),
                forall|index: BlockIndex| #[trigger]
                    self@[index] == if index.position() < position {
                        resolved_singles(old(self)@)[index]
                    } else {
                        old(self)@[index]
                    },
            decreases 81 - position,
        {
            let index = BlockIndex::nth(position);
            let ghost before = self@;
            let block = self.block(&index);
            if let SudokuBlockStatus::Possibilities(possibles) = block.status() {
                if possibles.count_numbers() == 1 {
                    let list = possibles.numbers().get_numbers();
                    let single_naked = list[0];
                    proof {
                        assert(list@.contains(list@[0]));
                        lemma_single_member(possibles@.numbers, single_naked);
                    }
                    self.put(&index, block.with_status(SudokuBlockStatus::Resolved(single_naked)));
                }
            }
            proof {
                assert forall|other: BlockIndex| #[trigger]
                    self@[other] == if other.position() < position + 1 {
                        resolved_singles(old(self)@)[other]
                    } else {
                        old(self)@[other]
                    } by {
                    lemma_position(other);
                    if other.position() == position {
                        assert(other == index);
                    }
                    assert(before[other] == if other.position() < position {
                        resolved_singles(old(self)@)[other]
                    } else {
                        old(self)@[other]
                    });
                }
            }
            position += 1;
        }
        proof {
            assert forall|index: BlockIndex| #[trigger]
                self@[index] == resolved_singles(old(self)@)[index] by {
                lemma_position(index);
            }
            assert(self@ =~= resolved_singles(old(self)@));
        }
    }

    /// Resolves every block that lists exactly one possible number to that
    /// number, then works out all conflicts; where there is none, the
    /// possible numbers of the empty blocks are worked out afresh.
    pub fn resolve_satisfied_blocks(&mut self)
        requires
            old(self).wf(),
        ensures
            final(self).wf(),
            final(self)@ == satisfied(old(self)@),
    {
        self.resolve_singles();
        if self.mark_all_conflicts() {
            self.update_possibilities();
        }
    }

    /// Starts the puzzle again: every block that was not given becomes
    /// unresolved, and no block keeps a conflict tag.
    pub fn reset(&mut self)
        requires
            old(self).wf(),
        ensures
            final(self).wf(),
            final(self)@ == cleared(old(self)@),
            final(self)@ == board_of(givens_of(old(self)@)),
    {
        let mut position: usize = 0;
        while position < 81
            invariant
                position <= 81,
                self.wf(),
                old(self).wf(),
                forall|index: BlockIndex| #[trigger]
                    self@[index] == if index.position() < position {
                        cleared(old(self)@)[index]
                    } else {
                        old(self)@[index]
                    },
            decreases 81 - position,
        {
            let index = BlockIndex::nth(position);
            let ghost before = self@;
            let block = self.block(&index);
            if !block.is_fixed() {
                self.put(
                    &index,
                    block.with_status(SudokuBlockStatus::Unresolved).with_conflicting(None),
                );
            }
            proof {
                assert forall|other: BlockIndex| #[trigger]
                    self@[other] == if other.position() < position + 1 {
                        cleared(old(self)@)[other]
                    } else {
                        old(self)@[other]
                    } by {
                    lemma_position(other);
                    if other.position() == position {
                        assert(other == index);
                    }
                    assert(before[other] == if other.position() < position {
                        cleared(old(self)@)[other]
                    } else {
                        old(self)@[other]
                    });
                }
            }
            position += 1;
        }
        proof {
            assert forall|index: BlockIndex| #[trigger]
                self@[index] == cleared(old(self)@)[index] by {
                lemma_position(index);
            }
            assert(self@ =~= cleared(old(self)@));
            law_reset_restores_givens(old(self)@);
        }
    }
}

/// A number is held by one of the blocks shown exactly when the board has a
/// block at one of the indexes that holds it.
pub proof fn lemma_placed(
    board: BoardView,
    indexes: Seq<BlockIndex>,
    blocks: Seq<crate::block::SudokuBlock>,
    number: SudokuNumber,
)
    requires
        shows(board, indexes, blocks),
    ensures
        placed_in(blocks).contains(number) <==> exists|other: BlockIndex|
            indexes.contains(other) && #[trigger] holds(board, other, number),
{
    if placed_in(blocks).contains(number) {
        let k = choose|k: int|
            0 <= k < blocks.len() && (#[trigger] blocks[k])@.status.placed() == Some(number);
        assert(indexes.contains(indexes[k]) && holds(board, indexes[k], number));
    }
    if exists|other: BlockIndex| indexes.contains(other) && #[trigger] holds(board, other, number) {
        let other = choose|other: BlockIndex|
            indexes.contains(other) && #[trigger] holds(board, other, number);
        let k = choose|k: int| 0 <= k < indexes.len() && indexes[k] == other;
        assert(blocks[k]@.status.placed() == Some(number));
    }
}

} // verus!
