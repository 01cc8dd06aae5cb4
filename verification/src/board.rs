use crate::block::{BlockView, StatusView, SudokuBlock, SudokuBlockStatus};
use crate::index::{
    col_indexes, col_seq, row_indexes, row_seq, square_indexes, square_seq, BlockIndex,
};
use crate::numbers::{lemma_number_of, lemma_number_value, SudokuNumber};
use vstd::prelude::*;

verus! {

/// What a board stands for: the block at every index.
pub type BoardView = Map<BlockIndex, BlockView>;

/// The numbers that a puzzle gives, by the index of their block.
pub type Givens = Map<BlockIndex, SudokuNumber>;

/// Whether a block can carry the tag at `index`: a given block carries none,
/// and a tag that names a block as its cause names a peer.
pub open spec fn tag_fits(block: BlockView, index: BlockIndex) -> bool {
    &&& block.status is Fixed ==> block.conflicting is None
    &&& block.conflicting matches Some(tag) ==> (tag.cause() matches Some(source)
        ==> source.is_peer(index))
}

/// A board view is well formed when it has a block at every index, each
/// block knows its index, a given block carries no conflict tag, a tag that
/// names a block names a peer, and only possible numbers conflict or carry
/// a mark.
pub open spec fn board_wf(board: BoardView) -> bool {
    &&& forall|index: BlockIndex| #[trigger] board.dom().contains(index)
    &&& forall|index: BlockIndex| (#[trigger] board[index]).index == index
    &&& forall|index: BlockIndex| tag_fits(#[trigger] board[index], index)
    &&& forall|index: BlockIndex|
        (#[trigger] board[index]).status matches StatusView::Possibilities(possibilities)
            ==> possibilities.wf() && possibilities.numbers.finite()
}

/// The board of a puzzle before any move: the given numbers fixed, every
/// other block unresolved, nothing tagged.
pub open spec fn board_of(givens: Givens) -> BoardView {
    Map::total(
        |index: BlockIndex|
            BlockView {
                index,
                conflicting: None,
                status: if givens.dom().contains(index) {
                    StatusView::Fixed(givens[index])
                } else {
                    StatusView::Unresolved
                },
            },
    )
}

/// The numbers that the puzzle gave, read off a board.
pub open spec fn givens_of(board: BoardView) -> Givens {
    Map::new(
        |index: BlockIndex| board[index].status is Fixed,
        |index: BlockIndex| board[index].status->Fixed_0,
    )
}

/// The givens that a grid of optional numbers describes.
pub open spec fn givens_in(numbers: [[Option<SudokuNumber>; 9]; 9]) -> Givens {
    Map::new(
        |index: BlockIndex| numbers[index.row.value() - 1][index.col.value() - 1] is Some,
        |index: BlockIndex| numbers[index.row.value() - 1][index.col.value() - 1]->0,
    )
}

/// Whether every number of a grid of optional bytes is a sudoku number.
pub open spec fn bytes_in_range(numbers: [[Option<u8>; 9]; 9]) -> bool {
    forall|row: int, col: int|
        0 <= row < 9 && 0 <= col < 9 ==> match #[trigger] numbers[row][col] {
            Some(byte) => 1 <= byte <= 9,
            None => true,
        }
}

/// The givens that a grid of optional bytes describes.
pub open spec fn givens_in_bytes(numbers: [[Option<u8>; 9]; 9]) -> Givens {
    Map::new(
        |index: BlockIndex| numbers[index.row.value() - 1][index.col.value() - 1] is Some,
        |index: BlockIndex|
            SudokuNumber::of(numbers[index.row.value() - 1][index.col.value() - 1]->0 as int),
    )
}

/// Whether `blocks` are the blocks that the board has at `indexes`, in the
/// same order.
pub open spec fn shows(board: BoardView, indexes: Seq<BlockIndex>, blocks: Seq<SudokuBlock>) -> bool {
    &&& blocks.len() == indexes.len()
    &&& forall|k: int| 0 <= k < indexes.len() ==> (#[trigger] blocks[k])@ == board[indexes[k]]
}

/// An index and its position when the board is read row by row.
pub proof fn lemma_position(index: BlockIndex)
    ensures
        0 <= index.position() < 81,
        index.position() / 9 == index.row.value() - 1,
        index.position() % 9 == index.col.value() - 1,
        BlockIndex::at(index.position()) == index,
{
    lemma_number_value(index.row);
    lemma_number_value(index.col);
}

/// A position and the index that stands there.
pub proof fn lemma_at(position: int)
    requires
        0 <= position < 81,
    ensures
        BlockIndex::at(position).position() == position,
        BlockIndex::at(position).row.value() - 1 == position / 9,
        BlockIndex::at(position).col.value() - 1 == position % 9,
{
    lemma_number_of(position / 9 + 1);
    lemma_number_of(position % 9 + 1);
}

/// The 9×9 board.
#[derive(Clone, Debug)]
pub struct SudokuBoard {
    blocks: [[SudokuBlock; 9]; 9],
}

impl View for SudokuBoard {
    type V = BoardView;

    closed spec fn view(&self) -> BoardView {
        Map::total(|index: BlockIndex| self.cell(index)@)
    }
}

impl Default for SudokuBoard {
    /// The board of the puzzle that gives nothing.
    fn default() -> (board: Self)
        ensures
            board.wf(),
            board@ == board_of(Map::empty()),
    {
        let block = SudokuBlock::new(
            SudokuNumber::One,
            SudokuNumber::One,
            SudokuBlockStatus::Unresolved,
        );
        let mut board = Self { blocks: [[block;9];9] };
        let mut position: usize = 0;
        while position < 81
            invariant
                position <= 81,
                forall|index: BlockIndex|
                    index.position() < position ==> (#[trigger] board.cell(index))@
                        == board_of(Map::empty())[index],
            decreases 81 - position,
        {
            let index = BlockIndex::nth(position);
            let ghost before = board;
            proof {
                lemma_at(position as int);
            }
            board.blocks[position / 9][position % 9] = SudokuBlock::new(
                index.row,
                index.col,
                SudokuBlockStatus::Unresolved,
            );
            proof {
                assert forall|other: BlockIndex| other.position() < position + 1 implies (
                #[trigger] board.cell(other))@ == board_of(Map::empty())[other] by {
                    lemma_position(other);
                    if other != index {
                        assert(board.cell(other) == before.cell(other));
                    }
                }
            }
            position += 1;
        }
        proof {
            assert forall|index: BlockIndex| #[trigger]
                board@[index] == board_of(Map::empty())[index] by {
                lemma_position(index);
            }
            assert(board@ =~= board_of(Map::empty()));
            board.lemma_view_wf();
        }
        board
    }
}

impl SudokuBoard {
    /// The block stored for an index.
    closed spec fn cell(&self, index: BlockIndex) -> SudokuBlock {
        self.blocks[index.row.value() - 1][index.col.value() - 1]
    }

    /// See `board_wf`.
    pub open spec fn wf(&self) -> bool {
        board_wf(self@)
    }

    /// What holds of the view of any board, whatever its blocks.
    proof fn lemma_view_wf(self)
        ensures
            forall|index: BlockIndex| #[trigger] self@.dom().contains(index),
            forall|index: BlockIndex| #[trigger] self@[index] == self.cell(index)@,
            forall|index: BlockIndex|
                (#[trigger] self@[index]).status matches StatusView::Possibilities(possibilities)
                    ==> possibilities.wf() && possibilities.numbers.finite(),
    {
        assert forall|index: BlockIndex|
            (#[trigger] self@[index]).status matches StatusView::Possibilities(possibilities)
                ==> possibilities.wf() && possibilities.numbers.finite() by {
            self.cell(index).lemma_wf();
        }
    }

    /// A copy of the block at `index`.
    pub(crate) fn block(&self, index: &BlockIndex) -> (block: SudokuBlock)
        ensures
            block@ == self@[*index],
    {
        let (row, col) = index.actual_index();
        proof {
            lemma_number_value(index.row);
            lemma_number_value(index.col);
        }
        self.blocks[row][col]
    }

    /// Replaces the block at `index`.
    pub(crate) fn put(&mut self, index: &BlockIndex, block: SudokuBlock)
        requires
            old(self).wf(),
            block@.index == *index,
            tag_fits(block@, *index),
        ensures
            final(self).wf(),
            final(self)@ == old(self)@.insert(*index, block@),
    {
        let (row, col) = index.actual_index();
        proof {
            lemma_number_value(index.row);
            lemma_number_value(index.col);
        }
        self.blocks[row][col] = block;
        proof {
            assert forall|other: BlockIndex| #[trigger]
                self@[other] == old(self)@.insert(*index, block@)[other] by {
                lemma_number_value(other.row);
                lemma_number_value(other.col);
                if other != *index {
                    assert(self.cell(other) == old(self).cell(other));
                }
            }
            assert(self@ =~= old(self)@.insert(*index, block@));
            self.lemma_view_wf();
        }
    }

    /// Fills the board with given numbers or empty blocks.
    fn fill_board(&mut self, numbers: [[Option<SudokuNumber>; 9]; 9])
        ensures
            final(self).wf(),
            final(self)@ == board_of(givens_in(numbers)),
    {
        let mut position: usize = 0;
        while position < 81
            invariant
                position <= 81,
                forall|index: BlockIndex|
                    index.position() < position ==> (#[trigger] self.cell(index))@ == board_of(
                        givens_in(numbers),
                    )[index],
            decreases 81 - position,
        {
            let index = BlockIndex::nth(position);
            let ghost before = *self;
            proof {
                lemma_at(position as int);
            }
            let status = match numbers[position / 9][position % 9] {
                Some(number) => SudokuBlockStatus::Fixed(number),
                None => SudokuBlockStatus::Unresolved,
            };
            self.blocks[position / 9][position % 9] = SudokuBlock::new(index.row, index.col, status);
            proof {
                assert forall|other: BlockIndex| other.position() < position + 1 implies (
                #[trigger] self.cell(other))@ == board_of(givens_in(numbers))[other] by {
                    lemma_position(other);
                    if other != index {
                        assert(self.cell(other) == before.cell(other));
                    }
                }
            }
            position += 1;
        }
        proof {
            assert forall|index: BlockIndex| #[trigger]
                self@[index] == board_of(givens_in(numbers))[index] by {
                lemma_position(index);
            }
            assert(self@ =~= board_of(givens_in(numbers)));
            self.lemma_view_wf();
        }
    }

    /// Starts the puzzle that the grid of bytes describes. A byte that is no
    /// sudoku number is an error, and the board then stays as it was.
    pub fn fill_board_u8(&mut self, numbers: [[Option<u8>; 9]; 9]) -> (result: Result<(), ()>)
        requires
            old(self).wf(),
        ensures
            final(self).wf(),
            result is Ok <==> bytes_in_range(numbers),
            result is Ok ==> final(self)@ == board_of(givens_in_bytes(numbers)),
            result is Err ==> final(self)@ == old(self)@,
    {
        let mut position: usize = 0;
        while position < 81
            invariant
                position <= 81,
                self.wf(),
                self@ == old(self)@,
                forall|row: int, col: int|
                    0 <= row < 9 && 0 <= col < 9 && row * 9 + col < position
                        ==> match #[trigger] numbers[row][col] {
                        Some(byte) => 1 <= byte <= 9,
                        None => true,
                    },
            decreases 81 - position,
        {
            match numbers[position / 9][position % 9] {
                Some(byte) => {
                    if byte < 1 || byte > 9 {
                        return Err(());
                    }
                },
                None => {},
            }
            proof {
                assert forall|row: int, col: int|
                    0 <= row < 9 && 0 <= col < 9 && row * 9 + col < position + 1
                        implies match #[trigger] numbers[row][col] {
                    Some(byte) => 1 <= byte <= 9,
                    None => true,
                } by {
                    if row * 9 + col == position {
                        assert(row == position / 9 && col == position % 9);
                    }
                }
            }
            position += 1;
        }
        position = 0;
        while position < 81
            invariant
                position <= 81,
                bytes_in_range(numbers),
                forall|index: BlockIndex|
                    index.position() < position ==> (#[trigger] self.cell(index))@ == board_of(
                        givens_in_bytes(numbers),
                    )[index],
            decreases 81 - position,
        {
            let index = BlockIndex::nth(position);
            let ghost before = *self;
            proof {
                lemma_at(position as int);
            }
            let status = match numbers[position / 9][position % 9] {
                Some(byte) => {
                    assert(1 <= byte <= 9);
                    SudokuBlockStatus::Fixed(SudokuNumber::at((byte - 1) as usize))
                },
                None => SudokuBlockStatus::Unresolved,
            };
            self.blocks[position / 9][position % 9] = SudokuBlock::new(index.row, index.col, status);
            proof {
                assert forall|other: BlockIndex| other.position() < position + 1 implies (
                #[trigger] self.cell(other))@ == board_of(givens_in_bytes(numbers))[other] by {
                    lemma_position(other);
                    if other != index {
                        assert(self.cell(other) == before.cell(other));
                    }
                }
            }
            position += 1;
        }
        proof {
            assert forall|index: BlockIndex| #[trigger]
                self@[index] == board_of(givens_in_bytes(numbers))[index] by {
                lemma_position(index);
            }
            assert(self@ =~= board_of(givens_in_bytes(numbers)));
            self.lemma_view_wf();
        }
        Ok(())
    }

    /// The board of the puzzle that gives the numbers of the grid.
    pub fn new(numbers: [[Option<SudokuNumber>; 9]; 9]) -> (board: Self)
        ensures
            board.wf(),
            board@ == board_of(givens_in(numbers)),
    {
        let mut board = Self::default();
        board.fill_board(numbers);
        board
    }

    pub fn get_block(&self, index: &BlockIndex) -> (block: &SudokuBlock)
        ensures
            block@ == self@[*index],
    {
        let (row, col) = index.actual_index();
        proof {
            lemma_number_value(index.row);
            lemma_number_value(index.col);
        }
        &self.blocks[row][col]
    }

    /// The blocks at the listed indexes, in the order of the list.
    fn blocks_at(&self, indexes: &Vec<BlockIndex>) -> (blocks: Vec<SudokuBlock>)
        ensures
            shows(self@, indexes@, blocks@),
    {
        let mut blocks: Vec<SudokuBlock> = Vec::new();
        let mut k: usize = 0;
        while k < indexes.len()
            invariant
                k <= indexes.len(),
                blocks.len() == k,
                forall|j: int| 0 <= j < k ==> (#[trigger] blocks[j])@ == self@[indexes[j]],
            decreases indexes.len() - k,
        {
            blocks.push(self.block(&indexes[k]));
            k += 1;
        }
        blocks
    }

    /// All 81 blocks, row by row.
    pub fn get_blocks(&self) -> (blocks: Vec<SudokuBlock>)
        ensures
            blocks.len() == 81,
            forall|position: int|
                0 <= position < 81 ==> (#[trigger] blocks[position])@ == self@[BlockIndex::at(
                    position,
                )],
    {
        let mut blocks: Vec<SudokuBlock> = Vec::new();
        let mut position: usize = 0;
        while position < 81
            invariant
                position <= 81,
                blocks.len() == position,
                forall|j: int|
                    0 <= j < position ==> (#[trigger] blocks[j])@ == self@[BlockIndex::at(j)],
            decreases 81 - position,
        {
            blocks.push(self.block(&BlockIndex::nth(position)));
            position += 1;
        }
        blocks
    }

    pub fn get_row(&self, row_number: SudokuNumber) -> (blocks: Vec<SudokuBlock>)
        ensures
            shows(self@, row_seq(row_number), blocks@),
    {
        self.blocks_at(&row_indexes(row_number))
    }

    pub fn get_col(&self, column_number: SudokuNumber) -> (blocks: Vec<SudokuBlock>)
        ensures
            shows(self@, col_seq(column_number), blocks@),
    {
        self.blocks_at(&col_indexes(column_number))
    }

    pub fn get_square(&self, square_number: SudokuNumber) -> (blocks: Vec<SudokuBlock>)
        ensures
            shows(self@, square_seq(square_number), blocks@),
    {
        self.blocks_at(&square_indexes(square_number))
    }
}

} // verus!
