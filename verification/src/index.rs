use crate::numbers::SudokuNumber;
use vstd::prelude::*;

verus! {

/// The place of a block on the board: its row and its column, each from one
/// to nine.
#[derive(Clone, Copy, Debug, PartialEq, Eq, Structural, Hash)]
pub struct BlockIndex {
    pub row: SudokuNumber,
    pub col: SudokuNumber,
}

/// The square that holds the block in `row` and `col`; squares are numbered
/// row by row from the top left.
pub open spec fn spec_square_number(row: SudokuNumber, col: SudokuNumber) -> SudokuNumber {
    SudokuNumber::of(((row.value() - 1) / 3) * 3 + (col.value() - 1) / 3 + 1)
}

#[verifier::when_used_as_spec(spec_square_number)]
pub fn square_number(row: SudokuNumber, col: SudokuNumber) -> (square: SudokuNumber)
    ensures
        square == spec_square_number(row, col),
        square.value() == ((row.value() - 1) / 3) * 3 + (col.value() - 1) / 3 + 1,
{
    SudokuNumber::at((row.to_index() / 3) * 3 + col.to_index() / 3)
}

impl BlockIndex {
    pub fn new(row: SudokuNumber, col: SudokuNumber) -> (index: Self)
        ensures
            index == (BlockIndex { row, col }),
    {
        Self { row, col }
    }

    /// The index of the block at zero-based `row` and `col`, where there is one.
    pub fn from_index(row: usize, col: usize) -> (result: Result<Self, ()>)
        ensures
            row < 9 && col < 9 ==> result == Ok::<Self, ()>(
                BlockIndex { row: SudokuNumber::of(row + 1), col: SudokuNumber::of(col + 1) },
            ),
            !(row < 9 && col < 9) ==> result is Err,
    {
        if row < 9 && col < 9 {
            Ok(Self::new(SudokuNumber::at(row), SudokuNumber::at(col)))
        } else {
            Err(())
        }
    }

    /// Zero-based row and column.
    pub fn actual_index(&self) -> (index: (usize, usize))
        ensures
            index.0 == self.row.value() - 1,
            index.1 == self.col.value() - 1,
    {
        (self.row.to_index(), self.col.to_index())
    }

    pub open spec fn spec_square_number(&self) -> SudokuNumber {
        spec_square_number(self.row, self.col)
    }

    #[verifier::when_used_as_spec(spec_square_number)]
    pub fn square_number(&self) -> (square: SudokuNumber)
        ensures
            square == self.spec_square_number(),
    {
        square_number(self.row, self.col)
    }

    /// Where the block stands when the board is read row by row: 0 to 80.
    pub open spec fn position(self) -> int {
        (self.row.value() - 1) * 9 + (self.col.value() - 1)
    }

    /// The index that stands at `position`.
    pub open spec fn at(position: int) -> BlockIndex {
        BlockIndex {
            row: SudokuNumber::of(position / 9 + 1),
            col: SudokuNumber::of(position % 9 + 1),
        }
    }

    /// Where the block stands inside its square, read row by row: 0 to 8.
    pub open spec fn place_in_square(self) -> int {
        ((self.row.value() - 1) % 3) * 3 + (self.col.value() - 1) % 3
    }

    /// Executable form of `at`.
    pub fn nth(position: usize) -> (index: Self)
        requires
            position < 81,
        ensures
            index == Self::at(position as int),
            index.position() == position,
    {
        Self::new(SudokuNumber::at(position / 9), SudokuNumber::at(position % 9))
    }

    /// Whether two blocks stand in one row, one column or one square. A
    /// block shares all three with itself.
    pub open spec fn shares_container(self, other: BlockIndex) -> bool {
        ||| self.row == other.row
        ||| self.col == other.col
        ||| self.spec_square_number() == other.spec_square_number()
    }

    /// Whether `other` is another block of this block's row, column or
    /// square.
    pub open spec fn is_peer(self, other: BlockIndex) -> bool {
        self != other && self.shares_container(other)
    }

    /// The twenty peers: those of the row from left to right, then those of
    /// the column from top to bottom, then the four left in the square.
    pub fn peers(&self) -> (list: Vec<BlockIndex>)
        ensures
            list@.len() == 20,
            list@.no_duplicates(),
            forall|other: BlockIndex| #[trigger] list@.contains(other) <==> self.is_peer(other),
    {
        let mut list: Vec<BlockIndex> = Vec::new();
        let row = row_indexes(self.row);
        let col = col_indexes(self.col);
        let square = square_indexes(self.square_number());
        let mut k: usize = 0;
        while k < 9
            invariant
                k <= 9,
                row@ == row_seq(self.row),
                list@.len() == if k > self.col.value() - 1 {
                    k - 1
                } else {
                    k as int
                },
                list@.no_duplicates(),
                forall|other: BlockIndex| #[trigger]
                    list@.contains(other) <==> self.is_peer(other) && other.row == self.row
                        && other.col.value() - 1 < k,
            decreases 9 - k,
        {
            let ghost before = list@;
            let next = row[k];
            proof {
                lemma_row_place(self.row, k as int);
            }
            if next.col != self.col {
                list.push(next);
            }
            proof {
                assert forall|other: BlockIndex| #[trigger]
                    list@.contains(other) <==> self.is_peer(other) && other.row == self.row
                        && other.col.value() - 1 < k + 1 by {
                    lemma_row_member(self.row, other);
                    if next.col != self.col {
                        vstd::seq_lib::lemma_seq_contains_after_push(before, next, other);
                    }
                }
                if next.col != self.col {
                    lemma_push_no_duplicates(before, next);
                }
            }
            k += 1;
        }
        proof {
            assert forall|other: BlockIndex| #[trigger]
                list@.contains(other) <==> self.is_peer(other) && other.row == self.row by {
                crate::numbers::lemma_number_value(other.col);
            }
            assert forall|other: BlockIndex| other.row.value() - 1 >= 0 by {
                crate::numbers::lemma_number_value(other.row);
            }
        }
        k = 0;
        while k < 9
            invariant
                k <= 9,
                col@ == col_seq(self.col),
                list@.len() == 8 + if k > self.row.value() - 1 {
                    k - 1
                } else {
                    k as int
                },
                list@.no_duplicates(),
                forall|other: BlockIndex| #[trigger]
                    list@.contains(other) <==> self.is_peer(other) && (other.row == self.row || (
                    other.col == self.col && other.row.value() - 1 < k)),
            decreases 9 - k,
        {
            let ghost before = list@;
            let next = col[k];
            proof {
                lemma_col_place(self.col, k as int);
            }
            if next.row != self.row {
                list.push(next);
            }
            proof {
                assert forall|other: BlockIndex| #[trigger]
                    list@.contains(other) <==> self.is_peer(other) && (other.row == self.row || (
                    other.col == self.col && other.row.value() - 1 < k + 1)) by {
                    lemma_col_member(self.col, other);
                    if next.row != self.row {
                        vstd::seq_lib::lemma_seq_contains_after_push(before, next, other);
                    }
                }
                if next.row != self.row {
                    lemma_push_no_duplicates(before, next);
                }
            }
            k += 1;
        }
        proof {
            assert forall|other: BlockIndex| #[trigger]
                list@.contains(other) <==> self.is_peer(other) && (other.row == self.row
                    || other.col == self.col) by {
                crate::numbers::lemma_number_value(other.row);
            }
            assert forall|other: BlockIndex| other.place_in_square() >= 0 by {
                lemma_place_in_square(other);
            }
        }
        k = 0;
        while k < 9
            invariant
                k <= 9,
                square@ == square_seq(self.spec_square_number()),
                list@.len() == 16 + elsewhere_in_square(*self, k as int),
                list@.no_duplicates(),
                forall|other: BlockIndex| #[trigger]
                    list@.contains(other) <==> self.is_peer(other) && (other.row == self.row
                        || other.col == self.col || other.place_in_square() < k),
            decreases 9 - k,
        {
            let ghost before = list@;
            let next = square[k];
            proof {
                lemma_square_place(self.spec_square_number(), k as int);
                lemma_same_square(*self, k as int);
            }
            if next.row != self.row && next.col != self.col {
                list.push(next);
            }
            proof {
                assert forall|other: BlockIndex| #[trigger]
                    list@.contains(other) <==> self.is_peer(other) && (other.row == self.row
                        || other.col == self.col || other.place_in_square() < k + 1) by {
                    lemma_square_member(self.spec_square_number(), other);
                    if next.row != self.row && next.col != self.col {
                        vstd::seq_lib::lemma_seq_contains_after_push(before, next, other);
                    }
                }
                if next.row != self.row && next.col != self.col {
                    lemma_push_no_duplicates(before, next);
                }
            }
            k += 1;
        }
        proof {
            assert forall|other: BlockIndex| #[trigger]
                list@.contains(other) <==> self.is_peer(other) by {
                lemma_place_in_square(other);
            }
            lemma_elsewhere_in_square(*self);
        }
        list
    }
}

/// The place of a square in a grid of three by three squares: `i` counts
/// columns and `j` rows, from zero. The grid may itself fill one square, the
/// `master`, of such a grid; the place then also stands for one of the 81
/// blocks of a board.
#[derive(Clone, Copy, Debug)]
pub struct SquareIndex {
    i: usize,
    j: usize,
    master: Option<(usize, usize)>,
    actual_index: (usize, usize),
}

impl SquareIndex {
    /// Column and row, from zero, counted over the whole of the outer grid.
    pub open spec fn place(i: usize, j: usize, master: Option<(usize, usize)>) -> (int, int) {
        match master {
            Some(master) => (master.0 * 3 + i, master.1 * 3 + j),
            None => (i as int, j as int),
        }
    }

    /// Whether the numbers name a square: each of them is 0, 1 or 2.
    pub open spec fn in_range(i: usize, j: usize, master: Option<(usize, usize)>) -> bool {
        &&& i < 3
        &&& j < 3
        &&& master matches Some(master) ==> master.0 < 3 && master.1 < 3
    }

    /// Column and row of the square, from zero.
    pub closed spec fn spec_actual_index(&self) -> (usize, usize) {
        self.actual_index
    }

    pub fn new(i: usize, j: usize, master: Option<(usize, usize)>) -> (index: Self)
        requires
            Self::in_range(i, j, master),
        ensures
            index.spec_actual_index().0 == Self::place(i, j, master).0,
            index.spec_actual_index().1 == Self::place(i, j, master).1,
            index.wf(),
    {
        let actual_index = match master {
            Some(master) => (master.0 * 3 + i, master.1 * 3 + j),
            None => (i, j),
        };
        Self { i, j, master, actual_index }
    }

    #[verifier::when_used_as_spec(spec_actual_index)]
    pub fn actual_index(&self) -> (index: (usize, usize))
        ensures
            index == self.spec_actual_index(),
    {
        self.actual_index
    }

    /// Whether the square lies on a board of nine by nine blocks. Every
    /// square that `new` makes does.
    pub closed spec fn wf(&self) -> bool {
        self.actual_index.0 < 9 && self.actual_index.1 < 9
    }

    /// The block at the square's column and row.
    pub fn block_index(&self) -> (index: BlockIndex)
        requires
            self.wf(),
        ensures
            index == (BlockIndex {
                row: SudokuNumber::of(self.spec_actual_index().1 + 1),
                col: SudokuNumber::of(self.spec_actual_index().0 + 1),
            }),
    {
        let (col, row) = self.actual_index;
        BlockIndex::new(SudokuNumber::at(row), SudokuNumber::at(col))
    }
}

/// The nine blocks of a row, from left to right.
pub open spec fn row_seq(row: SudokuNumber) -> Seq<BlockIndex> {
    Seq::new(9, |k: int| BlockIndex { row, col: SudokuNumber::of(k + 1) })
}

/// The nine blocks of a column, from top to bottom.
pub open spec fn col_seq(col: SudokuNumber) -> Seq<BlockIndex> {
    Seq::new(9, |k: int| BlockIndex { row: SudokuNumber::of(k + 1), col })
}

/// The nine blocks of a square, row by row.
pub open spec fn square_seq(square: SudokuNumber) -> Seq<BlockIndex> {
    Seq::new(
        9,
        |k: int|
            BlockIndex {
                row: SudokuNumber::of(((square.value() - 1) / 3) * 3 + k / 3 + 1),
                col: SudokuNumber::of(((square.value() - 1) % 3) * 3 + k % 3 + 1),
            },
    )
}

pub fn row_indexes(row: SudokuNumber) -> (list: Vec<BlockIndex>)
    ensures
        list@ == row_seq(row),
{
    let mut list: Vec<BlockIndex> = Vec::new();
    let mut k: usize = 0;
    while k < 9
        invariant
            k <= 9,
            list.len() == k,
            forall|j: int|
                0 <= j < k ==> #[trigger] list[j] == (BlockIndex {
                    row,
                    col: SudokuNumber::of(j + 1),
                }),
        decreases 9 - k,
    {
        list.push(BlockIndex::new(row, SudokuNumber::at(k)));
        k += 1;
    }
    assert(list@ =~= row_seq(row));
    list
}

pub fn col_indexes(col: SudokuNumber) -> (list: Vec<BlockIndex>)
    ensures
        list@ == col_seq(col),
{
    let mut list: Vec<BlockIndex> = Vec::new();
    let mut k: usize = 0;
    while k < 9
        invariant
            k <= 9,
            list.len() == k,
            forall|j: int|
                0 <= j < k ==> #[trigger] list[j] == (BlockIndex {
                    row: SudokuNumber::of(j + 1),
                    col,
                }),
        decreases 9 - k,
    {
        list.push(BlockIndex::new(SudokuNumber::at(k), col));
        k += 1;
    }
    assert(list@ =~= col_seq(col));
    list
}

pub fn square_indexes(square: SudokuNumber) -> (list: Vec<BlockIndex>)
    ensures
        list@ == square_seq(square),
{
    let start_row = (square.to_index() / 3) * 3;
    let start_col = (square.to_index() % 3) * 3;
    let mut list: Vec<BlockIndex> = Vec::new();
    let mut k: usize = 0;
    while k < 9
        invariant
            k <= 9,
            list.len() == k,
            start_row == ((square.value() - 1) / 3) * 3,
            start_col == ((square.value() - 1) % 3) * 3,
            forall|j: int|
                0 <= j < k ==> #[trigger] list[j] == (BlockIndex {
                    row: SudokuNumber::of(start_row + j / 3 + 1),
                    col: SudokuNumber::of(start_col + j % 3 + 1),
                }),
        decreases 9 - k,
    {
        list.push(
            BlockIndex::new(SudokuNumber::at(start_row + k / 3), SudokuNumber::at(start_col + k % 3)),
        );
        k += 1;
    }
    assert(list@ =~= square_seq(square));
    list
}

/// How many of the first `count` blocks of the square of `index` stand
/// neither in its row nor in its column.
pub open spec fn elsewhere_in_square(index: BlockIndex, count: int) -> int
    decreases count,
{
    if count <= 0 {
        0
    } else {
        elsewhere_in_square(index, count - 1) + if (count - 1) / 3 != (index.row.value() - 1) % 3
            && (count - 1) % 3 != (index.col.value() - 1) % 3 {
            1int
        } else {
            0int
        }
    }
}

/// Four blocks of a square stand neither in the row nor in the column of a
/// given block of the square.
pub proof fn lemma_elsewhere_in_square(index: BlockIndex)
    ensures
        elsewhere_in_square(index, 9) == 4,
{
    reveal_with_fuel(elsewhere_in_square, 10);
    crate::numbers::lemma_number_value(index.row);
    crate::numbers::lemma_number_value(index.col);
}

/// The block at place `k` of the square of `index` stands in the row of
/// `index` exactly when `k` lies in the same row of the square, and in its
/// column exactly when `k` lies in the same column of the square.
pub proof fn lemma_same_square(index: BlockIndex, k: int)
    requires
        0 <= k < 9,
    ensures
        ({
            let other = square_seq(index.spec_square_number())[k];
            &&& (other.row != index.row) == (k / 3 != (index.row.value() - 1) % 3)
            &&& (other.col != index.col) == (k % 3 != (index.col.value() - 1) % 3)
        }),
{
    let square = index.spec_square_number();
    let other = square_seq(square)[k];
    let row = index.row.value();
    let col = index.col.value();
    crate::numbers::lemma_number_value(index.row);
    crate::numbers::lemma_number_value(index.col);
    let held = ((row - 1) / 3) * 3 + (col - 1) / 3 + 1;
    assert(1 <= held <= 9);
    crate::numbers::lemma_number_of(held);
    assert(square.value() == held);
    assert((square.value() - 1) / 3 == (row - 1) / 3);
    assert((square.value() - 1) % 3 == (col - 1) / 3);
    let other_row = ((row - 1) / 3) * 3 + k / 3 + 1;
    let other_col = ((col - 1) / 3) * 3 + k % 3 + 1;
    assert(1 <= other_row <= 9 && 1 <= other_col <= 9);
    crate::numbers::lemma_number_of(other_row);
    crate::numbers::lemma_number_of(other_col);
    assert(other.row == SudokuNumber::of(other_row));
    assert(other.col == SudokuNumber::of(other_col));
    assert(other.row.value() == other_row);
    assert(other.col.value() == other_col);
    assert((other_row == row) == (k / 3 == (row - 1) % 3));
    assert((other_col == col) == (k % 3 == (col - 1) % 3));
}

/// Pushing an element that a sequence without duplicates does not hold
/// leaves it without duplicates.
pub proof fn lemma_push_no_duplicates<T>(list: Seq<T>, element: T)
    requires
        list.no_duplicates(),
        !list.contains(element),
    ensures
        list.push(element).no_duplicates(),
{
    let pushed = list.push(element);
    assert forall|i: int, j: int| 0 <= i < pushed.len() && 0 <= j < pushed.len() && i != j implies pushed[i]
        != pushed[j] by {
        if i < list.len() && j < list.len() {
        } else if i < list.len() {
            assert(list[i] == pushed[i]);
        } else {
            assert(list[j] == pushed[j]);
        }
    }
}

/// The block of a row that stands in the column after `k` others.
pub proof fn lemma_row_place(row: SudokuNumber, k: int)
    requires
        0 <= k < 9,
    ensures
        (BlockIndex { row, col: SudokuNumber::of(k + 1) }).col.value() == k + 1,
{
}

/// The block of a column that stands in the row after `k` others.
pub proof fn lemma_col_place(col: SudokuNumber, k: int)
    requires
        0 <= k < 9,
    ensures
        (BlockIndex { row: SudokuNumber::of(k + 1), col }).row.value() == k + 1,
{
}

/// A place inside a square is one of nine.
pub proof fn lemma_place_in_square(index: BlockIndex)
    ensures
        0 <= index.place_in_square() < 9,
{
}

/// The block of a square that stands at place `k` lies in that square, at
/// that place.
pub proof fn lemma_square_place(square: SudokuNumber, k: int)
    requires
        0 <= k < 9,
    ensures
        ({
            let index = BlockIndex {
                row: SudokuNumber::of(((square.value() - 1) / 3) * 3 + k / 3 + 1),
                col: SudokuNumber::of(((square.value() - 1) % 3) * 3 + k % 3 + 1),
            };
            index.spec_square_number() == square && index.place_in_square() == k
        }),
{
    let band = (square.value() - 1) / 3;
    let stack = (square.value() - 1) % 3;
    let row = band * 3 + k / 3 + 1;
    let col = stack * 3 + k % 3 + 1;
    assert(0 <= band < 3 && 0 <= stack < 3);
    assert(1 <= row <= 9 && 1 <= col <= 9);
    crate::numbers::lemma_number_of(row);
    crate::numbers::lemma_number_of(col);
    assert((row - 1) / 3 == band && (row - 1) % 3 == k / 3);
    assert((col - 1) / 3 == stack && (col - 1) % 3 == k % 3);
    assert(band * 3 + stack + 1 == square.value());
    crate::numbers::lemma_number_value(square);
}

/// A block of a row is found in the row's list at its column.
pub proof fn lemma_row_member(row: SudokuNumber, index: BlockIndex)
    ensures
        row_seq(row).contains(index) <==> index.row == row,
        index.row == row ==> row_seq(row)[index.col.value() - 1] == index,
        0 <= index.col.value() - 1 < 9,
{
    let list = row_seq(row);
    if list.contains(index) {
        let k = choose|k: int| 0 <= k < list.len() && list[k] == index;
        assert(list[k].row == row);
    }
    if index.row == row {
        crate::numbers::lemma_number_value(index.col);
        assert(list[index.col.value() - 1] == index);
    }
}

/// A block of a column is found in the column's list at its row.
pub proof fn lemma_col_member(col: SudokuNumber, index: BlockIndex)
    ensures
        col_seq(col).contains(index) <==> index.col == col,
        index.col == col ==> col_seq(col)[index.row.value() - 1] == index,
        0 <= index.row.value() - 1 < 9,
{
    let list = col_seq(col);
    if list.contains(index) {
        let k = choose|k: int| 0 <= k < list.len() && list[k] == index;
        assert(list[k].col == col);
    }
    if index.col == col {
        crate::numbers::lemma_number_value(index.row);
        assert(list[index.row.value() - 1] == index);
    }
}

/// A block of a square is found in the square's list at its place in the
/// square.
pub proof fn lemma_square_member(square: SudokuNumber, index: BlockIndex)
    ensures
        square_seq(square).contains(index) <==> index.spec_square_number() == square,
        index.spec_square_number() == square ==> square_seq(square)[index.place_in_square()]
            == index,
        0 <= index.place_in_square() < 9,
{
    let list = square_seq(square);
    if list.contains(index) {
        let k = choose|k: int| 0 <= k < list.len() && list[k] == index;
        lemma_square_place(square, k);
        assert(list[k].spec_square_number() == square);
    }
    if index.spec_square_number() == square {
        let k = index.place_in_square();
        let row = index.row.value();
        let col = index.col.value();
        crate::numbers::lemma_number_value(index.row);
        crate::numbers::lemma_number_value(index.col);
        crate::numbers::lemma_number_value(square);
        let held = ((row - 1) / 3) * 3 + (col - 1) / 3 + 1;
        assert(1 <= held <= 9);
        crate::numbers::lemma_number_of(held);
        assert(square.value() == held);
        assert((square.value() - 1) / 3 == (row - 1) / 3);
        assert((square.value() - 1) % 3 == (col - 1) / 3);
        assert(k / 3 == (row - 1) % 3 && k % 3 == (col - 1) % 3);
        assert(((square.value() - 1) / 3) * 3 + k / 3 + 1 == row);
        assert(((square.value() - 1) % 3) * 3 + k % 3 + 1 == col);
        assert(list[k] == index);
    }
}

} // verus!
