use crate::block::{StatusView, SudokuBlockStatus};
use crate::board::{shows, BoardView, SudokuBoard};
use crate::edits::{Edit, EditView};
use crate::index::{lemma_row_member, row_indexes, row_seq, BlockIndex};
use crate::numbers::{lemma_number_of, lemma_number_value, SudokuNumber, SudokuNumbers};
use crate::strategies::{Strategy, StrategyEffect, StrategyMarker, SudokuSolvingStrategy};
use vstd::prelude::*;

verus! {

/// The rule of the naked pair, for groups of any size: where as many blocks
/// of a row list exactly the same possible numbers as there are numbers in
/// that list, those numbers belong in those blocks, and no other block of
/// the row can hold them.
#[derive(Clone, Copy, Debug, Default)]
pub struct NakedPairStrategy;

/// Whether the block at `index` lists possibilities, and exactly `numbers`.
pub open spec fn lists(board: BoardView, index: BlockIndex, numbers: Set<SudokuNumber>) -> bool {
    board[index].status matches StatusView::Possibilities(possibilities) && possibilities.numbers
        == numbers
}

/// How many of the first `count` blocks of a row list exactly `numbers`.
pub open spec fn listing_upto(
    board: BoardView,
    row: SudokuNumber,
    numbers: Set<SudokuNumber>,
    count: int,
) -> int
    decreases count,
{
    if count <= 0 {
        0
    } else {
        listing_upto(board, row, numbers, count - 1) + if lists(
            board,
            row_seq(row)[count - 1],
            numbers,
        ) {
            1int
        } else {
            0int
        }
    }
}

/// Whether the block at `index` belongs to a locked group: it lists
/// possibilities, and as many blocks of its row list exactly what it lists
/// as it lists numbers.
pub open spec fn locked(board: BoardView, index: BlockIndex) -> bool {
    board[index].status matches StatusView::Possibilities(possibilities) && listing_upto(
        board,
        index.row,
        possibilities.numbers,
        9,
    ) == possibilities.numbers.len()
}

/// Whether `number` is locked to a group of the row of `index` that the
/// block at `index` does not belong to.
pub open spec fn locked_elsewhere(board: BoardView, index: BlockIndex, number: SudokuNumber) -> bool {
    exists|other: BlockIndex|
        other.row == index.row && #[trigger] locked(board, other) && board[other].status.possible()
            != board[index].status.possible() && board[other].status.possible().contains(number)
}

/// The numbers that the rule takes from the block at `index`: those locked
/// to groups of its row that it does not belong to.
pub open spec fn locked_away(board: BoardView, index: BlockIndex) -> Set<SudokuNumber> {
    Set::new(|number: SudokuNumber| locked_elsewhere(board, index, number))
}

/// The numbers that are locked to the group of the block at `index`: what
/// the block lists, where it belongs to a locked group.
pub open spec fn locked_here(board: BoardView, index: BlockIndex) -> Set<SudokuNumber> {
    if locked(board, index) {
        board[index].status.possible()
    } else {
        Set::empty()
    }
}

/// The mark of a block of a locked group.
pub open spec fn pair_source() -> StrategyMarker {
    StrategyMarker { strategy: Strategy::NakedPair, effect: StrategyEffect::Source }
}

/// The mark of a block from which the rule takes a number.
pub open spec fn pair_effected() -> StrategyMarker {
    StrategyMarker { strategy: Strategy::NakedPair, effect: StrategyEffect::Effected }
}

/// The board after the rule was shown or applied in every row. Applied, the
/// rule takes from every block the numbers locked to other groups of its
/// row, and the blocks of a locked group lose the marks on their numbers.
/// Shown, it takes nothing: the numbers that it would take are marked
/// `Effected`, and the numbers of a locked group are marked `Source` in the
/// blocks of the group.
pub open spec fn naked_pairs(board: BoardView, show_only_effect: bool) -> BoardView {
    Map::total(
        |index: BlockIndex|
            if show_only_effect {
                EditView::Mark(locked_here(board, index), pair_source()).block(
                    EditView::Mark(locked_away(board, index), pair_effected()).block(board[index]),
                )
            } else {
                EditView::Unmark(locked_here(board, index)).block(
                    EditView::Remove(locked_away(board, index)).block(board[index]),
                )
            },
    )
}

/// The board after the rule was shown or applied in one row.
pub open spec fn naked_pairs_in_row(
    board: BoardView,
    row: SudokuNumber,
    show_only_effect: bool,
) -> BoardView {
    Map::total(
        |index: BlockIndex|
            if index.row == row {
                naked_pairs(board, show_only_effect)[index]
            } else {
                board[index]
            },
    )
}

/// Applied, the rule takes the numbers of a locked group from every block of
/// the row that lists something else.
pub proof fn law_naked_pair_takes_locked_numbers(
    board: BoardView,
    member: BlockIndex,
    other: BlockIndex,
    number: SudokuNumber,
)
    requires
        locked(board, member),
        other.row == member.row,
        board[other].status.possible() != board[member].status.possible(),
        board[member].status.possible().contains(number),
    ensures
        !naked_pairs(board, false)[other].status.possible().contains(number),
{
    assert(locked_elsewhere(board, other, number));
}

/// Applied, the rule leaves a block what it lists but for the numbers
/// locked to other groups of its row: the blocks of a locked group keep
/// their numbers where no other locked group of the row lists one of them.
/// Blocks without possibilities stay as they are.
pub proof fn law_naked_pair_keeps_the_rest(board: BoardView, index: BlockIndex)
    ensures
        naked_pairs(board, false)[index].status.possible()
            == board[index].status.possible().difference(locked_away(board, index)),
        !(board[index].status is Possibilities) ==> naked_pairs(board, false)[index]
            == board[index],
        naked_pairs(board, false)[index].conflicting == board[index].conflicting,
        (forall|other: BlockIndex, number: SudokuNumber|
            other.row == index.row && #[trigger] locked(board, other)
                && board[other].status.possible() != board[index].status.possible()
                ==> !(board[other].status.possible().contains(number) && #[trigger] board[index].status.possible().contains(
                number,
            ))) ==> naked_pairs(board, false)[index].status.possible()
            == board[index].status.possible(),
{
    let after = naked_pairs(board, false)[index].status.possible();
    let rest = board[index].status.possible().difference(locked_away(board, index));
    assert(after =~= rest);
    if forall|other: BlockIndex, number: SudokuNumber|
        other.row == index.row && #[trigger] locked(board, other) && board[other].status.possible()
            != board[index].status.possible() ==> !(board[other].status.possible().contains(number)
            && #[trigger] board[index].status.possible().contains(number)) {
        assert forall|number: SudokuNumber| #[trigger]
            board[index].status.possible().contains(number) implies !locked_away(
            board,
            index,
        ).contains(number) by {
            if locked_elsewhere(board, index, number) {
                let other = choose|other: BlockIndex|
                    other.row == index.row && #[trigger] locked(board, other)
                        && board[other].status.possible() != board[index].status.possible()
                        && board[other].status.possible().contains(number);
                assert(false);
            }
        }
        assert(rest =~= board[index].status.possible());
    }
}

/// Showing the rule takes nothing: every block lists what it listed, holds
/// what it held and keeps its conflicts. Only marks change.
pub proof fn law_naked_pairs_shown(board: BoardView, index: BlockIndex)
    ensures
        ({
            let after = naked_pairs(board, true)[index];
            &&& after.index == board[index].index
            &&& after.conflicting == board[index].conflicting
            &&& after.status.placed() == board[index].status.placed()
            &&& after.status.possible() == board[index].status.possible()
            &&& !(board[index].status is Possibilities) ==> after.status == board[index].status
            &&& after.status matches StatusView::Possibilities(shown) ==> shown.conflicting
                == board[index].status->Possibilities_0.conflicting
        }),
{
}

/// What the rule does in a row rests on the blocks of that row alone.
pub proof fn lemma_row_alone(first: BoardView, second: BoardView, row: SudokuNumber)
    requires
        forall|index: BlockIndex| index.row == row ==> #[trigger] first[index] == second[index],
    ensures
        forall|index: BlockIndex, show_only_effect: bool|
            index.row == row ==> #[trigger] naked_pairs(first, show_only_effect)[index]
                == naked_pairs(second, show_only_effect)[index],
{
    assert forall|numbers: Set<SudokuNumber>, count: int|
        0 <= count <= 9 implies #[trigger] listing_upto(first, row, numbers, count) == listing_upto(
        second,
        row,
        numbers,
        count,
    ) by {
        lemma_listing_alone(first, second, row, numbers, count);
    }
    assert forall|index: BlockIndex| index.row == row implies locked(first, index) == locked(
        second,
        index,
    ) by {}
    assert forall|index: BlockIndex, number: SudokuNumber|
        index.row == row implies locked_elsewhere(first, index, number) == locked_elsewhere(
        second,
        index,
        number,
    ) by {
        if locked_elsewhere(first, index, number) {
            let other = choose|other: BlockIndex|
                other.row == index.row && #[trigger] locked(first, other)
                    && first[other].status.possible() != first[index].status.possible()
                    && first[other].status.possible().contains(number);
            assert(locked(second, other));
        }
        if locked_elsewhere(second, index, number) {
            let other = choose|other: BlockIndex|
                other.row == index.row && #[trigger] locked(second, other)
                    && second[other].status.possible() != second[index].status.possible()
                    && second[other].status.possible().contains(number);
            assert(locked(first, other));
        }
    }
    assert forall|index: BlockIndex, show_only_effect: bool|
        index.row == row implies #[trigger] naked_pairs(first, show_only_effect)[index]
            == naked_pairs(second, show_only_effect)[index] by {
        assert(locked_away(first, index) =~= locked_away(second, index));
        assert(locked_here(first, index) =~= locked_here(second, index));
    }
}

proof fn lemma_listing_alone(
    first: BoardView,
    second: BoardView,
    row: SudokuNumber,
    numbers: Set<SudokuNumber>,
    count: int,
)
    requires
        0 <= count <= 9,
        forall|index: BlockIndex| index.row == row ==> #[trigger] first[index] == second[index],
    ensures
        listing_upto(first, row, numbers, count) == listing_upto(second, row, numbers, count),
    decreases count,
{
    if count > 0 {
        lemma_listing_alone(first, second, row, numbers, count - 1);
        assert(row_seq(row)[count - 1].row == row);
    }
}

/// What a row lists, block by block: `None` for a block without
/// possibilities.
pub open spec fn row_lists(
    board: BoardView,
    row: SudokuNumber,
    sets: Seq<Option<SudokuNumbers>>,
) -> bool {
    &&& sets.len() == 9
    &&& forall|k: int|
        0 <= k < 9 ==> match #[trigger] sets[k] {
            Some(numbers) => lists(board, row_seq(row)[k], numbers@),
            None => !(board[row_seq(row)[k]].status is Possibilities),
        }
}

/// Which blocks of a row belong to a locked group.
pub open spec fn row_locks(board: BoardView, row: SudokuNumber, locks: Seq<bool>) -> bool {
    &&& locks.len() == 9
    &&& forall|k: int| 0 <= k < 9 ==> #[trigger] locks[k] == locked(board, row_seq(row)[k])
}

/// What the blocks of a row list.
fn lists_of_row(board: &SudokuBoard, row: SudokuNumber) -> (sets: Vec<Option<SudokuNumbers>>)
    ensures
        row_lists(board@, row, sets@),
{
    let blocks = board.get_row(row);
    let mut sets: Vec<Option<SudokuNumbers>> = Vec::new();
    let mut k: usize = 0;
    while k < 9
        invariant
            k <= 9,
            sets.len() == k,
            shows(board@, row_seq(row), blocks@),
            forall|j: int|
                0 <= j < k ==> match #[trigger] sets[j] {
                    Some(numbers) => lists(board@, row_seq(row)[j], numbers@),
                    None => !(board@[row_seq(row)[j]].status is Possibilities),
                },
        decreases 9 - k,
    {
        let listed = match blocks[k].status() {
            SudokuBlockStatus::Possibilities(possibilities) => Some(possibilities.numbers()),
            _ => None,
        };
        proof {
            assert(blocks[k as int]@ == board@[row_seq(row)[k as int]]);
        }
        sets.push(listed);
        k += 1;
    }
    sets
}

/// Which blocks of a row belong to a locked group.
fn locks_of_row(
    board: &SudokuBoard,
    row: SudokuNumber,
    sets: &Vec<Option<SudokuNumbers>>,
) -> (locks: Vec<bool>)
    requires
        row_lists(board@, row, sets@),
    ensures
        row_locks(board@, row, locks@),
{
    let mut locks: Vec<bool> = Vec::new();
    let mut k: usize = 0;
    while k < 9
        invariant
            k <= 9,
            locks.len() == k,
            row_lists(board@, row, sets@),
            forall|j: int| 0 <= j < k ==> #[trigger] locks[j] == locked(board@, row_seq(row)[j]),
        decreases 9 - k,
    {
        let is_locked = match sets[k] {
            Some(numbers) => {
                let mut group: usize = 0;
                let mut j: usize = 0;
                while j < 9
                    invariant
                        j <= 9,
                        group <= j,
                        row_lists(board@, row, sets@),
                        group == listing_upto(board@, row, numbers@, j as int),
                    decreases 9 - j,
                {
                    let same = match sets[j] {
                        Some(other) => other.same_as(&numbers),
                        None => false,
                    };
                    if same {
                        group += 1;
                    }
                    j += 1;
                }
                group == numbers.count_numbers()
            },
            None => false,
        };
        proof {
            assert(row_seq(row)[k as int].row == row);
        }
        locks.push(is_locked);
        k += 1;
    }
    locks
}

/// Shows or applies the rule in one row.
fn update_row(board: &mut SudokuBoard, row: SudokuNumber, show_only_effect: bool)
    requires
        old(board).wf(),
    ensures
        final(board).wf(),
        final(board)@ == naked_pairs_in_row(old(board)@, row, show_only_effect),
{
    let sets = lists_of_row(board, row);
    let locks = locks_of_row(board, row, &sets);
    let indexes = row_indexes(row);
    let mut k: usize = 0;
    while k < 9
        invariant
            k <= 9,
            board.wf(),
            old(board).wf(),
            indexes@ == row_seq(row),
            row_lists(old(board)@, row, sets@),
            row_locks(old(board)@, row, locks@),
            forall|index: BlockIndex| #[trigger]
                board@[index] == if index.row == row && index.col.value() - 1 < k {
                    naked_pairs(old(board)@, show_only_effect)[index]
                } else {
                    old(board)@[index]
                },
        decreases 9 - k,
    {
        let index = indexes[k];
        let ghost before = board@;
        proof {
            lemma_number_of(k + 1);
            assert(index.row == row && index.col.value() - 1 == k);
            assert(before[index] == old(board)@[index]);
        }
        match sets[k] {
            Some(numbers) => {
                let away = locked_away_of_snapshot(&sets, &locks, k);
                let here = if locks[k] {
                    numbers
                } else {
                    SudokuNumbers::default()
                };
                proof {
                    lemma_snapshot_away(old(board)@, row, sets@, locks@, k as int, away@);
                    assert(here@ =~= locked_here(old(board)@, index));
                }
                if show_only_effect {
                    board.edit(
                        &index,
                        &Edit::Mark(away, StrategyMarker::effected(Strategy::NakedPair)),
                    );
                    board.edit(&index, &Edit::Mark(here, StrategyMarker::source(Strategy::NakedPair)));
                } else {
                    board.edit(&index, &Edit::Remove(away));
                    board.edit(&index, &Edit::Unmark(here));
                }
            },
            None => {},
        }
        proof {
            assert forall|other: BlockIndex| #[trigger]
                board@[other] == if other.row == row && other.col.value() - 1 < k + 1 {
                    naked_pairs(old(board)@, show_only_effect)[other]
                } else {
                    old(board)@[other]
                } by {
                lemma_number_value(other.col);
                if other.row == row && other.col.value() - 1 == k {
                    assert(other == index);
                }
                assert(before[other] == if other.row == row && other.col.value() - 1 < k {
                    naked_pairs(old(board)@, show_only_effect)[other]
                } else {
                    old(board)@[other]
                });
            }
        }
        k += 1;
    }
    proof {
        assert forall|index: BlockIndex| #[trigger]
            board@[index] == naked_pairs_in_row(old(board)@, row, show_only_effect)[index] by {
            lemma_number_value(index.col);
        }
        assert(board@ =~= naked_pairs_in_row(old(board)@, row, show_only_effect));
    }
}

/// The numbers of the locked groups, as the lists of a row show them, that
/// the `k`th block of the row does not belong to.
pub open spec fn snapshot_away(
    sets: Seq<Option<SudokuNumbers>>,
    locks: Seq<bool>,
    k: int,
) -> Set<SudokuNumber> {
    Set::new(
        |number: SudokuNumber|
            exists|j: int|
                0 <= j < 9 && #[trigger] locks[j] && sets[j] is Some && sets[j]->0@ != sets[k]->0@
                    && sets[j]->0@.contains(number),
    )
}

fn locked_away_of_snapshot(sets: &Vec<Option<SudokuNumbers>>, locks: &Vec<bool>, k: usize) -> (away:
    SudokuNumbers)
    requires
        k < 9,
        sets.len() == 9,
        locks.len() == 9,
        sets[k as int] is Some,
    ensures
        away@ == snapshot_away(sets@, locks@, k as int),
{
    let own = match sets[k] {
        Some(own) => own,
        None => SudokuNumbers::default(),
    };
    let mut away = SudokuNumbers::default();
    let mut j: usize = 0;
    while j < 9
        invariant
            j <= 9,
            k < 9,
            sets.len() == 9,
            locks.len() == 9,
            sets[k as int] == Some(own),
            forall|number: SudokuNumber| #[trigger]
                away@.contains(number) <==> exists|i: int|
                    0 <= i < j && #[trigger] locks[i] && sets[i] is Some && sets[i]->0@ != own@
                        && sets[i]->0@.contains(number),
        decreases 9 - j,
    {
        let ghost before = away@;
        let mut added = false;
        if locks[j] {
            match sets[j] {
                Some(numbers) => {
                    if !own.same_as(&numbers) {
                        away.add_numbers(&numbers);
                        added = true;
                    }
                },
                None => {},
            }
        }
        proof {
            assert forall|number: SudokuNumber| #[trigger]
                away@.contains(number) <==> exists|i: int|
                    0 <= i < j + 1 && #[trigger] locks[i] && sets[i] is Some && sets[i]->0@ != own@
                        && sets[i]->0@.contains(number) by {
                if before.contains(number) {
                    let i = choose|i: int|
                        0 <= i < j && #[trigger] locks[i] && sets[i] is Some && sets[i]->0@ != own@
                            && sets[i]->0@.contains(number);
                    assert(0 <= i < j + 1 && locks[i]);
                }
                if added && sets[j as int]->0@.contains(number) {
                    assert(0 <= j < j + 1 && locks[j as int]);
                }
                if exists|i: int|
                    0 <= i < j + 1 && #[trigger] locks[i] && sets[i] is Some && sets[i]->0@ != own@
                        && sets[i]->0@.contains(number) {
                    let i = choose|i: int|
                        0 <= i < j + 1 && #[trigger] locks[i] && sets[i] is Some && sets[i]->0@
                            != own@ && sets[i]->0@.contains(number);
                    if i < j {
                        assert(before.contains(number));
                    }
                }
            }
        }
        j += 1;
    }
    proof {
        assert(away@ =~= snapshot_away(sets@, locks@, k as int));
    }
    away
}

/// What the lists of a row show as locked away from its `k`th block is what
/// the board locks away from it.
proof fn lemma_snapshot_away(
    board: BoardView,
    row: SudokuNumber,
    sets: Seq<Option<SudokuNumbers>>,
    locks: Seq<bool>,
    k: int,
    away: Set<SudokuNumber>,
)
    requires
        0 <= k < 9,
        row_lists(board, row, sets),
        row_locks(board, row, locks),
        sets[k] is Some,
        away == snapshot_away(sets, locks, k),
    ensures
        away == locked_away(board, row_seq(row)[k]),
{
    let index = row_seq(row)[k];
    assert(board[index].status.possible() == sets[k]->0@);
    assert forall|number: SudokuNumber|
        away.contains(number) == locked_away(board, index).contains(number) by {
        if away.contains(number) {
            let j = choose|j: int|
                0 <= j < 9 && #[trigger] locks[j] && sets[j] is Some && sets[j]->0@ != sets[k]->0@
                    && sets[j]->0@.contains(number);
            let other = row_seq(row)[j];
            assert(other.row == index.row && locked(board, other));
            assert(board[other].status.possible() == sets[j]->0@);
        }
        if locked_elsewhere(board, index, number) {
            let other = choose|other: BlockIndex|
                other.row == index.row && #[trigger] locked(board, other)
                    && board[other].status.possible() != board[index].status.possible()
                    && board[other].status.possible().contains(number);
            lemma_row_member(row, other);
            let j = other.col.value() - 1;
            assert(row_seq(row)[j] == other);
            assert(locks[j]);
            assert(sets[j] is Some);
            assert(board[other].status.possible() == sets[j]->0@);
        }
    }
    assert(away =~= locked_away(board, index));
}

impl SudokuSolvingStrategy for NakedPairStrategy {
    open spec fn rule(&self) -> Strategy {
        Strategy::NakedPair
    }

    open spec fn applied(&self, board: BoardView, show_only_effect: bool) -> BoardView {
        naked_pairs(board, show_only_effect)
    }

    fn strategy(&self) -> (strategy: Strategy) {
        Strategy::NakedPair
    }

    fn update_possible_numbers(&self, board: &mut SudokuBoard, show_only_effect: bool) {
        let mut k: usize = 0;
        while k < 9
            invariant
                k <= 9,
                board.wf(),
                old(board).wf(),
                forall|index: BlockIndex| #[trigger]
                    board@[index] == if index.row.value() - 1 < k {
                        naked_pairs(old(board)@, show_only_effect)[index]
                    } else {
                        old(board)@[index]
                    },
            decreases 9 - k,
        {
            let row = SudokuNumber::at(k);
            let ghost before = board@;
            proof {
                lemma_row_alone(before, old(board)@, row);
            }
            update_row(board, row, show_only_effect);
            proof {
                assert forall|index: BlockIndex| #[trigger]
                    board@[index] == if index.row.value() - 1 < k + 1 {
                        naked_pairs(old(board)@, show_only_effect)[index]
                    } else {
                        old(board)@[index]
                    } by {
                    lemma_number_value(index.row);
                    if index.row.value() - 1 == k {
                        assert(index.row == row);
                    }
                    assert(before[index] == if index.row.value() - 1 < k {
                        naked_pairs(old(board)@, show_only_effect)[index]
                    } else {
                        old(board)@[index]
                    });
                }
            }
            k += 1;
        }
        proof {
            assert forall|index: BlockIndex| #[trigger]
                board@[index] == naked_pairs(old(board)@, show_only_effect)[index] by {
                lemma_number_value(index.row);
            }
            assert(board@ =~= naked_pairs(old(board)@, show_only_effect));
        }
    }
}

} // verus!
