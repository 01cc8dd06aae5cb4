use crate::block::{StatusView, SudokuBlock, SudokuBlockStatus};
use crate::board::{board_wf, BoardView, SudokuBoard};
use crate::candidates::lemma_single_member;
use crate::conflicts::lemma_take_step;
pub use crate::containers::get_all_possible_numbers;
use crate::edits::{edited, edited_peers, Edit, EditView};
use crate::index::{
    col_indexes, col_seq, row_indexes, row_seq, square_indexes, square_seq, BlockIndex,
};
use crate::numbers::{SudokuNumber, SudokuNumbers};
use crate::strategies::{Strategy, StrategyEffect, StrategyMarker, SudokuSolvingStrategy};
use vstd::prelude::*;

verus! {

/// The rule of the hidden single: a number that, in a row, a column or a
/// square, only one block lists as possible belongs in that block.
#[derive(Clone, Copy, Debug, Default)]
pub struct HiddenSingleStrategy;

/// Whether a block of `container` other than the one at `index` lists
/// `number` as possible.
pub open spec fn listed_elsewhere(
    board: BoardView,
    index: BlockIndex,
    container: Seq<BlockIndex>,
    number: SudokuNumber,
) -> bool {
    exists|other: BlockIndex|
        container.contains(other) && other != index && (
        #[trigger] board[other]).status.possible().contains(number)
}

/// The numbers that are hidden in the block at `index`: it lists them, and
/// in its row, its column or its square no other block does.
pub open spec fn hidden_numbers(board: BoardView, index: BlockIndex) -> Set<SudokuNumber> {
    Set::new(
        |number: SudokuNumber|
            board[index].status.possible().contains(number) && (!listed_elsewhere(
                board,
                index,
                row_seq(index.row),
                number,
            ) || !listed_elsewhere(board, index, col_seq(index.col), number) || !listed_elsewhere(
                board,
                index,
                square_seq(index.spec_square_number()),
                number,
            )),
    )
}

/// The hidden single of the block at `index`: the number that is hidden in
/// it, where exactly one is.
pub open spec fn hidden_single(board: BoardView, index: BlockIndex) -> Option<SudokuNumber> {
    let hidden = hidden_numbers(board, index);
    if hidden.finite() && hidden.len() == 1 {
        Some(hidden.choose())
    } else {
        None
    }
}

/// The board after the rule was shown or applied for the block at `index`.
/// Nothing changes where the block has no hidden single. Where it has one
/// and the rule is applied, the block lists only that number and its peers
/// list it no longer. Where the rule is shown, the number is marked as the
/// `Source` in the block and as `Effected` in every peer that lists it.
pub open spec fn hidden_single_step(
    board: BoardView,
    index: BlockIndex,
    show_only_effect: bool,
) -> BoardView {
    match hidden_single(board, index) {
        None => board,
        Some(number) => if show_only_effect {
            edited_peers(
                edited(
                    board,
                    index,
                    EditView::Mark(
                        set![number],
                        StrategyMarker {
                            strategy: Strategy::HiddenSingle,
                            effect: StrategyEffect::Source,
                        },
                    ),
                ),
                index,
                EditView::Mark(
                    set![number],
                    StrategyMarker {
                        strategy: Strategy::HiddenSingle,
                        effect: StrategyEffect::Effected,
                    },
                ),
            )
        } else {
            edited_peers(
                edited(board, index, EditView::Collapse(number)),
                index,
                EditView::Remove(set![number]),
            )
        },
    }
}

/// The board after the rule was shown or applied for the first `count`
/// blocks, read row by row, one after the other: each block is examined on
/// the board that the blocks before it left.
pub open spec fn hidden_singles_upto(board: BoardView, count: int, show_only_effect: bool) -> BoardView
    decreases count,
{
    if count <= 0 {
        board
    } else {
        hidden_single_step(
            hidden_singles_upto(board, count - 1, show_only_effect),
            BlockIndex::at(count - 1),
            show_only_effect,
        )
    }
}

/// The numbers that `possible` holds and that no block of `blocks` other
/// than the one at `index` lists as possible.
pub open spec fn hidden_among(
    possible: Set<SudokuNumber>,
    index: BlockIndex,
    blocks: Seq<SudokuBlock>,
) -> Set<SudokuNumber> {
    Set::new(
        |number: SudokuNumber|
            possible.contains(number) && !exists|k: int|
                0 <= k < blocks.len() && (#[trigger] blocks[k])@.index != index
                    && blocks[k]@.status.possible().contains(number),
    )
}

/// The number that the block at `row` and `col` lists as possible and no
/// other block of `container` does, where there is exactly one such number.
pub fn get_hidden_single(
    board: &SudokuBoard,
    row: SudokuNumber,
    col: SudokuNumber,
    container: &[SudokuBlock],
) -> (hidden: Option<SudokuNumber>)
    ensures
        ({
            let index = BlockIndex { row, col };
            let among = hidden_among(board@[index].status.possible(), index, container@);
            &&& among.finite()
            &&& hidden is Some <==> board@[index].status is Possibilities && among.len() == 1
            &&& hidden matches Some(number) ==> among == set![number]
        }),
{
    let index = BlockIndex::new(row, col);
    let block = board.get_block(&index);
    let ghost among = hidden_among(board@[index].status.possible(), index, container@);
    match block.status() {
        SudokuBlockStatus::Possibilities(possibles) => {
            let mut others = SudokuNumbers::default();
            let mut k: usize = 0;
            while k < container.len()
                invariant
                    k <= container.len(),
                    forall|number: SudokuNumber| #[trigger]
                        others@.contains(number) <==> exists|j: int|
                            0 <= j < k && (#[trigger] container[j])@.index != index
                                && container[j]@.status.possible().contains(number),
                decreases container.len() - k,
            {
                let ghost before = others@;
                let other = &container[k];
                if *other.index() != index {
                    if let SudokuBlockStatus::Possibilities(listed) = other.status() {
                        others.add_numbers(&listed.numbers());
                    }
                }
                proof {
                    assert forall|number: SudokuNumber| #[trigger]
                        others@.contains(number) <==> exists|j: int|
                            0 <= j < k + 1 && (#[trigger] container[j])@.index != index
                                && container[j]@.status.possible().contains(number) by {
                        if before.contains(number) {
                            let j = choose|j: int|
                                0 <= j < k && (#[trigger] container[j])@.index != index
                                    && container[j]@.status.possible().contains(number);
                            assert(0 <= j < k + 1 && container[j]@.index != index
                                && container[j]@.status.possible().contains(number));
                        }
                        if exists|j: int|
                            0 <= j < k + 1 && (#[trigger] container[j])@.index != index
                                && container[j]@.status.possible().contains(number) {
                            let j = choose|j: int|
                                0 <= j < k + 1 && (#[trigger] container[j])@.index != index
                                    && container[j]@.status.possible().contains(number);
                            if j < k {
                                assert(before.contains(number));
                            }
                        }
                    }
                }
                k += 1;
            }
            let mut hidden = possibles.numbers();
            let listed = others.get_numbers();
            hidden.del_numbers(listed.as_slice());
            proof {
                assert(hidden@ =~= among);
            }
            if hidden.count_numbers() == 1 {
                let list = hidden.get_numbers();
                proof {
                    assert(list@.contains(list@[0]));
                    Set::lemma_is_singleton(among);
                    assert(among =~= set![list@[0]]);
                }
                Some(list[0])
            } else {
                None
            }
        },
        _ => {
            proof {
                assert(among =~= Set::empty());
            }
            None
        },
    }
}

/// Where the rule is applied for a block with a hidden single, the block
/// lists that number alone afterwards, none of its peers lists it, and the
/// blocks that are no peers stay as they are.
pub proof fn law_hidden_single_applied(board: BoardView, index: BlockIndex)
    requires
        board_wf(board),
        hidden_single(board, index) is Some,
    ensures
        ({
            let number = hidden_single(board, index)->0;
            let after = hidden_single_step(board, index, false);
            &&& board[index].status.possible().contains(number)
            &&& after[index].status.possible() == set![number]
            &&& forall|peer: BlockIndex|
                index.is_peer(peer) ==> !(#[trigger] after[peer]).status.possible().contains(number)
            &&& forall|other: BlockIndex|
                other != index && !index.is_peer(other) ==> #[trigger] after[other] == board[other]
        }),
{
    let hidden = hidden_numbers(board, index);
    let number = hidden.choose();
    assert(hidden.len() > 0);
    assert(hidden.contains(number));
    let after = hidden_single_step(board, index, false);
    assert(!index.is_peer(index));
    assert(after[index].status.possible() =~= set![number]);
}

/// The rule, shown or applied, changes blocks with possibilities only, and
/// of them only what they list and the marks: every block keeps its index
/// and its conflict tag, and a block without possibilities stays as it is.
pub proof fn law_hidden_singles_keep(board: BoardView, count: int, show_only_effect: bool)
    requires
        board_wf(board),
    ensures
        board_wf(hidden_singles_upto(board, count, show_only_effect)),
        forall|index: BlockIndex|
            ({
                let after = #[trigger] hidden_singles_upto(board, count, show_only_effect)[index];
                &&& after.index == board[index].index
                &&& after.conflicting == board[index].conflicting
                &&& after.status is Possibilities == board[index].status is Possibilities
                &&& !(board[index].status is Possibilities) ==> after == board[index]
            }),
    decreases count,
{
    if count > 0 {
        law_hidden_singles_keep(board, count - 1, show_only_effect);
        let before = hidden_singles_upto(board, count - 1, show_only_effect);
        let at = BlockIndex::at(count - 1);
        let after = hidden_singles_upto(board, count, show_only_effect);
        assert(!at.is_peer(at));
        assert forall|index: BlockIndex|
            ({
                let block = #[trigger] after[index];
                &&& block.index == board[index].index
                &&& block.conflicting == board[index].conflicting
                &&& block.status is Possibilities == board[index].status is Possibilities
                &&& !(board[index].status is Possibilities) ==> block == board[index]
            }) by {
            let earlier = before[index];
            assert(earlier.index == board[index].index);
        }
        assert forall|index: BlockIndex| #[trigger] after.dom().contains(index) by {}
        assert forall|index: BlockIndex|
            crate::board::tag_fits(#[trigger] after[index], index) by {
            assert(crate::board::tag_fits(board[index], index));
        }
        assert forall|index: BlockIndex|
            (#[trigger] after[index]).status matches StatusView::Possibilities(possibilities)
                ==> possibilities.wf() && possibilities.numbers.finite() by {
            let earlier = before[index];
            if let StatusView::Possibilities(listed) = earlier.status {
                assert(listed.wf() && listed.numbers.finite());
            }
        }
    }
}

/// The mark of a block in which the rule found a hidden single.
pub open spec fn single_source() -> StrategyMarker {
    StrategyMarker { strategy: Strategy::HiddenSingle, effect: StrategyEffect::Source }
}

/// The mark of a block from which the rule would take a number.
pub open spec fn single_effected() -> StrategyMarker {
    StrategyMarker { strategy: Strategy::HiddenSingle, effect: StrategyEffect::Effected }
}

/// Whether one of the first `count` blocks, read row by row, is a peer of
/// the block at `index` and has `number` as its hidden single.
pub open spec fn peer_single_upto(
    board: BoardView,
    index: BlockIndex,
    number: SudokuNumber,
    count: int,
) -> bool {
    exists|peer: BlockIndex|
        peer.position() < count && peer.is_peer(index) && #[trigger] hidden_single(board, peer)
            == Some(number)
}

/// The mark that `number` carries in the block at `index` after the rule
/// was shown for the first `count` blocks: `Source` where the number is the
/// hidden single of the block and the block is among them; `Effected` where
/// the block lists the number, a peer among them has it as its hidden
/// single, and the number did not carry the `Source` mark of the rule
/// before; the mark that it carried before otherwise.
pub open spec fn shown_marker_upto(
    board: BoardView,
    index: BlockIndex,
    number: SudokuNumber,
    count: int,
) -> Option<StrategyMarker> {
    let before = match board[index].status {
        StatusView::Possibilities(possibilities) => possibilities.marker(number),
        _ => None,
    };
    if index.position() < count && hidden_single(board, index) == Some(number) {
        Some(single_source())
    } else if board[index].status.possible().contains(number) && peer_single_upto(
        board,
        index,
        number,
        count,
    ) && before != Some(single_source()) {
        Some(single_effected())
    } else {
        before
    }
}

/// The board after the rule was shown for the first `count` blocks: only
/// marks change, as `shown_marker_upto` says.
pub open spec fn shown_upto(board: BoardView, count: int) -> BoardView {
    Map::total(
        |index: BlockIndex|
            match board[index].status {
                StatusView::Possibilities(possibilities) => crate::block::BlockView {
                    status: StatusView::Possibilities(
                        crate::block::PossibilitiesView {
                            markers: Map::new(
                                |number: SudokuNumber|
                                    shown_marker_upto(board, index, number, count) is Some,
                                |number: SudokuNumber|
                                    shown_marker_upto(board, index, number, count)->0,
                            ),
                            ..possibilities
                        },
                    ),
                    ..board[index]
                },
                _ => board[index],
            },
    )
}

/// The board after the rule was shown: every hidden single is marked as the
/// `Source` in its block and as `Effected` in the peers that list it, and
/// nothing else changes. The order in which the blocks are examined makes no
/// difference.
pub open spec fn shown(board: BoardView) -> BoardView {
    shown_upto(board, 81)
}

/// The hidden single of a block rests on what the blocks list, and on
/// nothing else.
pub proof fn lemma_hidden_alike(first: BoardView, second: BoardView, index: BlockIndex)
    requires
        forall|other: BlockIndex|
            (#[trigger] first[other]).status.possible() == second[other].status.possible(),
    ensures
        hidden_numbers(first, index) == hidden_numbers(second, index),
        hidden_single(first, index) == hidden_single(second, index),
{
    assert forall|container: Seq<BlockIndex>, number: SudokuNumber|
        listed_elsewhere(first, index, container, number) == listed_elsewhere(
            second,
            index,
            container,
            number,
        ) by {
        if listed_elsewhere(first, index, container, number) {
            let other = choose|other: BlockIndex|
                container.contains(other) && other != index && (
                #[trigger] first[other]).status.possible().contains(number);
            assert(second[other].status.possible().contains(number));
        }
        if listed_elsewhere(second, index, container, number) {
            let other = choose|other: BlockIndex|
                container.contains(other) && other != index && (
                #[trigger] second[other]).status.possible().contains(number);
            assert(first[other].status.possible().contains(number));
        }
    }
    assert(first[index].status.possible() == second[index].status.possible());
    assert(hidden_numbers(first, index) =~= hidden_numbers(second, index));
}

/// A hidden single is listed by its block.
pub proof fn lemma_hidden_single_listed(board: BoardView, index: BlockIndex)
    ensures
        hidden_single(board, index) matches Some(number) ==> board[index].status.possible().contains(
            number,
        ),
{
    let hidden = hidden_numbers(board, index);
    if hidden.finite() && hidden.len() == 1 {
        assert(hidden.len() > 0);
        assert(hidden.contains(hidden.choose()));
    }
}

/// The mark of one number in one block after one more block was examined.
proof fn lemma_shown_step(board: BoardView, count: int, index: BlockIndex, number: SudokuNumber)
    requires
        board_wf(board),
        0 < count <= 81,
        board[index].status is Possibilities,
    ensures
        ({
            let after = hidden_single_step(
                shown_upto(board, count - 1),
                BlockIndex::at(count - 1),
                true,
            )[index];
            &&& after.status matches StatusView::Possibilities(listed) && listed.marker(number)
                == shown_marker_upto(board, index, number, count)
            &&& after.index == board[index].index
            &&& after.conflicting == board[index].conflicting
            &&& after.status->Possibilities_0.numbers == board[index].status->Possibilities_0.numbers
            &&& after.status->Possibilities_0.conflicting
                == board[index].status->Possibilities_0.conflicting
        }),
{
    let before = shown_upto(board, count - 1);
    let current = BlockIndex::at(count - 1);
    let after = hidden_single_step(before, current, true);
    crate::board::lemma_at(count - 1);
    crate::board::lemma_position(index);
    assert forall|other: BlockIndex|
        (#[trigger] before[other]).status.possible() == board[other].status.possible() by {}
    lemma_hidden_alike(before, board, current);
    lemma_hidden_single_listed(board, current);
    lemma_hidden_single_listed(board, index);
    assert(!current.is_peer(current));
    assert(current.is_peer(index) == index.is_peer(current));
    if index.position() == count - 1 {
        assert(index == current);
    }
    let listed = before[index].status->Possibilities_0;
    assert(listed.marker(number) == shown_marker_upto(board, index, number, count - 1));
    assert forall|peer: BlockIndex|
        peer.position() < count <==> peer.position() < count - 1 || peer == current by {
        crate::board::lemma_position(peer);
        if peer.position() == count - 1 {
            assert(peer == current);
        }
    }
    match hidden_single(board, current) {
        None => {
            assert(after == before);
            if peer_single_upto(board, index, number, count) {
                let peer = choose|peer: BlockIndex|
                    peer.position() < count && peer.is_peer(index) && #[trigger] hidden_single(
                        board,
                        peer,
                    ) == Some(number);
                assert(peer != current);
                assert(peer.position() < count - 1);
            }
        },
        Some(found) => {
            if found == number && current.is_peer(index) {
                assert(hidden_single(board, current) == Some(number));
                assert(peer_single_upto(board, index, number, count));
            }
            if peer_single_upto(board, index, number, count) && !(found == number
                && current.is_peer(index)) {
                let peer = choose|peer: BlockIndex|
                    peer.position() < count && peer.is_peer(index) && #[trigger] hidden_single(
                        board,
                        peer,
                    ) == Some(number);
                assert(peer != current);
                assert(peer.position() < count - 1);
                assert(peer_single_upto(board, index, number, count - 1));
            }
            if peer_single_upto(board, index, number, count - 1) {
                let peer = choose|peer: BlockIndex|
                    peer.position() < count - 1 && peer.is_peer(index) && #[trigger] hidden_single(
                        board,
                        peer,
                    ) == Some(number);
                assert(peer.position() < count);
            }
            let marked = edited(before, current, EditView::Mark(set![found], single_source()));
            if index == current {
                assert(after[index] == marked[index]);
            } else if current.is_peer(index) {
                assert(marked[index] == before[index]);
                assert(after[index] == EditView::Mark(set![found], single_effected()).block(
                    before[index],
                ));
            } else {
                assert(after[index] == before[index]);
            }
        },
    }
}

/// Showing the rule, block by block, leaves the board that `shown_upto`
/// describes.
proof fn lemma_shown_upto(board: BoardView, count: int)
    requires
        board_wf(board),
        0 <= count <= 81,
    ensures
        hidden_singles_upto(board, count, true) == shown_upto(board, count),
    decreases count,
{
    if count == 0 {
        assert forall|index: BlockIndex| #[trigger] shown_upto(board, 0)[index] == board[index] by {
            crate::board::lemma_position(index);
            if let StatusView::Possibilities(listed) = board[index].status {
                assert forall|number: SudokuNumber|
                    shown_marker_upto(board, index, number, 0) == listed.marker(number) by {
                    if peer_single_upto(board, index, number, 0) {
                        let peer = choose|peer: BlockIndex|
                            peer.position() < 0 && peer.is_peer(index) && #[trigger] hidden_single(
                                board,
                                peer,
                            ) == Some(number);
                        crate::board::lemma_position(peer);
                    }
                }
                let shown = shown_upto(board, 0)[index].status->Possibilities_0;
                assert(shown.markers =~= listed.markers);
            }
        }
        assert(shown_upto(board, 0) =~= board);
    } else {
        lemma_shown_upto(board, count - 1);
        let before = shown_upto(board, count - 1);
        let current = BlockIndex::at(count - 1);
        let after = hidden_single_step(before, current, true);
        assert(hidden_singles_upto(board, count, true) == after);
        assert forall|index: BlockIndex| #[trigger]
            after[index] == shown_upto(board, count)[index] by {
            match board[index].status {
                StatusView::Possibilities(listed) => {
                    assert forall|number: SudokuNumber|
                        (#[trigger] after[index].status->Possibilities_0.marker(number))
                            == shown_marker_upto(board, index, number, count) by {
                        lemma_shown_step(board, count, index, number);
                    }
                    lemma_shown_step(board, count, index, SudokuNumber::One);
                    let got = after[index].status->Possibilities_0;
                    let expected = shown_upto(board, count)[index].status->Possibilities_0;
                    assert forall|number: SudokuNumber|
                        got.markers.dom().contains(number) == expected.markers.dom().contains(
                            number,
                        ) && (got.markers.dom().contains(number) ==> got.markers[number]
                            == expected.markers[number]) by {
                        assert(got.marker(number) == shown_marker_upto(
                            board,
                            index,
                            number,
                            count,
                        ));
                    }
                    assert(got.markers =~= expected.markers);
                },
                _ => {
                    assert(before[index] == board[index]);
                    assert(!current.is_peer(current));
                },
            }
        }
        assert forall|index: BlockIndex| #[trigger] after.dom().contains(index) by {}
        assert(after =~= shown_upto(board, count));
    }
}

/// Showing the rule leaves the board that `shown` describes. The order in
/// which the blocks are examined makes no difference to it.
pub proof fn law_hidden_singles_shown_marks(board: BoardView)
    requires
        board_wf(board),
    ensures
        hidden_singles_upto(board, 81, true) == shown(board),
{
    lemma_shown_upto(board, 81);
}

/// Showing the rule takes nothing: every block lists what it listed, holds
/// what it held and keeps its conflicts. Only marks change.
pub proof fn law_hidden_singles_shown(board: BoardView, count: int)
    requires
        board_wf(board),
    ensures
        forall|index: BlockIndex|
            ({
                let after = #[trigger] hidden_singles_upto(board, count, true)[index];
                &&& after.index == board[index].index
                &&& after.conflicting == board[index].conflicting
                &&& after.status.placed() == board[index].status.placed()
                &&& after.status.possible() == board[index].status.possible()
                &&& after.status is Possibilities == board[index].status is Possibilities
                &&& !(board[index].status is Possibilities) ==> after.status == board[index].status
                &&& after.status matches StatusView::Possibilities(shown)
                    ==> shown.conflicting == board[index].status->Possibilities_0.conflicting
            }),
    decreases count,
{
    if count > 0 {
        law_hidden_singles_shown(board, count - 1);
        let before = hidden_singles_upto(board, count - 1, true);
        let at = BlockIndex::at(count - 1);
        assert(!at.is_peer(at));
        assert forall|index: BlockIndex|
            ({
                let after = #[trigger] hidden_singles_upto(board, count, true)[index];
                &&& after.index == board[index].index
                &&& after.conflicting == board[index].conflicting
                &&& after.status.placed() == board[index].status.placed()
                &&& after.status.possible() == board[index].status.possible()
                &&& after.status is Possibilities == board[index].status is Possibilities
                &&& !(board[index].status is Possibilities) ==> after.status == board[index].status
                &&& after.status matches StatusView::Possibilities(shown)
                    ==> shown.conflicting == board[index].status->Possibilities_0.conflicting
            }) by {
            let earlier = before[index];
            assert(earlier.status.possible() == board[index].status.possible());
        }
    }
}

impl SudokuBoard {
    /// The numbers that blocks of `container` other than the one at `index`
    /// list as possible.
    fn listed_by_others(&self, index: &BlockIndex, container: &Vec<BlockIndex>) -> (numbers:
        SudokuNumbers)
        ensures
            forall|number: SudokuNumber| #[trigger]
                numbers@.contains(number) <==> listed_elsewhere(self@, *index, container@, number),
    {
        let mut numbers = SudokuNumbers::default();
        let mut k: usize = 0;
        while k < container.len()
            invariant
                k <= container.len(),
                forall|number: SudokuNumber| #[trigger]
                    numbers@.contains(number) <==> listed_elsewhere(
                        self@,
                        *index,
                        container@.take(k as int),
                        number,
                    ),
            decreases container.len() - k,
        {
            let ghost before = numbers@;
            let other = container[k];
            if other != *index {
                if let SudokuBlockStatus::Possibilities(listed) = self.block(&other).status() {
                    numbers.add_numbers(&listed.numbers());
                }
            }
            proof {
                let shorter = container@.take(k as int);
                let longer = container@.take(k + 1);
                assert forall|number: SudokuNumber| #[trigger]
                    numbers@.contains(number) <==> listed_elsewhere(
                        self@,
                        *index,
                        longer,
                        number,
                    ) by {
                    if before.contains(number) {
                        let found = choose|found: BlockIndex|
                            shorter.contains(found) && found != *index && (
                            #[trigger] self@[found]).status.possible().contains(number);
                        lemma_take_step(container@, k as int, found);
                        assert(longer.contains(found));
                    }
                    if listed_elsewhere(self@, *index, longer, number) {
                        let found = choose|found: BlockIndex|
                            longer.contains(found) && found != *index && (
                            #[trigger] self@[found]).status.possible().contains(number);
                        lemma_take_step(container@, k as int, found);
                        if shorter.contains(found) {
                            assert(before.contains(number));
                        }
                    }
                    if other != *index && self@[other].status.possible().contains(number) {
                        lemma_take_step(container@, k as int, other);
                        assert(longer.contains(other));
                    }
                }
            }
            k += 1;
        }
        proof {
            assert(container@.take(container.len() as int) =~= container@);
        }
        numbers
    }

    /// The hidden single of the block at `index`, where it has one.
    pub fn hidden_single_of(&self, index: &BlockIndex) -> (hidden: Option<SudokuNumber>)
        ensures
            hidden == hidden_single(self@, *index),
    {
        match self.block(index).status() {
            SudokuBlockStatus::Possibilities(possibles) => {
                let in_row = self.listed_by_others(index, &row_indexes(index.row));
                let in_col = self.listed_by_others(index, &col_indexes(index.col));
                let in_square = self.listed_by_others(index, &square_indexes(index.square_number()));
                let mut everywhere = in_row;
                everywhere.keep_numbers(&in_col);
                everywhere.keep_numbers(&in_square);
                let mut hidden = possibles.numbers();
                hidden.del_numbers(everywhere.get_numbers().as_slice());
                proof {
                    assert(hidden@ =~= hidden_numbers(self@, *index));
                }
                if hidden.count_numbers() == 1 {
                    let list = hidden.get_numbers();
                    proof {
                        assert(list@.contains(list@[0]));
                        lemma_single_member(hidden@, list@[0]);
                    }
                    Some(list[0])
                } else {
                    None
                }
            },
            _ => {
                proof {
                    assert(hidden_numbers(self@, *index) =~= Set::empty());
                }
                None
            },
        }
    }
}

impl SudokuSolvingStrategy for HiddenSingleStrategy {
    open spec fn rule(&self) -> Strategy {
        Strategy::HiddenSingle
    }

    open spec fn applied(&self, board: BoardView, show_only_effect: bool) -> BoardView {
        hidden_singles_upto(board, 81, show_only_effect)
    }

    fn strategy(&self) -> (strategy: Strategy) {
        Strategy::HiddenSingle
    }

    fn update_possible_numbers(&self, board: &mut SudokuBoard, show_only_effect: bool)
        ensures
            show_only_effect ==> final(board)@ == shown(old(board)@),
    {
        proof {
            law_hidden_singles_shown_marks(old(board)@);
        }
        let mut position: usize = 0;
        while position < 81
            invariant
                position <= 81,
                board.wf(),
                board@ == hidden_singles_upto(old(board)@, position as int, show_only_effect),
            decreases 81 - position,
        {
            let index = BlockIndex::nth(position);
            if let Some(hidden) = board.hidden_single_of(&index) {
                let only = SudokuNumbers::only(hidden);
                if show_only_effect {
                    board.edit(&index, &Edit::Mark(only, StrategyMarker::source(Strategy::HiddenSingle)));
                    board.edit_peers(
                        &index,
                        &Edit::Mark(only, StrategyMarker::effected(Strategy::HiddenSingle)),
                    );
                } else {
                    board.edit(&index, &Edit::Collapse(hidden));
                    board.edit_peers(&index, &Edit::Remove(only));
                }
            }
            position += 1;
        }
    }
}

} // verus!
