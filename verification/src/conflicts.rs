use crate::block::{BlockView, Conflicting, StatusView, SudokuBlock, SudokuBlockStatus};
use crate::board::{board_wf, BoardView, SudokuBoard};
use crate::index::{lemma_push_no_duplicates, BlockIndex};
use crate::numbers::SudokuNumber;
use vstd::prelude::*;

verus! {

/// Whether the block at `index` holds `number`, given or resolved.
pub open spec fn holds(board: BoardView, index: BlockIndex, number: SudokuNumber) -> bool {
    board[index].status.placed() == Some(number)
}

/// Whether a peer of the block at `index` holds `number`.
pub open spec fn held_by_peer(board: BoardView, index: BlockIndex, number: SudokuNumber) -> bool {
    exists|other: BlockIndex| index.is_peer(other) && #[trigger] holds(board, other, number)
}

/// Whether no resolved block holds the number of one of its peers.
pub open spec fn conflict_free(board: BoardView) -> bool {
    forall|index: BlockIndex|
        (#[trigger] board[index]).status matches StatusView::Resolved(number) ==> !held_by_peer(
            board,
            index,
            number,
        )
}

/// Whether the puzzle is solved: every block holds a number, and no resolved
/// block holds the number of one of its peers.
pub open spec fn solved(board: BoardView) -> bool {
    &&& forall|index: BlockIndex| (#[trigger] board[index]).status.placed() is Some
    &&& conflict_free(board)
}

/// The board with the conflict tag of one block replaced.
pub open spec fn with_tag(
    board: BoardView,
    index: BlockIndex,
    conflicting: Option<Conflicting>,
) -> BoardView {
    board.insert(index, BlockView { conflicting, ..board[index] })
}

/// The board with the status of one block replaced.
pub open spec fn with_status(board: BoardView, index: BlockIndex, status: StatusView) -> BoardView {
    board.insert(index, BlockView { status, ..board[index] })
}

/// What a block does to the conflict tags of its peers when its own
/// conflicts are worked out again.
#[derive(Clone, Copy, Debug, PartialEq, Eq, Structural)]
pub enum Retag {
    /// Tags that name the block are taken away.
    Forget,
    /// Tags that say the peer holds the block's resolved number are taken
    /// away.
    ForgetResolved,
    /// Tags that say the peer holds this possible number of the block are
    /// taken away.
    ForgetPossibility(SudokuNumber),
    /// Resolved peers that hold this number are tagged as holding the
    /// block's resolved number.
    Blame(SudokuNumber),
    /// Resolved peers that hold this number are tagged as holding a possible
    /// number of the block.
    BlamePossibility(SudokuNumber),
}

impl Retag {
    /// The tag that a peer of `source` carries afterwards. A given block is
    /// never tagged.
    pub open spec fn tag_for(self, source: BlockIndex, peer: BlockView) -> Option<Conflicting> {
        match self {
            Retag::Forget => if peer.conflicting matches Some(tag) && tag.names(source) {
                None
            } else {
                peer.conflicting
            },
            Retag::ForgetResolved => if peer.conflicting == Some(Conflicting::AffectedBy(source)) {
                None
            } else {
                peer.conflicting
            },
            Retag::ForgetPossibility(number) => if peer.conflicting == Some(
                Conflicting::AffectedByPossibilities { source, number },
            ) {
                None
            } else {
                peer.conflicting
            },
            Retag::Blame(number) => if peer.status == StatusView::Resolved(number) {
                Some(Conflicting::AffectedBy(source))
            } else {
                peer.conflicting
            },
            Retag::BlamePossibility(number) => if peer.status == StatusView::Resolved(number) {
                Some(Conflicting::AffectedByPossibilities { source, number })
            } else {
                peer.conflicting
            },
        }
    }

    fn apply(&self, source: &BlockIndex, peer: &SudokuBlock) -> (conflicting: Option<Conflicting>)
        ensures
            conflicting == self.tag_for(*source, peer@),
    {
        let current = peer.conflicting();
        match self {
            Retag::Forget => match current {
                Some(Conflicting::AffectedBy(named)) => if named == *source {
                    None
                } else {
                    current
                },
                Some(Conflicting::AffectedByPossibilities { source: named, .. }) => if named
                    == *source {
                    None
                } else {
                    current
                },
                _ => current,
            },
            Retag::ForgetResolved => match current {
                Some(Conflicting::AffectedBy(named)) => if named == *source {
                    None
                } else {
                    current
                },
                _ => current,
            },
            Retag::ForgetPossibility(number) => match current {
                Some(Conflicting::AffectedByPossibilities { source: named, number: held }) => if named
                    == *source && held == *number {
                    None
                } else {
                    current
                },
                _ => current,
            },
            Retag::Blame(number) => match peer.status() {
                SudokuBlockStatus::Resolved(held) => if held == *number {
                    Some(Conflicting::AffectedBy(*source))
                } else {
                    current
                },
                _ => current,
            },
            Retag::BlamePossibility(number) => match peer.status() {
                SudokuBlockStatus::Resolved(held) => if held == *number {
                    Some(Conflicting::AffectedByPossibilities { source: *source, number: *number })
                } else {
                    current
                },
                _ => current,
            },
        }
    }
}

/// The board after every peer of `source` got the tag that `rule` gives it.
/// Only tags of peers change.
pub open spec fn retagged(board: BoardView, source: BlockIndex, rule: Retag) -> BoardView {
    Map::total(
        |index: BlockIndex|
            if source.is_peer(index) {
                BlockView { conflicting: rule.tag_for(source, board[index]), ..board[index] }
            } else {
                board[index]
            },
    )
}

/// The board after the conflicts of the block at `index` were worked out
/// again. `change` names a possible number of the block that was just set
/// (`false`) or cleared (`true`).
///
/// - A given block: nothing changes.
/// - An unresolved block loses its tag, and its peers lose the tags that
///   name it.
/// - A resolved block whose number a peer holds becomes the `Source`, and
///   every resolved peer that holds the number is tagged `AffectedBy` it; a
///   given peer that holds it stays without a tag. Where no peer holds the
///   number, the block loses its tag and its peers lose their `AffectedBy`
///   tags that name it.
/// - A block with possibilities, without a `change`: nothing changes. With
///   one: where exactly one number is possible, the peers first lose their
///   `AffectedBy` tags that name the block. Then, for a cleared number, the
///   number conflicts no longer and the peers lose the tags that name the
///   block with this number; for a set number that a peer holds, the number
///   conflicts and every resolved peer that holds it is tagged; for a set
///   number that no peer holds, the number conflicts no longer.
pub open spec fn marked(
    board: BoardView,
    index: BlockIndex,
    change: Option<(SudokuNumber, bool)>,
) -> BoardView {
    match board[index].status {
        StatusView::Fixed(_) => board,
        StatusView::Unresolved => retagged(with_tag(board, index, None), index, Retag::Forget),
        StatusView::Resolved(number) => if held_by_peer(board, index, number) {
            retagged(
                with_tag(board, index, Some(Conflicting::Source)),
                index,
                Retag::Blame(number),
            )
        } else {
            retagged(with_tag(board, index, None), index, Retag::ForgetResolved)
        },
        StatusView::Possibilities(possibilities) => match change {
            None => board,
            Some((number, was_cleared)) => {
                let swept = if possibilities.numbers.len() == 1 {
                    retagged(board, index, Retag::ForgetResolved)
                } else {
                    board
                };
                if was_cleared {
                    retagged(
                        with_status(
                            swept,
                            index,
                            StatusView::Possibilities(possibilities.without_conflict(number)),
                        ),
                        index,
                        Retag::ForgetPossibility(number),
                    )
                } else if held_by_peer(board, index, number) {
                    retagged(
                        with_status(
                            swept,
                            index,
                            StatusView::Possibilities(possibilities.with_conflict(number)),
                        ),
                        index,
                        Retag::BlamePossibility(number),
                    )
                } else {
                    with_status(
                        swept,
                        index,
                        StatusView::Possibilities(possibilities.without_conflict(number)),
                    )
                }
            },
        },
    }
}

/// Whether working out the conflicts of the block at `index` finds none: a
/// resolved block whose number no peer holds, a possible number just set
/// that no peer holds, or a block of which nothing is examined.
pub open spec fn clean_after(
    board: BoardView,
    index: BlockIndex,
    change: Option<(SudokuNumber, bool)>,
) -> bool {
    match board[index].status {
        StatusView::Resolved(number) => !held_by_peer(board, index, number),
        StatusView::Possibilities(_) => match change {
            Some((number, false)) => !held_by_peer(board, index, number),
            _ => true,
        },
        _ => true,
    }
}

/// The board after the conflicts of the block at `index` were worked out,
/// if the block is unresolved or resolved; the same board otherwise.
pub open spec fn marked_next(board: BoardView, index: BlockIndex) -> BoardView {
    if board[index].status is Resolved || board[index].status is Unresolved {
        marked(board, index, None)
    } else {
        board
    }
}

/// The board after the first `count` blocks, read row by row, had their
/// conflicts worked out one after the other. Only unresolved and resolved
/// blocks are worked on.
pub open spec fn marked_upto(board: BoardView, count: int) -> BoardView
    decreases count,
{
    if count <= 0 {
        board
    } else {
        marked_next(marked_upto(board, count - 1), BlockIndex::at(count - 1))
    }
}

/// The board after all blocks had their conflicts worked out, row by row.
pub open spec fn marked_all(board: BoardView) -> BoardView {
    marked_upto(board, 81)
}

/// The possible numbers of the block at `index` that one of its peers
/// holds.
pub open spec fn conflicts_of(board: BoardView, index: BlockIndex) -> Set<SudokuNumber> {
    Set::new(
        |number: SudokuNumber|
            board[index].status.possible().contains(number) && held_by_peer(board, index, number),
    )
}

/// The last of the first `count` blocks, read row by row, that is a peer of
/// `holder` and lists `number` as possible.
pub open spec fn lister_upto(
    board: BoardView,
    holder: BlockIndex,
    number: SudokuNumber,
    count: int,
) -> Option<BlockIndex>
    decreases count,
{
    if count <= 0 {
        None
    } else {
        let index = BlockIndex::at(count - 1);
        if holder.is_peer(index) && board[index].status.possible().contains(number) {
            Some(index)
        } else {
            lister_upto(board, holder, number, count - 1)
        }
    }
}

/// The tag of a block after the conflicts of all possibilities were worked
/// out: a resolved block whose number a peer lists as possible names the
/// last such peer; any other block loses a tag of that kind and keeps
/// another.
pub open spec fn possibility_tag(board: BoardView, index: BlockIndex) -> Option<Conflicting> {
    match board[index].status {
        StatusView::Resolved(number) if lister_upto(board, index, number, 81) is Some => Some(
            Conflicting::AffectedByPossibilities {
                source: lister_upto(board, index, number, 81)->0,
                number,
            },
        ),
        _ => if board[index].conflicting matches Some(
            Conflicting::AffectedByPossibilities { .. },
        ) {
            None
        } else {
            board[index].conflicting
        },
    }
}

/// The board after the conflicts of all possibilities were worked out: in
/// every block with possibilities exactly the numbers that a peer holds
/// conflict, and the tags are as `possibility_tag` says.
pub open spec fn possibilities_marked(board: BoardView) -> BoardView {
    Map::total(
        |index: BlockIndex|
            BlockView {
                index: board[index].index,
                conflicting: possibility_tag(board, index),
                status: match board[index].status {
                    StatusView::Possibilities(possibilities) => StatusView::Possibilities(
                        crate::block::PossibilitiesView {
                            conflicting: conflicts_of(board, index),
                            ..possibilities
                        },
                    ),
                    status => status,
                },
            },
    )
}

/// Whether working out the conflicts of the block at `source` takes `tag`
/// from a peer that carries it: the tag names the block, and the block is
/// unresolved, or it is resolved to a number that no peer holds and the tag
/// says that the peer holds the block's resolved number.
pub open spec fn forgets(board: BoardView, source: BlockIndex, tag: Conflicting) -> bool {
    tag.names(source) && match board[source].status {
        StatusView::Unresolved => true,
        StatusView::Resolved(number) => !held_by_peer(board, source, number) && tag
            == Conflicting::AffectedBy(source),
        _ => false,
    }
}

/// The last of the first `count` blocks, read row by row, that is a peer of
/// the block at `index` and is resolved to `number`.
pub open spec fn blamer_upto(
    board: BoardView,
    index: BlockIndex,
    number: SudokuNumber,
    count: int,
) -> Option<BlockIndex>
    decreases count,
{
    if count <= 0 {
        None
    } else {
        let other = BlockIndex::at(count - 1);
        if index.is_peer(other) && board[other].status == StatusView::Resolved(number) {
            Some(other)
        } else {
            blamer_upto(board, index, number, count - 1)
        }
    }
}

/// The tag of a block that was not looked at itself yet, after the first
/// `count` blocks had their conflicts worked out: it lost its tag where the
/// tag names one of those blocks, that block is a peer, and that block
/// forgets the tag.
pub open spec fn swept_tag_upto(board: BoardView, index: BlockIndex, count: int) -> Option<
    Conflicting,
> {
    match board[index].conflicting {
        Some(tag) => match tag.cause() {
            Some(source) if source.position() < count && source.is_peer(index) && forgets(
                board,
                source,
                tag,
            ) => None,
            _ => Some(tag),
        },
        None => None,
    }
}

/// The tag of the block at `index` after the first `count` blocks, read row
/// by row, had their conflicts worked out.
pub open spec fn settled_tag_upto(board: BoardView, index: BlockIndex, count: int) -> Option<
    Conflicting,
> {
    match board[index].status {
        StatusView::Fixed(_) => board[index].conflicting,
        StatusView::Unresolved => if index.position() < count {
            None
        } else {
            swept_tag_upto(board, index, count)
        },
        StatusView::Resolved(number) => {
            let blamer = blamer_upto(board, index, number, count);
            if index.position() < count {
                if held_by_peer(board, index, number) {
                    if blamer matches Some(other) && other.position() > index.position() {
                        Some(Conflicting::AffectedBy(blamer->0))
                    } else {
                        Some(Conflicting::Source)
                    }
                } else {
                    None
                }
            } else {
                match blamer {
                    Some(other) => Some(Conflicting::AffectedBy(other)),
                    None => swept_tag_upto(board, index, count),
                }
            }
        },
        StatusView::Possibilities(_) => swept_tag_upto(board, index, count),
    }
}

/// The board after the first `count` blocks had their conflicts worked out,
/// block by block: only tags change.
pub open spec fn settled_upto(board: BoardView, count: int) -> BoardView {
    Map::total(
        |index: BlockIndex|
            BlockView { conflicting: settled_tag_upto(board, index, count), ..board[index] },
    )
}

/// The board after all blocks had their conflicts worked out, block by
/// block. Only tags change:
///
/// - an unresolved block carries none;
/// - a resolved block whose number no peer holds carries none;
/// - a resolved block whose number a peer holds is `AffectedBy` the last
///   resolved peer that holds the number, where that peer comes after the
///   block when the board is read row by row, and is a `Source` otherwise;
/// - a block with possibilities loses its tag where the tag names a peer
///   that forgets it (see `forgets`), and keeps it otherwise;
/// - a given block carries none, as before.
pub open spec fn settled(board: BoardView) -> BoardView {
    settled_upto(board, 81)
}

/// A step of a prefix of a sequence: what the longer prefix holds.
pub proof fn lemma_take_step<T>(list: Seq<T>, count: int, element: T)
    requires
        0 <= count < list.len(),
    ensures
        list.take(count + 1).contains(element) <==> list.take(count).contains(element)
            || list[count] == element,
        list.no_duplicates() ==> !list.take(count).contains(list[count]),
{
    let shorter = list.take(count);
    let longer = list.take(count + 1);
    if longer.contains(element) {
        let k = choose|k: int| 0 <= k < longer.len() && longer[k] == element;
        if k < count {
            assert(shorter[k] == element);
        }
    }
    if shorter.contains(element) {
        let k = choose|k: int| 0 <= k < shorter.len() && shorter[k] == element;
        assert(longer[k] == element);
    }
    if list[count] == element {
        assert(longer[count] == element);
    }
    if list.no_duplicates() && shorter.contains(list[count]) {
        let k = choose|k: int| 0 <= k < shorter.len() && shorter[k] == list[count];
        assert(list[k] == list[count]);
    }
}

/// Working out conflicts changes tags and what conflicts among the possible
/// numbers, and nothing else: every block keeps its index, the number it
/// holds and its possible numbers.
pub proof fn lemma_marked_keeps(
    board: BoardView,
    index: BlockIndex,
    change: Option<(SudokuNumber, bool)>,
)
    requires
        board_wf(board),
    ensures
        board_wf(marked(board, index, change)),
        forall|other: BlockIndex|
            (#[trigger] marked(board, index, change)[other]).status.placed()
                == board[other].status.placed(),
        forall|other: BlockIndex|
            (#[trigger] marked(board, index, change)[other]).status.possible()
                == board[other].status.possible(),
        forall|other: BlockIndex|
            !(board[other].status is Possibilities) ==> (#[trigger] marked(
                board,
                index,
                change,
            )[other]).status == board[other].status,
        forall|other: BlockIndex|
            (#[trigger] marked(board, index, change)[other]).status is Possibilities
                == board[other].status is Possibilities,
        forall|other: BlockIndex, number: SudokuNumber|
            held_by_peer(marked(board, index, change), other, number) == held_by_peer(
                board,
                other,
                number,
            ),
{
    let after = marked(board, index, change);
    assert forall|other: BlockIndex, number: SudokuNumber|
        held_by_peer(after, other, number) == held_by_peer(board, other, number) by {
        if held_by_peer(after, other, number) {
            let peer = choose|peer: BlockIndex|
                other.is_peer(peer) && #[trigger] holds(after, peer, number);
            assert(holds(board, peer, number));
        }
        if held_by_peer(board, other, number) {
            let peer = choose|peer: BlockIndex|
                other.is_peer(peer) && #[trigger] holds(board, peer, number);
            assert(holds(after, peer, number));
        }
    }
}

/// Working out the conflicts of a block twice in a row, with the same
/// change, gives what doing it once gives: the same board and the same
/// answer.
pub proof fn law_mark_conflicts_idempotent(
    board: BoardView,
    index: BlockIndex,
    change: Option<(SudokuNumber, bool)>,
)
    requires
        board_wf(board),
    ensures
        marked(marked(board, index, change), index, change) == marked(board, index, change),
        clean_after(marked(board, index, change), index, change) == clean_after(
            board,
            index,
            change,
        ),
{
    let once = marked(board, index, change);
    let twice = marked(once, index, change);
    lemma_marked_keeps(board, index, change);
    assert(!index.is_peer(index));
    match board[index].status {
        StatusView::Fixed(_) => {},
        StatusView::Unresolved => {
            assert(once[index].status is Unresolved);
            assert(with_tag(once, index, None) =~= once);
            assert forall|other: BlockIndex| #[trigger] twice[other] == once[other] by {}
        },
        StatusView::Resolved(number) => {
            assert(once[index].status == StatusView::Resolved(number));
            if held_by_peer(board, index, number) {
                assert(with_tag(once, index, Some(Conflicting::Source)) =~= once);
            } else {
                assert(with_tag(once, index, None) =~= once);
            }
            assert forall|other: BlockIndex| #[trigger] twice[other] == once[other] by {}
        },
        StatusView::Possibilities(possibilities) => match change {
            None => {},
            Some((number, was_cleared)) => {
                let found = !was_cleared && held_by_peer(board, index, number);
                let kept = if found {
                    possibilities.with_conflict(number)
                } else {
                    possibilities.without_conflict(number)
                };
                assert(once[index].status == StatusView::Possibilities(kept));
                assert(kept.numbers == possibilities.numbers);
                let again = if found {
                    kept.with_conflict(number)
                } else {
                    kept.without_conflict(number)
                };
                assert(again.conflicting =~= kept.conflicting);
                assert(again == kept);
                let swept = if kept.numbers.len() == 1 {
                    retagged(once, index, Retag::ForgetResolved)
                } else {
                    once
                };
                assert(swept =~= once);
                assert(with_status(swept, index, StatusView::Possibilities(again)) =~= once);
                assert forall|other: BlockIndex| #[trigger] twice[other] == once[other] by {}
            },
        },
    }
    assert(twice =~= once);
}

/// Working out the conflicts of all blocks, one after the other, changes
/// nothing but tags, and leaves the tags that `settled` describes.
pub proof fn law_marked_all_settled(board: BoardView)
    requires
        board_wf(board),
    ensures
        marked_all(board) == settled(board),
{
    lemma_marked_upto_settled(board, 81);
}

/// Where the same blocks hold the same numbers, the same blocks have peers
/// that hold a number.
proof fn lemma_held_alike(first: BoardView, second: BoardView)
    requires
        forall|index: BlockIndex| (#[trigger] first[index]).status == second[index].status,
    ensures
        forall|index: BlockIndex, number: SudokuNumber|
            held_by_peer(first, index, number) == held_by_peer(second, index, number),
{
    assert forall|index: BlockIndex, number: SudokuNumber|
        held_by_peer(first, index, number) == held_by_peer(second, index, number) by {
        if held_by_peer(first, index, number) {
            let peer = choose|peer: BlockIndex|
                index.is_peer(peer) && #[trigger] holds(first, peer, number);
            assert(holds(second, peer, number));
        }
        if held_by_peer(second, index, number) {
            let peer = choose|peer: BlockIndex|
                index.is_peer(peer) && #[trigger] holds(second, peer, number);
            assert(holds(first, peer, number));
        }
    }
}

/// The last resolved peer that holds a number is a resolved peer that holds
/// it, among the blocks counted.
proof fn lemma_blamer(board: BoardView, index: BlockIndex, number: SudokuNumber, count: int)
    requires
        0 <= count <= 81,
    ensures
        blamer_upto(board, index, number, count) matches Some(other) ==> index.is_peer(other)
            && board[other].status == StatusView::Resolved(number) && 0 <= other.position()
            < count,
    decreases count,
{
    if count > 0 {
        lemma_blamer(board, index, number, count - 1);
        crate::board::lemma_at(count - 1);
    }
}

/// Whether no given block carries a tag.
pub open spec fn tags_ready(board: BoardView) -> bool {
    forall|index: BlockIndex|
        (#[trigger] board[index]).status is Fixed ==> board[index].conflicting is None
}

/// A block that is neither unresolved nor resolved changes no tag.
proof fn lemma_step_idle(board: BoardView, count: int, index: BlockIndex)
    requires
        0 < count <= 81,
        !(board[BlockIndex::at(count - 1)].status is Resolved),
        !(board[BlockIndex::at(count - 1)].status is Unresolved),
    ensures
        settled_tag_upto(board, index, count) == settled_tag_upto(board, index, count - 1),
{
    let current = BlockIndex::at(count - 1);
    crate::board::lemma_at(count - 1);
    crate::board::lemma_position(index);
    lemma_cause_place(board, index, count);
    if index.position() == count - 1 {
        assert(index == current);
    }
}

/// A tag that names the block at a position names that block.
proof fn lemma_cause_place(board: BoardView, index: BlockIndex, count: int)
    requires
        0 < count <= 81,
    ensures
        board[index].conflicting matches Some(tag) ==> (tag.cause() matches Some(source) ==> (
        source.position() < count <==> source.position() < count - 1 || source
            == BlockIndex::at(count - 1))),
{
    crate::board::lemma_at(count - 1);
    match board[index].conflicting {
        Some(tag) => match tag.cause() {
            Some(source) => {
                crate::board::lemma_position(source);
            },
            None => {},
        },
        None => {},
    }
}

/// The tag of a block after an unresolved block was worked on.
proof fn lemma_step_unresolved(board: BoardView, count: int, index: BlockIndex)
    requires
        0 < count <= 81,
        tags_ready(board),
        board[BlockIndex::at(count - 1)].status is Unresolved,
    ensures
        marked(settled_upto(board, count - 1), BlockIndex::at(count - 1), None)[index]
            == settled_upto(board, count)[index],
{
    let before = settled_upto(board, count - 1);
    let current = BlockIndex::at(count - 1);
    let after = marked(before, current, None);
    crate::board::lemma_at(count - 1);
    crate::board::lemma_position(index);
    lemma_cause_place(board, index, count);
    assert(before[current].status == board[current].status);
    assert(before[index].status == board[index].status);
    assert(before[index].conflicting == settled_tag_upto(board, index, count - 1));
    assert(current.is_peer(index) == index.is_peer(current));
    if index.position() == count - 1 {
        assert(index == current);
    }
    if index == current {
        assert(after[index].conflicting is None);
    } else if current.is_peer(index) {
        assert(after[index].conflicting == Retag::Forget.tag_for(current, before[index]));
        match board[index].status {
            StatusView::Resolved(number) => {
                lemma_blamer(board, index, number, count - 1);
            },
            _ => {},
        }
    } else {
        assert(after[index] == before[index]);
    }
}

/// The tag of a block after a resolved block whose number a peer holds was
/// worked on.
proof fn lemma_step_blame(board: BoardView, count: int, index: BlockIndex, held: SudokuNumber)
    requires
        0 < count <= 81,
        tags_ready(board),
        board[BlockIndex::at(count - 1)].status == StatusView::Resolved(held),
        held_by_peer(board, BlockIndex::at(count - 1), held),
    ensures
        marked(settled_upto(board, count - 1), BlockIndex::at(count - 1), None)[index]
            == settled_upto(board, count)[index],
{
    let before = settled_upto(board, count - 1);
    let current = BlockIndex::at(count - 1);
    let after = marked(before, current, None);
    crate::board::lemma_at(count - 1);
    crate::board::lemma_position(index);
    lemma_cause_place(board, index, count);
    lemma_held_alike(before, board);
    assert(before[current].status == board[current].status);
    assert(before[index].status == board[index].status);
    assert(before[index].conflicting == settled_tag_upto(board, index, count - 1));
    assert(current.is_peer(index) == index.is_peer(current));
    assert(held_by_peer(before, current, held));
    if index.position() == count - 1 {
        assert(index == current);
    }
    if index == current {
        assert(after[index].conflicting == Some(Conflicting::Source));
        lemma_blamer(board, index, held, count - 1);
        assert(!index.is_peer(current));
    } else if current.is_peer(index) {
        assert(after[index].conflicting == Retag::Blame(held).tag_for(current, before[index]));
        match board[index].status {
            StatusView::Resolved(number) => {
                lemma_blamer(board, index, number, count - 1);
                if number == held {
                    assert(holds(board, current, held));
                    assert(held_by_peer(board, index, held));
                }
            },
            _ => {},
        }
    } else {
        assert(after[index] == before[index]);
    }
}

/// The tag of a block after a resolved block whose number no peer holds was
/// worked on.
proof fn lemma_step_forget(board: BoardView, count: int, index: BlockIndex, held: SudokuNumber)
    requires
        0 < count <= 81,
        tags_ready(board),
        board[BlockIndex::at(count - 1)].status == StatusView::Resolved(held),
        !held_by_peer(board, BlockIndex::at(count - 1), held),
    ensures
        marked(settled_upto(board, count - 1), BlockIndex::at(count - 1), None)[index]
            == settled_upto(board, count)[index],
{
    let before = settled_upto(board, count - 1);
    let current = BlockIndex::at(count - 1);
    let after = marked(before, current, None);
    crate::board::lemma_at(count - 1);
    crate::board::lemma_position(index);
    lemma_cause_place(board, index, count);
    lemma_held_alike(before, board);
    assert(before[current].status == board[current].status);
    assert(before[index].status == board[index].status);
    assert(before[index].conflicting == settled_tag_upto(board, index, count - 1));
    assert(current.is_peer(index) == index.is_peer(current));
    assert(!held_by_peer(before, current, held));
    if index.position() == count - 1 {
        assert(index == current);
    }
    if index == current {
        assert(after[index].conflicting is None);
    } else if current.is_peer(index) {
        assert(after[index].conflicting == Retag::ForgetResolved.tag_for(current, before[index]));
        match board[index].status {
            StatusView::Resolved(number) => {
                lemma_blamer(board, index, number, count - 1);
                if number == held {
                    assert(holds(board, index, held));
                    assert(held_by_peer(board, current, held));
                }
            },
            _ => {},
        }
    } else {
        assert(after[index] == before[index]);
    }
}

proof fn lemma_marked_upto_settled(board: BoardView, count: int)
    requires
        forall|index: BlockIndex| #[trigger] board.dom().contains(index),
        tags_ready(board),
        0 <= count <= 81,
    ensures
        marked_upto(board, count) == settled_upto(board, count),
    decreases count,
{
    if count == 0 {
        assert forall|index: BlockIndex| #[trigger]
            settled_upto(board, 0)[index] == board[index] by {
            crate::board::lemma_position(index);
            match board[index].conflicting {
                Some(tag) => match tag.cause() {
                    Some(source) => {
                        crate::board::lemma_position(source);
                    },
                    None => {},
                },
                None => {},
            }
        }
        assert(settled_upto(board, 0) =~= board);
    } else {
        lemma_marked_upto_settled(board, count - 1);
        let before = settled_upto(board, count - 1);
        let current = BlockIndex::at(count - 1);
        let after = marked_next(before, current);
        assert(marked_upto(board, count) == after);
        assert(before[current].status == board[current].status);
        assert forall|index: BlockIndex| #[trigger]
            after[index] == settled_upto(board, count)[index] by {
            match board[current].status {
                StatusView::Unresolved => {
                    lemma_step_unresolved(board, count, index);
                },
                StatusView::Resolved(held) => {
                    if held_by_peer(board, current, held) {
                        lemma_step_blame(board, count, index, held);
                    } else {
                        lemma_step_forget(board, count, index, held);
                    }
                },
                _ => {
                    lemma_step_idle(board, count, index);
                },
            }
        }
        assert(after =~= settled_upto(board, count));
    }
}

/// Working out the conflicts of a block leaves no stale tag behind, on any
/// block of the board: none names an unresolved block; none says that it
/// holds the number of a resolved block whose number no peer holds; none
/// names a possible number that was just cleared.
pub proof fn law_no_stale_tags(
    board: BoardView,
    index: BlockIndex,
    change: Option<(SudokuNumber, bool)>,
    other: BlockIndex,
)
    requires
        board_wf(board),
    ensures
        ({
            let tag = marked(board, index, change)[other].conflicting;
            match board[index].status {
                StatusView::Unresolved => !(tag matches Some(named) && named.names(index)),
                StatusView::Resolved(number) => !held_by_peer(board, index, number) ==> tag
                    != Some(Conflicting::AffectedBy(index)),
                StatusView::Possibilities(_) => change matches Some((number, true)) ==> tag
                    != Some(Conflicting::AffectedByPossibilities { source: index, number }),
                StatusView::Fixed(_) => true,
            }
        }),
{
    assert(index.is_peer(other) == other.is_peer(index));
    assert(!index.is_peer(index));
    assert(crate::board::tag_fits(board[other], other));
}

/// Working out conflicts, of one block, of all blocks or of all
/// possibilities, leaves every given block as it is.
pub proof fn law_marking_keeps_givens(
    board: BoardView,
    index: BlockIndex,
    change: Option<(SudokuNumber, bool)>,
    given: BlockIndex,
)
    requires
        board_wf(board),
        board[given].status is Fixed,
    ensures
        marked(board, index, change)[given] == board[given],
        marked_all(board)[given] == board[given],
        possibilities_marked(board)[given] == board[given],
{
    law_marked_all_settled(board);
}

/// On a board where no resolved block holds the number of a given peer,
/// the board is free of conflicts exactly when no two resolved blocks that
/// share a row, a column or a square hold the same number.
pub proof fn law_conflict_free_pairs(board: BoardView)
    requires
        forall|resolved: BlockIndex, given: BlockIndex|
            resolved.is_peer(given) && (#[trigger] board[resolved]).status is Resolved && (
            #[trigger] board[given]).status is Fixed ==> board[resolved].status.placed()
                != board[given].status.placed(),
    ensures
        !conflict_free(board) <==> exists|first: BlockIndex, second: BlockIndex|
            first.is_peer(second) && (#[trigger] board[first]).status is Resolved && (
            #[trigger] board[second]).status == board[first].status,
{
    if !conflict_free(board) {
        let first = choose|first: BlockIndex|
            (#[trigger] board[first]).status is Resolved && held_by_peer(
                board,
                first,
                board[first].status->Resolved_0,
            );
        let number = board[first].status->Resolved_0;
        let second = choose|second: BlockIndex|
            first.is_peer(second) && #[trigger] holds(board, second, number);
        assert(board[second].status is Resolved);
        assert(first.is_peer(second) && board[first].status is Resolved && board[second].status
            == board[first].status);
    }
    if exists|first: BlockIndex, second: BlockIndex|
        first.is_peer(second) && (#[trigger] board[first]).status is Resolved && (
        #[trigger] board[second]).status == board[first].status {
        let (first, second) = choose|first: BlockIndex, second: BlockIndex|
            first.is_peer(second) && (#[trigger] board[first]).status is Resolved && (
            #[trigger] board[second]).status == board[first].status;
        assert(holds(board, second, board[first].status->Resolved_0));
    }
}

/// The last lister is a peer that lists the number.
proof fn lemma_lister(board: BoardView, holder: BlockIndex, number: SudokuNumber, count: int)
    ensures
        lister_upto(board, holder, number, count) matches Some(other) ==> holder.is_peer(other)
            && other.is_peer(holder) && board[other].status.possible().contains(number),
    decreases count,
{
    if count > 0 {
        lemma_lister(board, holder, number, count - 1);
    }
}

/// The last lister is the same on boards whose blocks list the same
/// possible numbers.
proof fn lemma_lister_alike(
    first: BoardView,
    second: BoardView,
    holder: BlockIndex,
    number: SudokuNumber,
    count: int,
)
    requires
        forall|index: BlockIndex|
            (#[trigger] first[index]).status.possible() == second[index].status.possible(),
    ensures
        lister_upto(first, holder, number, count) == lister_upto(second, holder, number, count),
    decreases count,
{
    if count > 0 {
        lemma_lister_alike(first, second, holder, number, count - 1);
        assert(first[BlockIndex::at(count - 1)].status.possible() == second[BlockIndex::at(
            count - 1,
        )].status.possible());
    }
}

impl SudokuBoard {
    /// The peers of the block at `index` that hold `number`, in the order of
    /// `BlockIndex::peers`.
    fn holders(&self, index: &BlockIndex, number: SudokuNumber) -> (list: Vec<BlockIndex>)
        ensures
            list@.no_duplicates(),
            forall|other: BlockIndex| #[trigger]
                list@.contains(other) <==> index.is_peer(other) && holds(self@, other, number),
            list@.len() > 0 <==> held_by_peer(self@, *index, number),
    {
        let peers = index.peers();
        let mut list: Vec<BlockIndex> = Vec::new();
        let mut k: usize = 0;
        while k < peers.len()
            invariant
                k <= peers.len(),
                peers@.no_duplicates(),
                forall|other: BlockIndex| #[trigger]
                    peers@.contains(other) <==> index.is_peer(other),
                list@.no_duplicates(),
                forall|other: BlockIndex| #[trigger]
                    list@.contains(other) <==> peers@.take(k as int).contains(other) && holds(
                        self@,
                        other,
                        number,
                    ),
            decreases peers.len() - k,
        {
            let ghost before = list@;
            let peer = peers[k];
            let held = self.block(&peer).status().placed();
            let found = match held {
                Some(held) => held == number,
                None => false,
            };
            if found {
                list.push(peer);
            }
            proof {
                lemma_take_step(peers@, k as int, peer);
                assert forall|other: BlockIndex| #[trigger]
                    list@.contains(other) <==> peers@.take(k + 1).contains(other) && holds(
                        self@,
                        other,
                        number,
                    ) by {
                    lemma_take_step(peers@, k as int, other);
                    if found {
                        vstd::seq_lib::lemma_seq_contains_after_push(before, peer, other);
                    }
                }
                if found {
                    lemma_push_no_duplicates(before, peer);
                }
            }
            k += 1;
        }
        proof {
            assert(peers@.take(peers.len() as int) =~= peers@);
            if list@.len() > 0 {
                assert(list@.contains(list@[0]));
                assert(holds(self@, list@[0], number));
            }
            if held_by_peer(self@, *index, number) {
                let other = choose|other: BlockIndex|
                    index.is_peer(other) && #[trigger] holds(self@, other, number);
                assert(list@.contains(other));
            }
        }
        list
    }

    /// Gives every peer of the block at `source` the tag that `rule` gives
    /// it.
    fn retag_peers(&mut self, source: &BlockIndex, rule: Retag)
        requires
            old(self).wf(),
        ensures
            final(self).wf(),
            final(self)@ == retagged(old(self)@, *source, rule),
    {
        let peers = source.peers();
        let mut k: usize = 0;
        while k < peers.len()
            invariant
                k <= peers.len(),
                self.wf(),
                old(self).wf(),
                peers@.no_duplicates(),
                forall|other: BlockIndex| #[trigger]
                    peers@.contains(other) <==> source.is_peer(other),
                forall|other: BlockIndex| #[trigger]
                    self@[other] == if peers@.take(k as int).contains(other) {
                        retagged(old(self)@, *source, rule)[other]
                    } else {
                        old(self)@[other]
                    },
            decreases peers.len() - k,
        {
            let ghost before = self@;
            let peer = peers[k];
            let block = self.block(&peer);
            let conflicting = rule.apply(source, &block);
            proof {
                lemma_take_step(peers@, k as int, peer);
                assert(peers@.contains(peer));
                assert(block@ == old(self)@[peer]);
            }
            self.put(&peer, block.with_conflicting(conflicting));
            proof {
                assert forall|other: BlockIndex| #[trigger]
                    self@[other] == if peers@.take(k + 1).contains(other) {
                        retagged(old(self)@, *source, rule)[other]
                    } else {
                        old(self)@[other]
                    } by {
                    lemma_take_step(peers@, k as int, other);
                    assert(before[other] == if peers@.take(k as int).contains(other) {
                        retagged(old(self)@, *source, rule)[other]
                    } else {
                        old(self)@[other]
                    });
                }
            }
            k += 1;
        }
        proof {
            assert(peers@.take(peers.len() as int) =~= peers@);
            assert(self@ =~= retagged(old(self)@, *source, rule));
        }
    }

    /// Works out the conflicts of the block at `index` again, after the
    /// block changed, and says whether it found none. `candidate_change`
    /// names a possible number of the block that was just set (`false`) or
    /// cleared (`true`). Only the block and its peers are looked at.
    pub fn mark_conflicts(
        &mut self,
        index: &BlockIndex,
        candidate_change: Option<(SudokuNumber, bool)>,
    ) -> (clean: bool)
        requires
            old(self).wf(),
        ensures
            final(self).wf(),
            final(self)@ == marked(old(self)@, *index, candidate_change),
            clean == clean_after(old(self)@, *index, candidate_change),
    {
        let block = self.block(index);
        match block.status() {
            SudokuBlockStatus::Fixed(_) => true,
            SudokuBlockStatus::Unresolved => {
                self.put(index, block.with_conflicting(None));
                self.retag_peers(index, Retag::Forget);
                true
            },
            SudokuBlockStatus::Resolved(number) => {
                let found = self.holders(index, number).len() > 0;
                if found {
                    self.put(index, block.with_conflicting(Some(Conflicting::Source)));
                    self.retag_peers(index, Retag::Blame(number));
                } else {
                    self.put(index, block.with_conflicting(None));
                    self.retag_peers(index, Retag::ForgetResolved);
                }
                !found
            },
            SudokuBlockStatus::Possibilities(mut possibilities) => {
                match candidate_change {
                    None => true,
                    Some((number, was_cleared)) => {
                        let found = !was_cleared && self.holders(index, number).len() > 0;
                        if possibilities.count_numbers() == 1 {
                            self.retag_peers(index, Retag::ForgetResolved);
                        }
                        let ghost swept = self@;
                        proof {
                            assert(swept[*index] == old(self)@[*index]);
                        }
                        let block = self.block(index);
                        possibilities.set_conflicting(number, found);
                        self.put(
                            index,
                            block.with_status(SudokuBlockStatus::Possibilities(possibilities)),
                        );
                        proof {
                            assert(self@ =~= with_status(
                                swept,
                                *index,
                                SudokuBlockStatus::Possibilities(possibilities)@,
                            ));
                        }
                        if was_cleared {
                            self.retag_peers(index, Retag::ForgetPossibility(number));
                        } else if found {
                            self.retag_peers(index, Retag::BlamePossibility(number));
                        }
                        !found
                    },
                }
            },
        }
    }

    /// Works out the conflicts of every unresolved and every resolved block
    /// again, row by row, and says whether the board is free of conflicts.
    pub fn mark_all_conflicts(&mut self) -> (clean: bool)
        requires
            old(self).wf(),
        ensures
            final(self).wf(),
            final(self)@ == marked_all(old(self)@),
            final(self)@ == settled(old(self)@),
            clean == conflict_free(old(self)@),
    {
        proof {
            law_marked_all_settled(old(self)@);
        }
        let mut clean = true;
        let mut position: usize = 0;
        while position < 81
            invariant
                position <= 81,
                self.wf(),
                old(self).wf(),
                self@ == marked_upto(old(self)@, position as int),
                forall|index: BlockIndex|
                    (#[trigger] self@[index]).status.placed() == old(self)@[index].status.placed(),
                forall|index: BlockIndex|
                    !(old(self)@[index].status is Possibilities) ==> (#[trigger] self@[index]).status
                        == old(self)@[index].status,
                forall|index: BlockIndex|
                    (#[trigger] self@[index]).status is Possibilities == old(
                        self,
                    )@[index].status is Possibilities,
                forall|index: BlockIndex, number: SudokuNumber|
                    held_by_peer(self@, index, number) == held_by_peer(old(self)@, index, number),
                clean <==> forall|index: BlockIndex|
                    index.position() < position ==> ((#[trigger] old(
                        self,
                    )@[index]).status matches StatusView::Resolved(number) ==> !held_by_peer(
                        old(self)@,
                        index,
                        number,
                    )),
            decreases 81 - position,
        {
            let index = BlockIndex::nth(position);
            let ghost before = self@;
            let ghost was_clean = clean;
            let status = self.block(&index).status();
            proof {
                lemma_marked_keeps(before, index, None);
                crate::board::lemma_at(position as int);
            }
            if status.is_resolved() || status.is_unresolved() {
                let found_none = self.mark_conflicts(&index, None);
                clean = clean && found_none;
            }
            proof {
                assert(self@ == marked_upto(old(self)@, position + 1));
                assert forall|other: BlockIndex|
                    !(old(self)@[other].status is Possibilities) implies (
                #[trigger] self@[other]).status == old(self)@[other].status by {
                    assert(before[other].status == old(self)@[other].status);
                }
                assert forall|other: BlockIndex|
                    (#[trigger] self@[other]).status is Possibilities == old(
                        self,
                    )@[other].status is Possibilities by {
                    assert(before[other].status is Possibilities == old(
                        self,
                    )@[other].status is Possibilities);
                }
                let goal = forall|other: BlockIndex|
                    other.position() < position + 1 ==> ((#[trigger] old(
                        self,
                    )@[other]).status matches StatusView::Resolved(number) ==> !held_by_peer(
                        old(self)@,
                        other,
                        number,
                    ));
                if clean {
                    assert forall|other: BlockIndex|
                        other.position() < position + 1 implies ((#[trigger] old(
                        self,
                    )@[other]).status matches StatusView::Resolved(number) ==> !held_by_peer(
                        old(self)@,
                        other,
                        number,
                    )) by {
                        crate::board::lemma_position(other);
                        if other.position() == position {
                            assert(other == index);
                        }
                    }
                } else if was_clean {
                    assert(before[index].status == old(self)@[index].status);
                    assert(!goal);
                } else {
                    assert(!goal);
                }
            }
            position += 1;
        }
        proof {
            assert forall|index: BlockIndex| index.position() < 81 by {
                crate::board::lemma_position(index);
            }
        }
        clean
    }

    /// The last block, read row by row, that is a peer of `holder` and lists
    /// `number` as possible.
    fn last_lister(&self, holder: &BlockIndex, number: SudokuNumber) -> (lister: Option<BlockIndex>)
        ensures
            lister == lister_upto(self@, *holder, number, 81),
    {
        let mut lister: Option<BlockIndex> = None;
        let square = holder.square_number();
        let mut position: usize = 0;
        while position < 81
            invariant
                position <= 81,
                square == holder.spec_square_number(),
                lister == lister_upto(self@, *holder, number, position as int),
            decreases 81 - position,
        {
            let index = BlockIndex::nth(position);
            if index != *holder && (index.row == holder.row || index.col == holder.col
                || index.square_number() == square) {
                if let SudokuBlockStatus::Possibilities(possibilities) = self.block(&index).status() {
                    if possibilities.has_number(number) {
                        lister = Some(index);
                    }
                }
            }
            position += 1;
        }
        lister
    }

    /// Works out the conflicts of all possibilities: in every block with
    /// possibilities exactly the numbers that a peer holds conflict; every
    /// resolved block whose number a peer lists is tagged with the last such
    /// peer, and no other block keeps a tag of that kind.
    pub fn mark_possibilities_conflicts(&mut self)
        requires
            old(self).wf(),
        ensures
            final(self).wf(),
            final(self)@ == possibilities_marked(old(self)@),
    {
        let mut position: usize = 0;
        while position < 81
            invariant
                position <= 81,
                self.wf(),
                old(self).wf(),
                forall|index: BlockIndex| #[trigger]
                    self@[index] == if index.position() < position {
                        possibilities_marked(old(self)@)[index]
                    } else {
                        old(self)@[index]
                    },
            decreases 81 - position,
        {
            let index = BlockIndex::nth(position);
            let ghost before = self@;
            let block = self.block(&index);
            proof {
                assert forall|other: BlockIndex|
                    (#[trigger] before[other]).status.placed() == old(self)@[other].status.placed()
                        && before[other].status.possible()
                        == old(self)@[other].status.possible() by {}
                assert forall|other: BlockIndex, number: SudokuNumber|
                    held_by_peer(before, other, number) == held_by_peer(
                        old(self)@,
                        other,
                        number,
                    ) by {
                    if held_by_peer(before, other, number) {
                        let peer = choose|peer: BlockIndex|
                            other.is_peer(peer) && #[trigger] holds(before, peer, number);
                        assert(holds(old(self)@, peer, number));
                    }
                    if held_by_peer(old(self)@, other, number) {
                        let peer = choose|peer: BlockIndex|
                            other.is_peer(peer) && #[trigger] holds(old(self)@, peer, number);
                        assert(holds(before, peer, number));
                    }
                }
            }
            let status = match block.status() {
                SudokuBlockStatus::Possibilities(mut possibilities) => {
                    let ghost listed = possibilities@;
                    let mut k: usize = 0;
                    while k < 9
                        invariant
                            k <= 9,
                            old(self).wf(),
                            possibilities@.numbers == listed.numbers,
                            possibilities@.markers == listed.markers,
                            listed.numbers == old(self)@[index].status.possible(),
                            forall|other: BlockIndex, number: SudokuNumber|
                                held_by_peer(self@, other, number) == held_by_peer(
                                    old(self)@,
                                    other,
                                    number,
                                ),
                            forall|number: SudokuNumber|
                                #![trigger possibilities@.conflicting.contains(number)]
                                possibilities@.conflicting.contains(number) == if number.value() - 1
                                    < k {
                                    conflicts_of(old(self)@, index).contains(number)
                                } else {
                                    listed.conflicting.contains(number)
                                },
                        decreases 9 - k,
                    {
                        let number = SudokuNumber::at(k);
                        let ghost held = possibilities@;
                        let found = self.holders(&index, number).len() > 0;
                        proof {
                            possibilities.lemma_wf();
                        }
                        possibilities.set_conflicting(number, found);
                        proof {
                            assert forall|other: SudokuNumber|
                                #![trigger possibilities@.conflicting.contains(other)]
                                possibilities@.conflicting.contains(other) == if other.value() - 1
                                    < k + 1 {
                                    conflicts_of(old(self)@, index).contains(other)
                                } else {
                                    listed.conflicting.contains(other)
                                } by {
                                crate::numbers::lemma_number_value(other);
                                assert(held.conflicting.contains(other) == if other.value() - 1
                                    < k {
                                    conflicts_of(old(self)@, index).contains(other)
                                } else {
                                    listed.conflicting.contains(other)
                                });
                                if other.value() - 1 == k {
                                    assert(other == number);
                                }
                            }
                        }
                        k += 1;
                    }
                    proof {
                        assert(possibilities@.conflicting =~= conflicts_of(old(self)@, index)) by {
                            assert forall|number: SudokuNumber|
                                possibilities@.conflicting.contains(number) == conflicts_of(
                                    old(self)@,
                                    index,
                                ).contains(number) by {
                                crate::numbers::lemma_number_value(number);
                            }
                        }
                    }
                    SudokuBlockStatus::Possibilities(possibilities)
                },
                status => status,
            };
            let current = block.conflicting();
            proof {
                if let StatusView::Resolved(number) = before[index].status {
                    lemma_lister(before, index, number, 81);
                }
            }
            let lister = match block.status() {
                SudokuBlockStatus::Resolved(number) => match self.last_lister(&index, number) {
                    Some(source) => Some(Conflicting::AffectedByPossibilities { source, number }),
                    None => None,
                },
                _ => None,
            };
            let conflicting = match lister {
                Some(tag) => Some(tag),
                None => match current {
                    Some(Conflicting::AffectedByPossibilities { .. }) => None,
                    _ => current,
                },
            };
            proof {
                assert forall|holder: BlockIndex, number: SudokuNumber|
                    lister_upto(before, holder, number, 81) == lister_upto(
                        old(self)@,
                        holder,
                        number,
                        81,
                    ) by {
                    lemma_lister_alike(before, old(self)@, holder, number, 81);
                }
            }
            self.put(&index, block.with_status(status).with_conflicting(conflicting));
            proof {
                assert forall|other: BlockIndex| #[trigger]
                    self@[other] == if other.position() < position + 1 {
                        possibilities_marked(old(self)@)[other]
                    } else {
                        old(self)@[other]
                    } by {
                    crate::board::lemma_position(other);
                    if other.position() == position {
                        assert(other == index);
                    }
                    assert(before[other] == if other.position() < position {
                        possibilities_marked(old(self)@)[other]
                    } else {
                        old(self)@[other]
                    });
                }
            }
            position += 1;
        }
        proof {
            assert forall|index: BlockIndex| #[trigger]
                self@[index] == possibilities_marked(old(self)@)[index] by {
                crate::board::lemma_position(index);
            }
            assert(self@ =~= possibilities_marked(old(self)@));
        }
    }

    /// The peers of a resolved block that hold its number, where there are
    /// any: `None` for a block that is not resolved or whose number no peer
    /// holds. No index is listed twice.
    pub fn find_block_mistakes(&self, index: &BlockIndex) -> (mistakes: Option<Vec<BlockIndex>>)
        ensures
            mistakes is Some <==> (self@[*index].status matches StatusView::Resolved(number)
                && held_by_peer(self@, *index, number)),
            mistakes matches Some(list) ==> list@.no_duplicates() && forall|other: BlockIndex| #[trigger]
                list@.contains(other) <==> index.is_peer(other) && holds(
                    self@,
                    other,
                    self@[*index].status->Resolved_0,
                ),
    {
        let block = self.block(index);
        if let SudokuBlockStatus::Resolved(resolved) = block.status() {
            let mistakes = self.holders(index, resolved);
            if mistakes.len() == 0 {
                return None;
            } else {
                return Some(mistakes);
            }
        }
        None
    }

    /// Whether the puzzle is solved: every block holds a number, and no
    /// resolved block holds the number of one of its peers.
    pub fn is_solved(&self) -> (done: bool)
        ensures
            done == solved(self@),
    {
        let mut position: usize = 0;
        while position < 81
            invariant
                position <= 81,
                forall|index: BlockIndex|
                    index.position() < position ==> (#[trigger] self@[index]).status.placed() is Some,
            decreases 81 - position,
        {
            let index = BlockIndex::nth(position);
            if self.block(&index).status().placed().is_none() {
                return false;
            }
            proof {
                assert forall|other: BlockIndex| other.position() < position + 1 implies (
                #[trigger] self@[other]).status.placed() is Some by {
                    crate::board::lemma_position(other);
                    if other.position() == position {
                        assert(other == index);
                    }
                }
            }
            position += 1;
        }
        proof {
            assert forall|index: BlockIndex| (#[trigger] self@[index]).status.placed() is Some by {
                crate::board::lemma_position(index);
            }
        }
        self.verify_board()
    }

    /// Whether no resolved block holds the number of one of its peers. The
    /// board stays as it is.
    pub fn verify_board(&self) -> (valid: bool)
        ensures
            valid == conflict_free(self@),
    {
        let mut position: usize = 0;
        while position < 81
            invariant
                position <= 81,
                forall|index: BlockIndex|
                    index.position() < position ==> ((#[trigger] self@[index]).status matches StatusView::Resolved(
                        number,
                    ) ==> !held_by_peer(self@, index, number)),
            decreases 81 - position,
        {
            let index = BlockIndex::nth(position);
            if let SudokuBlockStatus::Resolved(number) = self.block(&index).status() {
                if self.holders(&index, number).len() > 0 {
                    return false;
                }
            }
            proof {
                assert forall|other: BlockIndex|
                    other.position() < position + 1 implies ((#[trigger] self@[other]).status matches StatusView::Resolved(
                    number,
                ) ==> !held_by_peer(self@, other, number)) by {
                    crate::board::lemma_position(other);
                    if other.position() == position {
                        assert(other == index);
                    }
                }
            }
            position += 1;
        }
        proof {
            assert forall|index: BlockIndex| index.position() < 81 by {
                crate::board::lemma_position(index);
            }
        }
        true
    }
}

} // verus!
