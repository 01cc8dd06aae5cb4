use crate::block::Conflicting;
use crate::board::{BoardView, SudokuBoard};
use crate::candidates::{cleared, recomputed, satisfied};
use crate::conflicts::{clean_after, marked};
use crate::index::BlockIndex;
use crate::moves::{clear_change, moved, resolve_change, toggle_change, BlockChange};
use crate::numbers::SudokuNumber;
use crate::strategies::hidden_single::HiddenSingleStrategy;
use crate::strategies::naked_pair::NakedPairStrategy;
use crate::strategies::naked_single::NakedSingleStrategy;
use crate::strategies::{engaged, Strategy};
use vstd::prelude::*;

verus! {

/// Where the selection moves.
#[derive(Clone, Copy, Debug, PartialEq, Eq, Structural)]
pub enum Direction {
    Up,
    Down,
    Left,
    Right,
}

/// What a number entered on the selected block does: resolve the block, or
/// toggle one of its possible numbers.
#[derive(Clone, Copy, Debug, PartialEq, Eq, Structural)]
pub enum SelectionMode {
    Resolving,
    Possibilities,
}

impl Default for SelectionMode {
    fn default() -> (mode: Self)
        ensures
            mode == SelectionMode::Resolving,
    {
        SelectionMode::Resolving
    }
}

impl SelectionMode {
    /// The other mode.
    pub open spec fn spec_toggled(self) -> SelectionMode {
        match self {
            SelectionMode::Resolving => SelectionMode::Possibilities,
            SelectionMode::Possibilities => SelectionMode::Resolving,
        }
    }

    #[verifier::when_used_as_spec(spec_toggled)]
    pub fn toggled(self) -> (mode: SelectionMode)
        ensures
            mode == self.spec_toggled(),
    {
        match self {
            SelectionMode::Resolving => SelectionMode::Possibilities,
            SelectionMode::Possibilities => SelectionMode::Resolving,
        }
    }
}

/// The block that moves are made on: `current` holds its zero-based column
/// and row, in this order.
#[derive(Clone, Copy, Debug, PartialEq, Eq)]
pub struct SelectedBlock {
    pub mode: SelectionMode,
    pub current: (usize, usize),
}

impl Default for SelectedBlock {
    /// The top left block, in resolving mode.
    fn default() -> (selected: Self)
        ensures
            selected == (SelectedBlock { mode: SelectionMode::Resolving, current: (0, 0) }),
    {
        SelectedBlock { mode: SelectionMode::Resolving, current: (0, 0) }
    }
}

/// One step back on a line of nine places that closes on itself.
pub open spec fn step_back(place: usize) -> usize {
    if 0 < place <= 8 {
        (place - 1) as usize
    } else {
        8
    }
}

/// One step forward on a line of nine places that closes on itself.
pub open spec fn step_forward(place: usize) -> usize {
    if place < 8 {
        (place + 1) as usize
    } else {
        0
    }
}

impl SelectedBlock {
    /// Whether the selection lies on the board.
    pub open spec fn wf(self) -> bool {
        self.current.0 < 9 && self.current.1 < 9
    }

    /// The index of the selected block.
    pub open spec fn spec_index(&self) -> BlockIndex {
        BlockIndex {
            row: SudokuNumber::of(self.current.1 + 1),
            col: SudokuNumber::of(self.current.0 + 1),
        }
    }

    /// The index of the selected block, where the selection lies on the
    /// board.
    pub fn index(&self) -> (index: Option<BlockIndex>)
        ensures
            index == if self.wf() {
                Some(self.spec_index())
            } else {
                None
            },
    {
        match BlockIndex::from_index(self.current.1, self.current.0) {
            Ok(index) => Some(index),
            Err(_) => None,
        }
    }

    /// The selection one block further in `direction`. Past an edge it comes
    /// back in at the opposite edge.
    pub open spec fn spec_moved(self, direction: Direction) -> SelectedBlock {
        match direction {
            Direction::Left => SelectedBlock {
                current: (step_back(self.current.0), self.current.1),
                ..self
            },
            Direction::Right => SelectedBlock {
                current: (step_forward(self.current.0), self.current.1),
                ..self
            },
            Direction::Down => SelectedBlock {
                current: (self.current.0, step_forward(self.current.1)),
                ..self
            },
            Direction::Up => SelectedBlock {
                current: (self.current.0, step_back(self.current.1)),
                ..self
            },
        }
    }

    #[verifier::when_used_as_spec(spec_moved)]
    pub fn moved(self, direction: Direction) -> (selected: SelectedBlock)
        ensures
            selected == self.spec_moved(direction),
            self.wf() ==> selected.wf(),
    {
        let (column, row) = self.current;
        let current = match direction {
            Direction::Left => (
                if 0 < column && column <= 8 {
                    column - 1
                } else {
                    8
                },
                row,
            ),
            Direction::Right => (
                if column < 8 {
                    column + 1
                } else {
                    0
                },
                row,
            ),
            Direction::Down => (
                column,
                if row < 8 {
                    row + 1
                } else {
                    0
                },
            ),
            Direction::Up => (
                column,
                if 0 < row && row <= 8 {
                    row - 1
                } else {
                    8
                },
            ),
        };
        SelectedBlock { mode: self.mode, current }
    }
}

/// What the player can ask for.
#[derive(Clone, Copy, Debug, PartialEq, Eq, Structural)]
pub enum CommandType {
    Number(SudokuNumber),
    CalculatePossibilities,
    ResolveNakedSingles,
    Reset,
    ChangeSelectionMode,
    ClearBlock,
    Direction(Direction),
    Strategy(Strategy),
}

/// The move that a number entered in `mode` makes on the block at `index`.
pub open spec fn entry_change(
    board: BoardView,
    index: BlockIndex,
    mode: SelectionMode,
    number: SudokuNumber,
) -> BlockChange {
    match mode {
        SelectionMode::Resolving => resolve_change(board, index, number),
        SelectionMode::Possibilities => toggle_change(board, index, number),
    }
}

/// The board after the conflicts of the block that `tag` names were worked
/// out again: those of its resolved number where the tag is `AffectedBy`,
/// those of the possible number that the tag names where it is
/// `AffectedByPossibilities`. Without such a tag the board stays as it is.
pub open spec fn refreshed(board: BoardView, tag: Option<Conflicting>) -> BoardView {
    match tag {
        Some(Conflicting::AffectedBy(source)) => marked(board, source, None),
        Some(Conflicting::AffectedByPossibilities { source, number }) => marked(
            board,
            source,
            Some((number, false)),
        ),
        _ => board,
    }
}

/// The board after a move that did `change` to the block at `index`: the
/// conflicts of that block are worked out, and then those of the block that
/// its tag named before the move, so that no tag of a conflict that the move
/// ended is left on that block. A move that was refused leaves the board as
/// it is.
pub open spec fn played(board: BoardView, index: BlockIndex, change: BlockChange) -> BoardView {
    match change {
        BlockChange::Refused => board,
        _ => refreshed(
            marked(moved(board, index, change), index, change.spec_candidate_change()),
            board[index].conflicting,
        ),
    }
}

/// Whether a move that did `change` to the block at `index` is a mistake:
/// the block was resolved to a number, or got a possible number, that one of
/// its peers holds.
pub open spec fn is_mistake(board: BoardView, index: BlockIndex, change: BlockChange) -> bool {
    match change {
        BlockChange::Refused => false,
        _ => !clean_after(moved(board, index, change), index, change.spec_candidate_change()),
    }
}

/// The board after `strategy` was engaged.
pub open spec fn engaged_rule(board: BoardView, strategy: Strategy) -> BoardView {
    match strategy {
        Strategy::HiddenSingle => engaged(board, HiddenSingleStrategy),
        Strategy::NakedPair => engaged(board, NakedPairStrategy),
        Strategy::NakedSingle => engaged(board, NakedSingleStrategy),
    }
}

/// The board after a command.
pub open spec fn board_after(
    board: BoardView,
    selected: SelectedBlock,
    command: CommandType,
) -> BoardView {
    match command {
        CommandType::Number(number) => played(
            board,
            selected.spec_index(),
            entry_change(board, selected.spec_index(), selected.mode, number),
        ),
        CommandType::ClearBlock => played(
            board,
            selected.spec_index(),
            clear_change(board, selected.spec_index()),
        ),
        CommandType::CalculatePossibilities => recomputed(board),
        CommandType::ResolveNakedSingles => satisfied(board),
        CommandType::Reset => cleared(board),
        CommandType::Strategy(strategy) => engaged_rule(board, strategy),
        CommandType::ChangeSelectionMode => board,
        CommandType::Direction(_) => board,
    }
}

/// The selection after a command.
pub open spec fn selection_after(selected: SelectedBlock, command: CommandType) -> SelectedBlock {
    match command {
        CommandType::ChangeSelectionMode => SelectedBlock {
            mode: selected.mode.spec_toggled(),
            ..selected
        },
        CommandType::Direction(direction) => selected.spec_moved(direction),
        _ => selected,
    }
}

/// Whether a command makes a mistake: it enters a number on the selected
/// block that one of the block's peers holds.
pub open spec fn command_is_mistake(
    board: BoardView,
    selected: SelectedBlock,
    command: CommandType,
) -> bool {
    match command {
        CommandType::Number(number) => is_mistake(
            board,
            selected.spec_index(),
            entry_change(board, selected.spec_index(), selected.mode, number),
        ),
        _ => false,
    }
}

/// No command changes a given block: what the puzzle gave stays as it is,
/// whatever the player asks for.
pub proof fn law_commands_keep_givens(
    board: BoardView,
    selected: SelectedBlock,
    command: CommandType,
    given: BlockIndex,
)
    requires
        crate::board::board_wf(board),
        board[given].status is Fixed,
    ensures
        board_after(board, selected, command)[given] == board[given],
{
    let index = selected.spec_index();
    match command {
        CommandType::Number(number) => {
            let change = entry_change(board, index, selected.mode, number);
            lemma_move_keeps(board, index, change, given);
        },
        CommandType::ClearBlock => {
            lemma_move_keeps(board, index, clear_change(board, index), given);
        },
        CommandType::Strategy(strategy) => {
            crate::candidates::law_givens_stay(board, given);
            let fresh = recomputed(board);
            assert(crate::board::board_wf(fresh)) by {
                assert forall|other: BlockIndex|
                    crate::board::tag_fits(#[trigger] fresh[other], other) by {
                    assert(crate::board::tag_fits(board[other], other));
                }
                assert forall|other: BlockIndex|
                    (#[trigger] fresh[other]).status matches crate::block::StatusView::Possibilities(
                        possibilities,
                    ) ==> possibilities.wf() && possibilities.numbers.finite() by {
                    crate::numbers::lemma_set_finite(
                        crate::candidates::possible_numbers(board, other),
                    );
                }
            }
            crate::strategies::hidden_single::law_hidden_singles_keep(board, 81, false);
            crate::strategies::hidden_single::law_hidden_singles_keep(fresh, 81, true);
        },
        _ => {
            crate::candidates::law_givens_stay(board, given);
        },
    }
}

/// A move that the block at `index` allows, followed by working out its
/// conflicts, leaves every given block as it is.
proof fn lemma_move_keeps(board: BoardView, index: BlockIndex, change: BlockChange, given: BlockIndex)
    requires
        crate::board::board_wf(board),
        board[given].status is Fixed,
        board[index].status is Fixed ==> change is Refused,
        change matches BlockChange::Possibility { number, cleared } ==> (
        board[index].status matches crate::block::StatusView::Possibilities(listed)
            ==> listed.numbers.contains(number) == cleared),
    ensures
        played(board, index, change)[given] == board[given],
{
    match change {
        BlockChange::Refused => {},
        _ => {
            let after = moved(board, index, change);
            assert(after[given] == board[given]);
            assert(crate::board::board_wf(after)) by {
                assert forall|other: BlockIndex|
                    crate::board::tag_fits(#[trigger] after[other], other) by {
                    assert(crate::board::tag_fits(board[other], other));
                }
                assert forall|other: BlockIndex|
                    (#[trigger] after[other]).status matches crate::block::StatusView::Possibilities(
                        possibilities,
                    ) ==> possibilities.wf() && possibilities.numbers.finite() by {
                    if other != index {
                        assert(after[other] == board[other]);
                    }
                }
            }
            crate::conflicts::law_marking_keeps_givens(
                after,
                index,
                change.spec_candidate_change(),
                given,
            );
            let settled = marked(after, index, change.spec_candidate_change());
            crate::conflicts::lemma_marked_keeps(after, index, change.spec_candidate_change());
            match board[index].conflicting {
                Some(Conflicting::AffectedBy(source)) => {
                    crate::conflicts::law_marking_keeps_givens(settled, source, None, given);
                },
                Some(Conflicting::AffectedByPossibilities { source, number }) => {
                    crate::conflicts::law_marking_keeps_givens(
                        settled,
                        source,
                        Some((number, false)),
                        given,
                    );
                },
                _ => {},
            }
        },
    }
}

/// Works out the conflicts of the block that `tag` names again.
fn refresh(board: &mut SudokuBoard, tag: Option<Conflicting>)
    requires
        old(board).wf(),
    ensures
        final(board).wf(),
        final(board)@ == refreshed(old(board)@, tag),
{
    match tag {
        Some(Conflicting::AffectedBy(source)) => {
            board.mark_conflicts(&source, None);
        },
        Some(Conflicting::AffectedByPossibilities { source, number }) => {
            board.mark_conflicts(&source, Some((number, false)));
        },
        _ => {},
    }
}

/// A puzzle being solved: the board and the block that moves are made on.
#[derive(Clone, Debug)]
pub struct SudokuGame {
    board: SudokuBoard,
    selected: SelectedBlock,
}

impl SudokuGame {
    /// What the board of the game stands for.
    pub closed spec fn board_view(&self) -> BoardView {
        self.board@
    }

    /// The selection of the game.
    pub closed spec fn selection(&self) -> SelectedBlock {
        self.selected
    }

    /// Whether the board is well formed and the selection lies on it.
    pub closed spec fn wf(&self) -> bool {
        self.board.wf() && self.selected.wf()
    }

    /// A game on `board`, with the top left block selected.
    pub fn new(board: SudokuBoard) -> (game: Self)
        requires
            board.wf(),
        ensures
            game.wf(),
            game.board_view() == board@,
            game.selection() == (SelectedBlock { mode: SelectionMode::Resolving, current: (0, 0) }),
    {
        SudokuGame { board, selected: SelectedBlock::default() }
    }

    pub fn board(&self) -> (board: &SudokuBoard)
        ensures
            board@ == self.board_view(),
            self.wf() ==> board.wf(),
    {
        &self.board
    }

    pub fn selected(&self) -> (selected: SelectedBlock)
        ensures
            selected == self.selection(),
            self.wf() ==> selected.wf(),
    {
        self.selected
    }

    /// Selects the block at zero-based `column` and `row`, where there is
    /// one, and says whether there is.
    pub fn select(&mut self, column: usize, row: usize) -> (done: bool)
        requires
            old(self).wf(),
        ensures
            final(self).wf(),
            final(self).board_view() == old(self).board_view(),
            done == (column < 9 && row < 9),
            final(self).selection() == if done {
                SelectedBlock { mode: old(self).selection().mode, current: (column, row) }
            } else {
                old(self).selection()
            },
    {
        if column < 9 && row < 9 {
            self.selected.current = (column, row);
            true
        } else {
            false
        }
    }

    /// Carries out a command and says whether it made a mistake.
    pub fn handle(&mut self, command: CommandType) -> (mistake: bool)
        requires
            old(self).wf(),
        ensures
            final(self).wf(),
            final(self).board_view() == board_after(
                old(self).board_view(),
                old(self).selection(),
                command,
            ),
            final(self).selection() == selection_after(old(self).selection(), command),
            mistake == command_is_mistake(old(self).board_view(), old(self).selection(), command),
    {
        let index = BlockIndex::new(
            SudokuNumber::at(self.selected.current.1),
            SudokuNumber::at(self.selected.current.0),
        );
        match command {
            CommandType::Number(number) => {
                let tag = self.board.get_block(&index).conflicting();
                let change = match self.selected.mode {
                    SelectionMode::Resolving => self.board.set_resolved(&index, number),
                    SelectionMode::Possibilities => self.board.toggle_possibility(&index, number),
                };
                match change {
                    BlockChange::Refused => false,
                    _ => {
                        let clean = self.board.mark_conflicts(&index, change.candidate_change());
                        refresh(&mut self.board, tag);
                        !clean
                    },
                }
            },
            CommandType::ClearBlock => {
                let tag = self.board.get_block(&index).conflicting();
                let change = self.board.clear_block(&index);
                match change {
                    BlockChange::Refused => {},
                    _ => {
                        self.board.mark_conflicts(&index, None);
                        refresh(&mut self.board, tag);
                    },
                }
                false
            },
            CommandType::CalculatePossibilities => {
                self.board.update_possibilities();
                false
            },
            CommandType::ResolveNakedSingles => {
                self.board.resolve_satisfied_blocks();
                false
            },
            CommandType::Reset => {
                self.board.reset();
                false
            },
            CommandType::Strategy(strategy) => {
                match strategy {
                    Strategy::HiddenSingle => self.board.engage_strategy(HiddenSingleStrategy),
                    Strategy::NakedPair => self.board.engage_strategy(NakedPairStrategy),
                    Strategy::NakedSingle => self.board.engage_strategy(NakedSingleStrategy),
                }
                false
            },
            CommandType::ChangeSelectionMode => {
                self.selected.mode = self.selected.mode.toggled();
                false
            },
            CommandType::Direction(direction) => {
                self.selected = self.selected.moved(direction);
                false
            },
        }
    }
}

} // verus!
