use crate::block::{BlockView, StatusView, SudokuBlockStatus};
use crate::board::{lemma_position, BoardView, SudokuBoard};
use crate::candidates::recomputed;
use crate::edits::unmarked;
use crate::index::BlockIndex;
use crate::numbers::SudokuNumber;
use vstd::prelude::*;

pub mod hidden_single;
pub mod naked_pair;
pub mod naked_single;

verus! {

/// The deduction rules that the board can be asked to apply.
#[derive(Clone, Copy, Debug, PartialEq, Eq, Structural, Hash)]
pub enum Strategy {
    HiddenSingle,
    NakedPair,
    NakedSingle,
}

/// The part that a marked possibility plays in a rule: `Source` where the
/// rule was found, `Effected` where it takes a possibility away.
#[derive(Clone, Copy, Debug, PartialEq, Eq, Structural, Hash)]
pub enum StrategyEffect {
    Source,
    Effected,
}

/// A mark on one possibility of a block, left by a rule that was shown and
/// not yet applied.
#[derive(Clone, Copy, Debug, PartialEq, Eq, Structural, Hash)]
pub struct StrategyMarker {
    pub strategy: Strategy,
    pub effect: StrategyEffect,
}

impl StrategyMarker {
    /// The mark of a block in which `strategy` found its rule.
    pub fn source(strategy: Strategy) -> (marker: Self)
        ensures
            marker == (StrategyMarker { strategy, effect: StrategyEffect::Source }),
    {
        StrategyMarker { strategy, effect: StrategyEffect::Source }
    }

    /// The mark of a block from which `strategy` takes a possibility.
    pub fn effected(strategy: Strategy) -> (marker: Self)
        ensures
            marker == (StrategyMarker { strategy, effect: StrategyEffect::Effected }),
    {
        StrategyMarker { strategy, effect: StrategyEffect::Effected }
    }
}

/// A deduction rule that narrows what the blocks of a board list as
/// possible. It can be shown, which only marks the possibilities that the
/// rule rests on and those that it would take away, or applied.
pub trait SudokuSolvingStrategy {
    /// The rule that this strategy applies.
    spec fn rule(&self) -> Strategy;

    /// The board after the rule was shown (`show_only_effect`) or applied.
    spec fn applied(&self, board: BoardView, show_only_effect: bool) -> BoardView;

    fn strategy(&self) -> (strategy: Strategy)
        ensures
            strategy == self.rule(),
    ;

    fn update_possible_numbers(&self, board: &mut SudokuBoard, show_only_effect: bool)
        requires
            old(board).wf(),
        ensures
            final(board).wf(),
            final(board)@ == self.applied(old(board)@, show_only_effect),
    ;
}

/// Whether a block carries a mark of `strategy`.
pub open spec fn block_shows(block: BlockView, strategy: Strategy) -> bool {
    block.status matches StatusView::Possibilities(possibilities) && exists|number: SudokuNumber|
        (#[trigger] possibilities.marker(number)) matches Some(marker) && marker.strategy
            == strategy
}

/// Whether the board carries a mark of `strategy`: the strategy was shown
/// and is yet to be applied.
pub open spec fn shows_strategy(board: BoardView, strategy: Strategy) -> bool {
    exists|index: BlockIndex| block_shows(#[trigger] board[index], strategy)
}

/// The board after a strategy was engaged. Where the board carries no mark
/// of the strategy, the possible numbers of all empty blocks are worked out
/// afresh, which takes away the marks of any other strategy, and the
/// strategy is shown. Where it carries one, the strategy is applied and all
/// marks are taken away.
pub open spec fn engaged<S: SudokuSolvingStrategy>(board: BoardView, strategy: S) -> BoardView {
    if shows_strategy(board, strategy.rule()) {
        unmarked(strategy.applied(board, false))
    } else {
        strategy.applied(recomputed(board), true)
    }
}

/// No mark is left on a board from which the marks were taken.
pub proof fn law_unmarked_shows_nothing(board: BoardView, strategy: Strategy)
    ensures
        !shows_strategy(unmarked(board), strategy),
{
    assert forall|index: BlockIndex| !block_shows(
        #[trigger] unmarked(board)[index],
        strategy,
    ) by {}
}

/// No mark is left on a board whose possible numbers were worked out
/// afresh.
pub proof fn law_recomputed_shows_nothing(board: BoardView, strategy: Strategy)
    ensures
        !shows_strategy(recomputed(board), strategy),
{
    assert forall|index: BlockIndex| !block_shows(
        #[trigger] recomputed(board)[index],
        strategy,
    ) by {}
}

/// Engaging a strategy that the board shows leaves no mark of any strategy:
/// the next engagement of it shows it again.
pub proof fn law_engaged_twice_unmarks<S: SudokuSolvingStrategy>(
    board: BoardView,
    strategy: S,
    other: Strategy,
)
    requires
        shows_strategy(board, strategy.rule()),
    ensures
        !shows_strategy(engaged(board, strategy), other),
{
    law_unmarked_shows_nothing(strategy.applied(board, false), other);
}

impl SudokuBoard {
    /// Whether the board carries a mark of `strategy`.
    pub fn shows_strategy(&self, strategy: Strategy) -> (shown: bool)
        ensures
            shown == shows_strategy(self@, strategy),
    {
        let mut position: usize = 0;
        while position < 81
            invariant
                position <= 81,
                forall|index: BlockIndex|
                    index.position() < position ==> !block_shows(#[trigger] self@[index], strategy),
            decreases 81 - position,
        {
            let index = BlockIndex::nth(position);
            if let SudokuBlockStatus::Possibilities(possibilities) = self.block(&index).status() {
                let mut k: usize = 0;
                while k < 9
                    invariant
                        k <= 9,
                        self@[index].status == StatusView::Possibilities(possibilities@),
                        forall|number: SudokuNumber|
                            number.value() - 1 < k ==> !((
                            #[trigger] possibilities@.marker(number)) matches Some(marker)
                                && marker.strategy == strategy),
                    decreases 9 - k,
                {
                    let number = SudokuNumber::at(k);
                    if let Some(marker) = possibilities.strategy_marker(number) {
                        if marker.strategy == strategy {
                            proof {
                                assert(block_shows(self@[index], strategy));
                            }
                            return true;
                        }
                    }
                    proof {
                        assert forall|other: SudokuNumber| other.value() - 1 < k + 1 implies !((
                        #[trigger] possibilities@.marker(other)) matches Some(marker)
                            && marker.strategy == strategy) by {
                            crate::numbers::lemma_number_value(other);
                        }
                    }
                    k += 1;
                }
                proof {
                    assert forall|number: SudokuNumber|
                        !((#[trigger] possibilities@.marker(number)) matches Some(marker)
                            && marker.strategy == strategy) by {
                        crate::numbers::lemma_number_value(number);
                    }
                }
            }
            proof {
                assert forall|other: BlockIndex| other.position() < position + 1 implies !block_shows(
                    #[trigger] self@[other],
                    strategy,
                ) by {
                    lemma_position(other);
                    if other.position() == position {
                        assert(other == index);
                    }
                }
            }
            position += 1;
        }
        proof {
            assert forall|index: BlockIndex| !block_shows(#[trigger] self@[index], strategy) by {
                lemma_position(index);
            }
        }
        false
    }

    /// Engages a strategy: shows it where the board does not show it yet,
    /// and applies it where it does. See `engaged`.
    pub fn engage_strategy<S>(&mut self, strategy: S) where S: SudokuSolvingStrategy
        requires
            old(self).wf(),
        ensures
            final(self).wf(),
            final(self)@ == engaged(old(self)@, strategy),
    {
        if self.shows_strategy(strategy.strategy()) {
            strategy.update_possible_numbers(self, false);
            self.clear_strategy_markers();
        } else {
            self.update_possibilities();
            strategy.update_possible_numbers(self, true);
        }
    }
}

} // verus!
