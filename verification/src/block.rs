use crate::index::BlockIndex;
use crate::numbers::{SudokuNumber, SudokuNumbers};
use crate::strategies::{StrategyEffect, StrategyMarker};
use vstd::prelude::*;
use vstd::std_specs::cmp::PartialEqSpecImpl;

verus! {

/// Why a block is shown as breaking the rules.
#[derive(Clone, Copy, Debug, PartialEq, Eq, Structural)]
pub enum Conflicting {
    /// The block holds the number that the resolved block at the index holds.
    AffectedBy(BlockIndex),
    /// The block holds `number`, which the block at `source` lists among its
    /// possibilities.
    AffectedByPossibilities { source: BlockIndex, number: SudokuNumber },
    /// The block was resolved to a number that one of its peers holds.
    Source,
}

impl Conflicting {
    /// The block that the tag points at as its cause; `Source` points at
    /// none.
    pub open spec fn cause(self) -> Option<BlockIndex> {
        match self {
            Conflicting::AffectedBy(named) => Some(named),
            Conflicting::AffectedByPossibilities { source: named, .. } => Some(named),
            Conflicting::Source => None,
        }
    }

    /// Whether the tag points at `source` as the block that caused it.
    pub open spec fn names(self, source: BlockIndex) -> bool {
        match self {
            Conflicting::AffectedBy(named) => named == source,
            Conflicting::AffectedByPossibilities { source: named, .. } => named == source,
            Conflicting::Source => false,
        }
    }
}

/// What a `Possibilities` stands for: the numbers the block may still hold,
/// those among them that a peer holds already, and the marks of a rule.
pub struct PossibilitiesView {
    pub numbers: Set<SudokuNumber>,
    pub conflicting: Set<SudokuNumber>,
    pub markers: Map<SudokuNumber, StrategyMarker>,
}

impl PossibilitiesView {
    /// The given numbers, none of them conflicting or marked.
    pub open spec fn fresh(numbers: Set<SudokuNumber>) -> Self {
        PossibilitiesView { numbers, conflicting: Set::empty(), markers: Map::empty() }
    }

    /// Only possible numbers conflict or carry a mark.
    pub open spec fn wf(self) -> bool {
        &&& self.conflicting.subset_of(self.numbers)
        &&& self.markers.dom().subset_of(self.numbers)
    }

    /// The marker of `number`, where it has one.
    pub open spec fn marker(self, number: SudokuNumber) -> Option<StrategyMarker> {
        if self.markers.dom().contains(number) {
            Some(self.markers[number])
        } else {
            None
        }
    }

    /// `number` becomes possible. Nothing changes where it is already.
    pub open spec fn with_number(self, number: SudokuNumber) -> Self {
        PossibilitiesView { numbers: self.numbers.insert(number), ..self }
    }

    /// `number` is possible no longer, and so neither conflicts nor carries
    /// a mark.
    pub open spec fn without_number(self, number: SudokuNumber) -> Self {
        PossibilitiesView {
            numbers: self.numbers.remove(number),
            conflicting: self.conflicting.remove(number),
            markers: self.markers.remove(number),
        }
    }

    /// Every number of `numbers` is possible no longer.
    pub open spec fn without_numbers(self, numbers: Set<SudokuNumber>) -> Self {
        PossibilitiesView {
            numbers: self.numbers.difference(numbers),
            conflicting: self.conflicting.difference(numbers),
            markers: self.markers.remove_keys(numbers),
        }
    }

    /// Only `number` stays possible, if it was.
    pub open spec fn only(self, number: SudokuNumber) -> Self {
        PossibilitiesView {
            numbers: self.numbers.intersect(set![number]),
            conflicting: self.conflicting.intersect(set![number]),
            markers: self.markers.restrict(set![number]),
        }
    }

    /// `number` conflicts, if it is possible.
    pub open spec fn with_conflict(self, number: SudokuNumber) -> Self {
        if self.numbers.contains(number) {
            PossibilitiesView { conflicting: self.conflicting.insert(number), ..self }
        } else {
            self
        }
    }

    /// `number` does not conflict.
    pub open spec fn without_conflict(self, number: SudokuNumber) -> Self {
        PossibilitiesView { conflicting: self.conflicting.remove(number), ..self }
    }

    /// `number` carries `marker`, if it is possible.
    pub open spec fn with_marker(self, number: SudokuNumber, marker: StrategyMarker) -> Self {
        if self.numbers.contains(number) {
            PossibilitiesView { markers: self.markers.insert(number, marker), ..self }
        } else {
            self
        }
    }

    /// `number` carries no mark.
    pub open spec fn without_marker(self, number: SudokuNumber) -> Self {
        PossibilitiesView { markers: self.markers.remove(number), ..self }
    }

    /// No number carries a mark.
    pub open spec fn without_markers(self) -> Self {
        PossibilitiesView { markers: Map::empty(), ..self }
    }

    /// No number of `numbers` carries a mark.
    pub open spec fn without_marks(self, numbers: Set<SudokuNumber>) -> Self {
        PossibilitiesView { markers: self.markers.remove_keys(numbers), ..self }
    }

    /// Whether `marker` may take the place of what `number` carries: always,
    /// but that the `Source` mark of a strategy is not replaced by the
    /// `Effected` mark of the same strategy.
    pub open spec fn takes(self, number: SudokuNumber, marker: StrategyMarker) -> bool {
        !(marker.effect is Effected && self.marker(number) == Some(
            StrategyMarker { strategy: marker.strategy, effect: StrategyEffect::Source },
        ))
    }

    /// Every possible number of `numbers` carries `marker`, unless it
    /// carries a mark that `marker` may not replace.
    pub open spec fn with_marks(self, numbers: Set<SudokuNumber>, marker: StrategyMarker) -> Self {
        PossibilitiesView {
            markers: Map::new(
                |number: SudokuNumber|
                    self.markers.dom().contains(number) || (numbers.contains(number)
                        && self.numbers.contains(number)),
                |number: SudokuNumber|
                    if numbers.contains(number) && self.numbers.contains(number) && self.takes(
                        number,
                        marker,
                    ) {
                        marker
                    } else {
                        self.markers[number]
                    },
            ),
            ..self
        }
    }
}

/// Nine slots without a mark.
fn no_markers() -> (markers: [Option<StrategyMarker>; 9])
    ensures
        forall|k: int| 0 <= k < 9 ==> markers[k] is None,
{
    [None, None, None, None, None, None, None, None, None]
}

/// The numbers that a block may still hold.
#[derive(Clone, Copy, Debug, Eq)]
pub struct Possibilities {
    numbers: SudokuNumbers,
    conflicting_numbers: SudokuNumbers,
    markers: [Option<StrategyMarker>; 9],
}

impl View for Possibilities {
    type V = PossibilitiesView;

    /// A number conflicts or carries a mark only while it is possible.
    closed spec fn view(&self) -> PossibilitiesView {
        PossibilitiesView {
            numbers: self.numbers@,
            conflicting: self.conflicting_numbers@.intersect(self.numbers@),
            markers: Map::new(
                |number: SudokuNumber|
                    self.numbers@.contains(number) && self.markers[number.value() - 1] is Some,
                |number: SudokuNumber| self.markers[number.value() - 1]->0,
            ),
        }
    }
}

impl PartialEq for Possibilities {
    /// Two values are equal when they stand for the same possibilities.
    fn eq(&self, other: &Self) -> (equal: bool) {
        let mut index: usize = 0;
        while index < 9
            invariant
                index <= 9,
                forall|number: SudokuNumber|
                    number.value() - 1 < index ==> self@.numbers.contains(number)
                        == other@.numbers.contains(number) && self@.conflicting.contains(number)
                        == other@.conflicting.contains(number) && #[trigger] self@.marker(number)
                        == other@.marker(number),
            decreases 9 - index,
        {
            let number = SudokuNumber::at(index);
            let same = self.has_number(number) == other.has_number(number) && self.is_conflicting(
                number,
            ) == other.is_conflicting(number) && same_marker(
                self.strategy_marker(number),
                other.strategy_marker(number),
            );
            if !same {
                proof {
                    if self@ == other@ {
                        assert(self@.marker(number) == other@.marker(number));
                    }
                }
                return false;
            }
            proof {
                assert forall|other_number: SudokuNumber|
                    other_number.value() - 1 < index + 1 implies self@.numbers.contains(
                    other_number,
                ) == other@.numbers.contains(other_number) && self@.conflicting.contains(
                    other_number,
                ) == other@.conflicting.contains(other_number) && #[trigger] self@.marker(
                    other_number,
                ) == other@.marker(other_number) by {
                    crate::numbers::lemma_number_value(other_number);
                    if other_number.value() - 1 == index {
                        assert(other_number == number);
                    }
                }
            }
            index += 1;
        }
        proof {
            assert forall|number: SudokuNumber|
                #![trigger self@.markers.dom().contains(number)]
                #![trigger other@.markers.dom().contains(number)]
                self@.markers.dom().contains(number) == other@.markers.dom().contains(number) && (
                self@.markers.dom().contains(number) ==> self@.markers[number]
                    == other@.markers[number]) by {
                crate::numbers::lemma_number_value(number);
                assert(self@.marker(number) == other@.marker(number));
            }
            assert(self@.markers.dom() =~= other@.markers.dom());
            assert forall|number: SudokuNumber|
                self@.numbers.contains(number) == other@.numbers.contains(number)
                    && self@.conflicting.contains(number) == other@.conflicting.contains(
                    number,
                ) by {
                crate::numbers::lemma_number_value(number);
                assert(self@.marker(number) == other@.marker(number));
            }
            assert(self@.numbers =~= other@.numbers);
            assert(self@.conflicting =~= other@.conflicting);
            assert(self@.markers =~= other@.markers);
        }
        true
    }
}

impl PartialEqSpecImpl for Possibilities {
    open spec fn obeys_eq_spec() -> bool {
        true
    }

    open spec fn eq_spec(&self, other: &Self) -> bool {
        self@ == other@
    }
}

/// Whether two blocks carry the same mark on a number, or both none.
fn same_marker(first: Option<StrategyMarker>, second: Option<StrategyMarker>) -> (same: bool)
    ensures
        same == (first == second),
{
    match (first, second) {
        (Some(first), Some(second)) => first.strategy == second.strategy && first.effect
            == second.effect,
        (None, None) => true,
        _ => false,
    }
}

impl Default for Possibilities {
    fn default() -> (possibilities: Self)
        ensures
            possibilities@ == PossibilitiesView::fresh(Set::empty()),
    {
        Self::new(SudokuNumbers::default())
    }
}

impl Possibilities {
    pub proof fn lemma_wf(self)
        ensures
            self@.wf(),
            self@.numbers.finite(),
    {
        self.numbers.lemma_finite();
    }

    pub fn new(numbers: SudokuNumbers) -> (possibilities: Self)
        ensures
            possibilities@ == PossibilitiesView::fresh(numbers@),
    {
        let possibilities = Self {
            numbers,
            conflicting_numbers: SudokuNumbers::default(),
            markers: no_markers(),
        };
        proof {
            assert(possibilities@.conflicting =~= Set::empty());
            assert forall|number: SudokuNumber| possibilities.markers[number.value() - 1] is None by {
                crate::numbers::lemma_number_value(number);
            }
            assert(possibilities@.markers =~= Map::empty());
        }
        possibilities
    }

    /// The possible numbers.
    pub fn numbers(&self) -> (numbers: SudokuNumbers)
        ensures
            numbers@ == self@.numbers,
    {
        self.numbers
    }

    pub fn has_number(&self, number: SudokuNumber) -> (possible: bool)
        ensures
            possible == self@.numbers.contains(number),
    {
        self.numbers.has_number(number)
    }

    pub fn count_numbers(&self) -> (count: usize)
        ensures
            self@.numbers.finite(),
            count == self@.numbers.len(),
    {
        self.numbers.count_numbers()
    }

    pub fn is_conflicting(&self, number: SudokuNumber) -> (conflicting: bool)
        ensures
            conflicting == self@.conflicting.contains(number),
    {
        self.numbers.has_number(number) && self.conflicting_numbers.has_number(number)
    }

    /// The mark that `number` carries, where it carries one.
    pub fn strategy_marker(&self, number: SudokuNumber) -> (marker: Option<StrategyMarker>)
        ensures
            marker == self@.marker(number),
    {
        if self.numbers.has_number(number) {
            self.markers[number.to_index()]
        } else {
            None
        }
    }

    /// Makes `number` possible.
    pub fn set_number(&mut self, number: SudokuNumber)
        ensures
            final(self)@ == old(self)@.with_number(number),
    {
        if !self.numbers.has_number(number) {
            self.conflicting_numbers.del_number(number);
            self.markers[number.to_index()] = None;
            self.numbers.set_number(number);
        }
        proof {
            assert(self@.numbers =~= old(self)@.with_number(number).numbers);
            assert(self@.conflicting =~= old(self)@.with_number(number).conflicting);
            assert(self@.markers =~= old(self)@.with_number(number).markers);
        }
    }

    /// Takes `number` from the possible numbers, with its conflict and its
    /// mark.
    pub fn del_number(&mut self, number: SudokuNumber)
        ensures
            final(self)@ == old(self)@.without_number(number),
    {
        self.numbers.del_number(number);
        proof {
            assert(self@.numbers =~= old(self)@.without_number(number).numbers);
            assert(self@.conflicting =~= old(self)@.without_number(number).conflicting);
            assert(self@.markers =~= old(self)@.without_number(number).markers);
        }
    }

    /// Takes every number of `numbers` from the possible numbers.
    pub fn del_numbers(&mut self, numbers: &SudokuNumbers)
        ensures
            final(self)@ == old(self)@.without_numbers(numbers@),
    {
        let list = numbers.get_numbers();
        self.numbers.del_numbers(list.as_slice());
        proof {
            assert(list@.to_set() =~= numbers@);
            let expected = old(self)@.without_numbers(numbers@);
            assert(self@.numbers =~= expected.numbers);
            assert(self@.conflicting =~= expected.conflicting);
            assert(self@.markers =~= expected.markers);
        }
    }

    /// Leaves `number` as the only possible number, if it was one.
    pub fn keep_only(&mut self, number: SudokuNumber)
        ensures
            final(self)@ == old(self)@.only(number),
    {
        let kept = self.numbers.has_number(number);
        self.numbers = SudokuNumbers::default();
        if kept {
            self.numbers.set_number(number);
        }
        proof {
            let expected = old(self)@.only(number);
            assert(self@.numbers =~= expected.numbers);
            assert(self@.conflicting =~= expected.conflicting);
            assert(self@.markers =~= expected.markers);
        }
    }

    /// Records whether the possible `number` is held by a peer.
    pub fn set_conflicting(&mut self, number: SudokuNumber, conflicting: bool)
        ensures
            final(self)@ == if conflicting {
                old(self)@.with_conflict(number)
            } else {
                old(self)@.without_conflict(number)
            },
    {
        if conflicting {
            self.conflicting_numbers.set_number(number);
        } else {
            self.conflicting_numbers.del_number(number);
        }
        proof {
            let expected = if conflicting {
                old(self)@.with_conflict(number)
            } else {
                old(self)@.without_conflict(number)
            };
            assert(self@.numbers =~= expected.numbers);
            assert(self@.conflicting =~= expected.conflicting);
            assert(self@.markers =~= expected.markers);
        }
    }

    /// Marks the possible `number`; an earlier mark on it is replaced.
    pub fn update_strategy_marker(&mut self, number: SudokuNumber, marker: StrategyMarker)
        ensures
            final(self)@ == old(self)@.with_marker(number, marker),
    {
        self.markers[number.to_index()] = Some(marker);
        proof {
            let expected = old(self)@.with_marker(number, marker);
            assert(self@.numbers =~= expected.numbers);
            assert(self@.conflicting =~= expected.conflicting);
            assert(self@.markers =~= expected.markers);
        }
    }

    /// Takes the mark from `number`.
    pub fn clear_strategy_marker(&mut self, number: SudokuNumber)
        ensures
            final(self)@ == old(self)@.without_marker(number),
    {
        self.markers[number.to_index()] = None;
        proof {
            let expected = old(self)@.without_marker(number);
            assert(self@.numbers =~= expected.numbers);
            assert(self@.conflicting =~= expected.conflicting);
            assert(self@.markers =~= expected.markers);
        }
    }

    /// Marks every possible number of `numbers`. The `Source` mark of a
    /// strategy is not replaced by the `Effected` mark of the same strategy.
    pub fn mark_numbers(&mut self, numbers: &SudokuNumbers, marker: StrategyMarker)
        ensures
            final(self)@ == old(self)@.with_marks(numbers@, marker),
    {
        let mut index: usize = 0;
        while index < 9
            invariant
                index <= 9,
                self.numbers == old(self).numbers,
                self.conflicting_numbers == old(self).conflicting_numbers,
                forall|k: int|
                    0 <= k < 9 ==> #[trigger] self.markers[k] == if k < index && numbers@.contains(
                        SudokuNumber::of(k + 1),
                    ) && old(self)@.numbers.contains(SudokuNumber::of(k + 1)) && old(self)@.takes(
                        SudokuNumber::of(k + 1),
                        marker,
                    ) {
                        Some(marker)
                    } else {
                        old(self).markers[k]
                    },
            decreases 9 - index,
        {
            let number = SudokuNumber::at(index);
            if numbers.has_number(number) && self.numbers.has_number(number) {
                let kept = match self.markers[index] {
                    Some(held) => marker.effect == StrategyEffect::Effected && held.effect
                        == StrategyEffect::Source && held.strategy == marker.strategy,
                    None => false,
                };
                if !kept {
                    self.markers[index] = Some(marker);
                }
            }
            index += 1;
        }
        proof {
            let expected = old(self)@.with_marks(numbers@, marker);
            assert forall|number: SudokuNumber|
                self@.markers.dom().contains(number) == expected.markers.dom().contains(number)
                    && (self@.markers.dom().contains(number) ==> self@.markers[number]
                    == expected.markers[number]) by {
                crate::numbers::lemma_number_value(number);
                assert(number.value() - 1 < 9);
                let at = self.markers[number.value() - 1];
            }
            assert(self@.numbers =~= expected.numbers);
            assert(self@.conflicting =~= expected.conflicting);
            assert(self@.markers =~= expected.markers);
        }
    }

    /// Takes the marks from every number of `numbers`.
    pub fn unmark_numbers(&mut self, numbers: &SudokuNumbers)
        ensures
            final(self)@ == old(self)@.without_marks(numbers@),
    {
        let mut index: usize = 0;
        while index < 9
            invariant
                index <= 9,
                self.numbers == old(self).numbers,
                self.conflicting_numbers == old(self).conflicting_numbers,
                forall|k: int|
                    0 <= k < 9 ==> #[trigger] self.markers[k] == if k < index && numbers@.contains(
                        SudokuNumber::of(k + 1),
                    ) {
                        None
                    } else {
                        old(self).markers[k]
                    },
            decreases 9 - index,
        {
            if numbers.has_number(SudokuNumber::at(index)) {
                self.markers[index] = None;
            }
            index += 1;
        }
        proof {
            let expected = old(self)@.without_marks(numbers@);
            assert forall|number: SudokuNumber|
                self@.markers.dom().contains(number) == expected.markers.dom().contains(number)
                    && (self@.markers.dom().contains(number) ==> self@.markers[number]
                    == expected.markers[number]) by {
                crate::numbers::lemma_number_value(number);
                let at = self.markers[number.value() - 1];
            }
            assert(self@.numbers =~= expected.numbers);
            assert(self@.conflicting =~= expected.conflicting);
            assert(self@.markers =~= expected.markers);
        }
    }

    /// Takes the marks from all numbers.
    pub fn clear_strategy_markers(&mut self)
        ensures
            final(self)@ == old(self)@.without_markers(),
    {
        self.markers = no_markers();
        proof {
            let expected = old(self)@.without_markers();
            assert forall|number: SudokuNumber| self.markers[number.value() - 1] is None by {
                crate::numbers::lemma_number_value(number);
            }
            assert(self@.numbers =~= expected.numbers);
            assert(self@.conflicting =~= expected.conflicting);
            assert(self@.markers =~= expected.markers);
        }
    }
}

/// What a `SudokuBlockStatus` stands for.
pub enum StatusView {
    Unresolved,
    Fixed(SudokuNumber),
    Resolved(SudokuNumber),
    Possibilities(PossibilitiesView),
}

impl StatusView {
    /// The number that the block holds, given or resolved.
    pub open spec fn placed(self) -> Option<SudokuNumber> {
        match self {
            StatusView::Fixed(number) => Some(number),
            StatusView::Resolved(number) => Some(number),
            _ => None,
        }
    }

    /// The numbers that the block lists as possible; none where it lists
    /// nothing.
    pub open spec fn possible(self) -> Set<SudokuNumber> {
        match self {
            StatusView::Possibilities(possibilities) => possibilities.numbers,
            _ => Set::empty(),
        }
    }
}

#[derive(Clone, Copy, Debug, PartialEq, Eq)]
pub enum SudokuBlockStatus {
    /// Empty, with nothing worked out yet.
    Unresolved,
    /// Given by the puzzle.
    Fixed(SudokuNumber),
    /// Filled in while solving.
    Resolved(SudokuNumber),
    /// Empty, with the numbers that may still go there.
    Possibilities(Possibilities),
}

impl View for SudokuBlockStatus {
    type V = StatusView;

    open spec fn view(&self) -> StatusView {
        match self {
            SudokuBlockStatus::Unresolved => StatusView::Unresolved,
            SudokuBlockStatus::Fixed(number) => StatusView::Fixed(*number),
            SudokuBlockStatus::Resolved(number) => StatusView::Resolved(*number),
            SudokuBlockStatus::Possibilities(possibilities) => StatusView::Possibilities(
                possibilities@,
            ),
        }
    }
}

impl Default for SudokuBlockStatus {
    fn default() -> (status: Self)
        ensures
            status == SudokuBlockStatus::Unresolved,
    {
        SudokuBlockStatus::Unresolved
    }
}

impl SudokuBlockStatus {
    #[must_use]
    pub fn is_unresolved(&self) -> (answer: bool)
        ensures
            answer == (self@ is Unresolved),
    {
        matches!(self, Self::Unresolved)
    }

    #[must_use]
    pub fn is_fixed(&self) -> (answer: bool)
        ensures
            answer == (self@ is Fixed),
    {
        matches!(self, Self::Fixed(..))
    }

    #[must_use]
    pub fn is_resolved(&self) -> (answer: bool)
        ensures
            answer == (self@ is Resolved),
    {
        matches!(self, Self::Resolved(..))
    }

    #[must_use]
    pub fn is_possibilities(&self) -> (answer: bool)
        ensures
            answer == (self@ is Possibilities),
    {
        matches!(self, Self::Possibilities(..))
    }

    pub fn as_possibilities(&self) -> (possibilities: Option<&Possibilities>)
        ensures
            possibilities == match *self {
                SudokuBlockStatus::Possibilities(inner) => Some(&inner),
                _ => None,
            },
    {
        if let Self::Possibilities(v) = self {
            Some(v)
        } else {
            None
        }
    }

    /// The possibilities, to be changed in place, where the block lists any.
    pub fn as_possibilities_mut(&mut self) -> (possibilities: Option<&mut Possibilities>)
        ensures
            match *old(self) {
                SudokuBlockStatus::Possibilities(inner) => possibilities matches Some(listed)
                    && *listed == inner && *final(self) == SudokuBlockStatus::Possibilities(
                    *final(listed),
                ),
                _ => possibilities is None && *final(self) == *old(self),
            },
    {
        if let Self::Possibilities(v) = self {
            Some(v)
        } else {
            None
        }
    }

    pub fn as_resolved(&self) -> (number: Option<&SudokuNumber>)
        ensures
            number == match *self {
                SudokuBlockStatus::Resolved(inner) => Some(&inner),
                _ => None,
            },
    {
        if let Self::Resolved(v) = self {
            Some(v)
        } else {
            None
        }
    }

    pub fn as_fixed(&self) -> (number: Option<&SudokuNumber>)
        ensures
            number == match *self {
                SudokuBlockStatus::Fixed(inner) => Some(&inner),
                _ => None,
            },
    {
        if let Self::Fixed(v) = self {
            Some(v)
        } else {
            None
        }
    }

    /// The number that the block holds, given or resolved.
    pub fn placed(&self) -> (number: Option<SudokuNumber>)
        ensures
            number == self@.placed(),
    {
        match self {
            Self::Fixed(number) => Some(*number),
            Self::Resolved(number) => Some(*number),
            _ => None,
        }
    }
}

/// What a `SudokuBlock` stands for.
pub struct BlockView {
    pub index: BlockIndex,
    pub conflicting: Option<Conflicting>,
    pub status: StatusView,
}

/// One of the 81 places of the board.
#[derive(Clone, Copy, Debug)]
pub struct SudokuBlock {
    index: BlockIndex,
    pub conflicting: Option<Conflicting>,
    pub status: SudokuBlockStatus,
}

impl View for SudokuBlock {
    type V = BlockView;

    closed spec fn view(&self) -> BlockView {
        BlockView { index: self.index, conflicting: self.conflicting, status: self.status@ }
    }
}

impl SudokuBlock {
    /// Whatever a block lists as possible is finite, and only possible
    /// numbers conflict or carry a mark.
    pub proof fn lemma_wf(self)
        ensures
            self@.status matches StatusView::Possibilities(possibilities) ==> possibilities.wf()
                && possibilities.numbers.finite(),
    {
        match self.status {
            SudokuBlockStatus::Possibilities(inner) => {
                inner.lemma_wf();
            },
            _ => {},
        }
    }

    pub fn new(row: SudokuNumber, col: SudokuNumber, status: SudokuBlockStatus) -> (block: Self)
        ensures
            block@ == (BlockView {
                index: BlockIndex { row, col },
                conflicting: None,
                status: status@,
            }),
    {
        Self { status, index: BlockIndex::new(row, col), conflicting: None }
    }

    pub fn is_fixed(&self) -> (answer: bool)
        ensures
            answer == (self@.status is Fixed),
    {
        self.status.is_fixed()
    }

    pub fn is_possibilities(&self) -> (answer: bool)
        ensures
            answer == (self@.status is Possibilities),
    {
        self.status.is_possibilities()
    }

    pub fn is_resolved(&self) -> (answer: bool)
        ensures
            answer == (self@.status is Resolved),
    {
        self.status.is_resolved()
    }

    pub fn is_unresolved(&self) -> (answer: bool)
        ensures
            answer == (self@.status is Unresolved),
    {
        self.status.is_unresolved()
    }

    pub fn row(&self) -> (row: SudokuNumber)
        ensures
            row == self@.index.row,
    {
        self.index.row
    }

    pub fn col(&self) -> (col: SudokuNumber)
        ensures
            col == self@.index.col,
    {
        self.index.col
    }

    pub fn square_number(&self) -> (square: SudokuNumber)
        ensures
            square == self@.index.spec_square_number(),
    {
        self.index.square_number()
    }

    pub fn index(&self) -> (index: &BlockIndex)
        ensures
            *index == self@.index,
    {
        &self.index
    }

    /// The status, as a value.
    pub fn status(&self) -> (status: SudokuBlockStatus)
        ensures
            status@ == self@.status,
    {
        self.status
    }

    /// The conflict tag, as a value.
    pub fn conflicting(&self) -> (conflicting: Option<Conflicting>)
        ensures
            conflicting == self@.conflicting,
    {
        self.conflicting
    }

    /// The same block with another status.
    pub fn with_status(&self, status: SudokuBlockStatus) -> (block: Self)
        ensures
            block@ == (BlockView { status: status@, ..self@ }),
    {
        Self { index: self.index, conflicting: self.conflicting, status }
    }

    /// The same block with another conflict tag, or with none.
    pub fn with_conflicting(&self, conflicting: Option<Conflicting>) -> (block: Self)
        ensures
            block@ == (BlockView { conflicting, ..self@ }),
    {
        Self { index: self.index, conflicting, status: self.status }
    }
}

} // verus!
