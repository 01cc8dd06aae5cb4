use sudoku_solver::numbers::{SudokuNumber, SudokuNumbers};
use sudoku_solver::strategies::hidden_single::HiddenSingleStrategy;
use sudoku_solver::strategies::naked_pair::NakedPairStrategy;
use sudoku_solver::strategies::naked_single::NakedSingleStrategy;
use sudoku_solver::strategies::{Strategy, StrategyEffect, StrategyMarker, SudokuSolvingStrategy};
use sudoku_solver::{BlockIndex, Possibilities, SudokuBlockStatus, SudokuBoard};
use SudokuNumber::{Eight, Five, Four, Nine, One, Seven, Six, Three, Two};

fn at(row: SudokuNumber, col: SudokuNumber) -> BlockIndex {
    BlockIndex::new(row, col)
}

fn list(board: &mut SudokuBoard, index: BlockIndex, numbers: &[SudokuNumber]) {
    board.clear_block(&index);
    for number in numbers {
        board.toggle_possibility(&index, *number);
    }
}

fn listed(board: &SudokuBoard, index: BlockIndex) -> Vec<SudokuNumber> {
    board
        .get_block(&index)
        .status
        .as_possibilities()
        .map(|p| p.numbers().get_numbers())
        .unwrap_or_default()
}

fn marker(board: &SudokuBoard, index: BlockIndex, number: SudokuNumber) -> Option<StrategyMarker> {
    board
        .get_block(&index)
        .status
        .as_possibilities()
        .and_then(|p| p.strategy_marker(number))
}

fn markers(board: &SudokuBoard) -> Vec<(BlockIndex, SudokuNumber, StrategyMarker)> {
    let mut found = Vec::new();
    for block in board.get_blocks() {
        for number in SudokuNumber::all() {
            if let Some(marker) = marker(board, *block.index(), number) {
                found.push((*block.index(), number, marker));
            }
        }
    }
    found
}

fn same_boards(first: &SudokuBoard, second: &SudokuBoard) -> bool {
    (0..81).all(|position| {
        let place = BlockIndex::nth(position);
        first.get_block(&place).status == second.get_block(&place).status
            && first.get_block(&place).conflicting == second.get_block(&place).conflicting
    })
}

fn hidden_single_board() -> SudokuBoard {
    let mut board = SudokuBoard::default();
    list(&mut board, at(Three, One), &[Two, Four]);
    list(&mut board, at(Three, Five), &[Two, Four, Six]);
    list(&mut board, at(Two, Two), &[Two, Four, Six]);
    list(&mut board, at(Seven, One), &[Two, Six]);
    board
}

fn source(strategy: Strategy) -> StrategyMarker {
    StrategyMarker { strategy, effect: StrategyEffect::Source }
}

fn effected(strategy: Strategy) -> StrategyMarker {
    StrategyMarker { strategy, effect: StrategyEffect::Effected }
}

#[test]
fn hidden_single_applied() {
    let mut board = hidden_single_board();
    assert_eq!(board.hidden_single_of(&at(Three, One)), Some(Four));
    assert_eq!(board.hidden_single_of(&at(Two, Two)), None);
    assert_eq!(board.hidden_single_of(&at(Nine, Nine)), None);
    HiddenSingleStrategy.update_possible_numbers(&mut board, false);
    assert_eq!(listed(&board, at(Three, One)), vec![Four]);
    assert_eq!(listed(&board, at(Three, Five)), vec![Two, Six]);
    assert_eq!(listed(&board, at(Two, Two)), vec![Two, Six]);
    assert_eq!(listed(&board, at(Seven, One)), vec![Two, Six]);
    assert!(markers(&board).is_empty());
    assert!(board.get_block(&at(One, One)).is_unresolved());
}

#[test]
fn hidden_single_shown() {
    let mut board = hidden_single_board();
    let before = board.clone();
    HiddenSingleStrategy.update_possible_numbers(&mut board, true);
    for position in 0..81 {
        let place = BlockIndex::nth(position);
        assert_eq!(listed(&board, place), listed(&before, place));
    }
    assert_eq!(
        markers(&board),
        vec![
            (at(Two, Two), Four, effected(Strategy::HiddenSingle)),
            (at(Three, One), Four, source(Strategy::HiddenSingle)),
            (at(Three, Five), Four, effected(Strategy::HiddenSingle)),
        ]
    );
}

#[test]
fn a_number_hidden_in_two_containers_is_still_one() {
    let mut board = SudokuBoard::default();
    list(&mut board, at(Five, Five), &[One, Nine]);
    list(&mut board, at(Five, One), &[One]);
    list(&mut board, at(One, Five), &[One]);
    list(&mut board, at(Four, Four), &[One]);
    // 9 is hidden in the row, the column and the square of (5,5)
    assert_eq!(board.hidden_single_of(&at(Five, Five)), Some(Nine));
}

#[test]
fn two_hidden_numbers_are_no_hidden_single() {
    let mut board = SudokuBoard::default();
    list(&mut board, at(Five, Five), &[One, Nine]);
    // row: another block lists 1, so 9 is hidden there
    list(&mut board, at(Five, One), &[One]);
    // column: another block lists 9, so 1 is hidden there
    list(&mut board, at(One, Five), &[Nine]);
    list(&mut board, at(Four, Four), &[One, Nine]);
    assert_eq!(board.hidden_single_of(&at(Five, Five)), None);
    let before = board.clone();
    // the other blocks have no hidden single either: (5,1) and (4,4) share
    // what they list with (5,5), and in the containers of (1,5) ...
    list(&mut board, at(One, One), &[Nine]);
    list(&mut board, at(Two, Four), &[Nine]);
    list(&mut board, at(Five, Two), &[One]);
    list(&mut board, at(Nine, One), &[One]);
    list(&mut board, at(Six, Two), &[One]);
    list(&mut board, at(Three, Three), &[Nine]);
    list(&mut board, at(Nine, Five), &[Nine]);
    assert_eq!(board.hidden_single_of(&at(Five, Five)), None);
    assert_eq!(listed(&before, at(Five, Five)), vec![One, Nine]);
}

fn chained_board() -> SudokuBoard {
    let mut board = SudokuBoard::default();
    list(&mut board, at(One, One), &[Three, Five]);
    list(&mut board, at(One, Two), &[Three, Eight]);
    list(&mut board, at(One, Nine), &[Five, Eight]);
    list(&mut board, at(Two, Two), &[Five, Eight]);
    list(&mut board, at(Eight, Three), &[Three, Five]);
    list(&mut board, at(Eight, Eight), &[Five, Eight]);
    list(&mut board, at(Nine, One), &[Five, Eight]);
    list(&mut board, at(Nine, Two), &[Three, Eight]);
    list(&mut board, at(Nine, Nine), &[Three, Eight]);
    board
}

#[test]
fn hidden_singles_are_taken_one_after_the_other() {
    // 3 is hidden in (1,1), in its column. Taking it from (1,2) leaves
    // (9,2) as the only block of column 2 that lists 3
    let mut board = chained_board();
    assert_eq!(board.hidden_single_of(&at(One, One)), Some(Three));
    assert_eq!(board.hidden_single_of(&at(Nine, Two)), None);
    HiddenSingleStrategy.update_possible_numbers(&mut board, false);
    assert_eq!(listed(&board, at(One, One)), vec![Three]);
    assert_eq!(listed(&board, at(One, Two)), vec![Eight]);
    assert_eq!(listed(&board, at(One, Nine)), vec![Five, Eight]);
    assert_eq!(listed(&board, at(Two, Two)), vec![Five, Eight]);
    assert_eq!(listed(&board, at(Eight, Three)), vec![Five]);
    assert_eq!(listed(&board, at(Eight, Eight)), vec![Five, Eight]);
    assert_eq!(listed(&board, at(Nine, One)), vec![Five, Eight]);
    assert_eq!(listed(&board, at(Nine, Two)), vec![Three]);
    assert_eq!(listed(&board, at(Nine, Nine)), vec![Eight]);
}

#[test]
fn showing_hidden_singles_takes_nothing() {
    // each block is examined on the same possibilities: (9,9) still lists 3,
    // which no other block of its column does
    let mut board = chained_board();
    assert_eq!(board.hidden_single_of(&at(Nine, Nine)), Some(Three));
    let before = board.clone();
    HiddenSingleStrategy.update_possible_numbers(&mut board, true);
    for position in 0..81 {
        let place = BlockIndex::nth(position);
        assert_eq!(listed(&board, place), listed(&before, place));
    }
    assert_eq!(
        markers(&board),
        vec![
            (at(One, One), Three, source(Strategy::HiddenSingle)),
            (at(One, Two), Three, effected(Strategy::HiddenSingle)),
            (at(Nine, Two), Three, effected(Strategy::HiddenSingle)),
            (at(Nine, Nine), Three, source(Strategy::HiddenSingle)),
        ]
    );
}

#[test]
fn naked_pair_applied() {
    let mut board = SudokuBoard::default();
    list(&mut board, at(One, One), &[Two, Five]);
    list(&mut board, at(One, Two), &[Two, Five]);
    list(&mut board, at(One, Three), &[Two, Five, Seven]);
    list(&mut board, at(One, Four), &[One, Two]);
    list(&mut board, at(One, Five), &[Three, Four, Five, Six]);
    list(&mut board, at(One, Six), &[Eight, Nine]);
    board.set_resolved(&at(One, Seven), Three);
    list(&mut board, at(Two, One), &[Two, Five]);
    list(&mut board, at(Two, Nine), &[Two, Five, Seven]);
    NakedPairStrategy.update_possible_numbers(&mut board, false);
    assert_eq!(listed(&board, at(One, One)), vec![Two, Five]);
    assert_eq!(listed(&board, at(One, Two)), vec![Two, Five]);
    assert_eq!(listed(&board, at(One, Three)), vec![Seven]);
    assert_eq!(listed(&board, at(One, Four)), vec![One]);
    assert_eq!(listed(&board, at(One, Five)), vec![Three, Four, Six]);
    assert_eq!(listed(&board, at(One, Six)), vec![Eight, Nine]);
    assert_eq!(board.get_block(&at(One, Seven)).status, SudokuBlockStatus::Resolved(Three));
    assert!(board.get_block(&at(One, Eight)).is_unresolved());
    // one block with the pair is no group of two
    assert_eq!(listed(&board, at(Two, One)), vec![Two, Five]);
    assert_eq!(listed(&board, at(Two, Nine)), vec![Two, Five, Seven]);
    assert!(markers(&board).is_empty());
}

#[test]
fn naked_pair_shown() {
    let mut board = SudokuBoard::default();
    list(&mut board, at(One, One), &[Two, Five]);
    list(&mut board, at(One, Two), &[Two, Five]);
    list(&mut board, at(One, Three), &[Two, Five, Seven]);
    list(&mut board, at(One, Four), &[One, Nine]);
    let before = board.clone();
    NakedPairStrategy.update_possible_numbers(&mut board, true);
    for position in 0..81 {
        let place = BlockIndex::nth(position);
        assert_eq!(listed(&board, place), listed(&before, place));
    }
    assert_eq!(
        markers(&board),
        vec![
            (at(One, One), Two, source(Strategy::NakedPair)),
            (at(One, One), Five, source(Strategy::NakedPair)),
            (at(One, Two), Two, source(Strategy::NakedPair)),
            (at(One, Two), Five, source(Strategy::NakedPair)),
            (at(One, Three), Two, effected(Strategy::NakedPair)),
            (at(One, Three), Five, effected(Strategy::NakedPair)),
        ]
    );
    // applying takes the marks of the group away again
    NakedPairStrategy.update_possible_numbers(&mut board, false);
    assert!(markers(&board).is_empty());
    assert_eq!(listed(&board, at(One, Three)), vec![Seven]);
}

#[test]
fn naked_groups_of_other_sizes() {
    let mut board = SudokuBoard::default();
    // one block with one number locks it
    list(&mut board, at(Four, One), &[Six]);
    list(&mut board, at(Four, Two), &[Six, Seven]);
    // three blocks with three numbers
    list(&mut board, at(Four, Three), &[One, Two, Three]);
    list(&mut board, at(Four, Four), &[One, Two, Three]);
    list(&mut board, at(Four, Five), &[One, Two, Three]);
    list(&mut board, at(Four, Six), &[One, Six, Nine]);
    // three blocks with two numbers are no locked group
    list(&mut board, at(Five, One), &[Four, Five]);
    list(&mut board, at(Five, Two), &[Four, Five]);
    list(&mut board, at(Five, Three), &[Four, Five]);
    list(&mut board, at(Five, Four), &[Four, Five, Six]);
    // an empty list locks nothing
    list(&mut board, at(Six, One), &[One]);
    board.toggle_possibility(&at(Six, One), One);
    list(&mut board, at(Six, Two), &[One]);
    list(&mut board, at(Six, Three), &[One, Two]);
    NakedPairStrategy.update_possible_numbers(&mut board, false);
    assert_eq!(listed(&board, at(Four, One)), vec![Six]);
    assert_eq!(listed(&board, at(Four, Two)), vec![Seven]);
    assert_eq!(listed(&board, at(Four, Three)), vec![One, Two, Three]);
    assert_eq!(listed(&board, at(Four, Six)), vec![Nine]);
    assert_eq!(listed(&board, at(Five, One)), vec![Four, Five]);
    assert_eq!(listed(&board, at(Five, Four)), vec![Four, Five, Six]);
    assert!(listed(&board, at(Six, One)).is_empty());
    assert!(board.get_block(&at(Six, One)).is_possibilities());
    assert_eq!(listed(&board, at(Six, Two)), vec![One]);
    assert_eq!(listed(&board, at(Six, Three)), vec![Two]);
}

#[test]
fn naked_single_changes_nothing() {
    let mut board = hidden_single_board();
    let before = board.clone();
    NakedSingleStrategy.update_possible_numbers(&mut board, false);
    assert!(same_boards(&before, &board));
    NakedSingleStrategy.update_possible_numbers(&mut board, true);
    assert!(same_boards(&before, &board));
    assert_eq!(NakedSingleStrategy.strategy(), Strategy::NakedSingle);
    assert_eq!(HiddenSingleStrategy.strategy(), Strategy::HiddenSingle);
    assert_eq!(NakedPairStrategy.strategy(), Strategy::NakedPair);
}

fn engaged_board() -> SudokuBoard {
    // row 1 holds 1 to 7 but in its first two blocks, which both list 8 and 9
    let mut numbers = [[None; 9]; 9];
    for col in 2..9 {
        numbers[0][col] = Some(SudokuNumber::try_from(col - 1).unwrap());
    }
    SudokuBoard::new(numbers)
}

#[test]
fn engaging_shows_first_and_applies_second() {
    let mut board = engaged_board();
    assert!(!board.shows_strategy(Strategy::NakedPair));
    board.engage_strategy(NakedPairStrategy);
    // shown: the possibilities are worked out, the pair is marked, nothing
    // is taken
    assert!(board.shows_strategy(Strategy::NakedPair));
    assert!(!board.shows_strategy(Strategy::HiddenSingle));
    assert_eq!(listed(&board, at(One, One)), vec![Eight, Nine]);
    assert_eq!(listed(&board, at(One, Two)), vec![Eight, Nine]);
    assert_eq!(marker(&board, at(One, One), Eight), Some(source(Strategy::NakedPair)));
    assert_eq!(marker(&board, at(One, Two), Nine), Some(source(Strategy::NakedPair)));
    assert_eq!(listed(&board, at(Two, One)), vec![Two, Three, Four, Five, Six, Seven, Eight, Nine]);
    let shown = board.clone();

    board.engage_strategy(NakedPairStrategy);
    // applied: no mark is left
    assert!(!board.shows_strategy(Strategy::NakedPair));
    assert!(markers(&board).is_empty());
    for position in 0..81 {
        let place = BlockIndex::nth(position);
        assert_eq!(listed(&board, place), listed(&shown, place));
    }

    // the next engagement shows again
    board.engage_strategy(NakedPairStrategy);
    assert!(board.shows_strategy(Strategy::NakedPair));
}

#[test]
fn engaging_another_strategy_takes_the_marks_of_the_first() {
    let mut board = engaged_board();
    board.engage_strategy(NakedPairStrategy);
    assert!(board.shows_strategy(Strategy::NakedPair));
    board.engage_strategy(HiddenSingleStrategy);
    assert!(!board.shows_strategy(Strategy::NakedPair));
    for (_, _, marker) in markers(&board) {
        assert_eq!(marker.strategy, Strategy::HiddenSingle);
    }
    board.engage_strategy(NakedSingleStrategy);
    assert!(markers(&board).is_empty());
}

#[test]
fn engaging_a_hidden_single_twice_applies_it() {
    // column 1 holds 1 to 7 below its first two blocks; row 1 holds 8 in
    // column 9 and row 2 holds nothing more: 8 is left for (2,1) alone
    let mut numbers = [[None; 9]; 9];
    for row in 2..9 {
        numbers[row][0] = Some(SudokuNumber::try_from(row - 1).unwrap());
    }
    numbers[0][8] = Some(Eight);
    let mut board = SudokuBoard::new(numbers);
    board.engage_strategy(HiddenSingleStrategy);
    assert_eq!(listed(&board, at(One, One)), vec![Nine]);
    assert_eq!(listed(&board, at(Two, One)), vec![Eight, Nine]);
    assert!(board.shows_strategy(Strategy::HiddenSingle));
    assert_eq!(marker(&board, at(Two, One), Eight), Some(source(Strategy::HiddenSingle)));
    board.engage_strategy(HiddenSingleStrategy);
    assert!(!board.shows_strategy(Strategy::HiddenSingle));
    assert!(markers(&board).is_empty());
    assert_eq!(listed(&board, at(Two, One)), vec![Eight]);
    assert!(!listed(&board, at(Two, Two)).contains(&Eight));
}

#[test]
fn marks_on_possibilities() {
    let mut possibilities = Possibilities::new(SudokuNumbers::new(&[One, Two, Three]));
    assert_eq!(possibilities.strategy_marker(One), None);
    possibilities.update_strategy_marker(One, source(Strategy::NakedPair));
    possibilities.update_strategy_marker(Two, effected(Strategy::HiddenSingle));
    // a number that is not possible carries no mark
    possibilities.update_strategy_marker(Nine, source(Strategy::NakedPair));
    assert_eq!(possibilities.strategy_marker(One), Some(source(Strategy::NakedPair)));
    assert_eq!(possibilities.strategy_marker(Two), Some(effected(Strategy::HiddenSingle)));
    assert_eq!(possibilities.strategy_marker(Nine), None);
    possibilities.set_number(Nine);
    assert_eq!(possibilities.strategy_marker(Nine), None);

    // a mark is replaced, but the source of a strategy not by its effect
    possibilities.mark_numbers(&SudokuNumbers::new_all(), effected(Strategy::NakedPair));
    assert_eq!(possibilities.strategy_marker(One), Some(source(Strategy::NakedPair)));
    assert_eq!(possibilities.strategy_marker(Two), Some(effected(Strategy::NakedPair)));
    assert_eq!(possibilities.strategy_marker(Three), Some(effected(Strategy::NakedPair)));
    assert_eq!(possibilities.strategy_marker(Four), None);
    possibilities.mark_numbers(&SudokuNumbers::only(One), effected(Strategy::HiddenSingle));
    assert_eq!(possibilities.strategy_marker(One), Some(effected(Strategy::HiddenSingle)));

    // a number that is removed loses its mark
    possibilities.del_number(Two);
    possibilities.set_number(Two);
    assert_eq!(possibilities.strategy_marker(Two), None);
    possibilities.clear_strategy_marker(Three);
    assert_eq!(possibilities.strategy_marker(Three), None);
    possibilities.unmark_numbers(&SudokuNumbers::only(Nine));
    assert_eq!(possibilities.strategy_marker(Nine), None);
    possibilities.clear_strategy_markers();
    assert_eq!(possibilities.strategy_marker(One), None);
    assert_eq!(possibilities.numbers().get_numbers(), vec![One, Two, Three, Nine]);
}

#[test]
fn possibilities_by_themselves() {
    let mut possibilities = Possibilities::default();
    assert_eq!(possibilities.count_numbers(), 0);
    possibilities.set_number(Four);
    possibilities.set_number(Five);
    possibilities.set_conflicting(Four, true);
    possibilities.set_conflicting(Six, true);
    assert!(possibilities.is_conflicting(Four));
    assert!(!possibilities.is_conflicting(Five));
    assert!(!possibilities.is_conflicting(Six));
    possibilities.set_number(Six);
    assert!(!possibilities.is_conflicting(Six));
    possibilities.keep_only(Four);
    assert_eq!(possibilities.numbers().get_numbers(), vec![Four]);
    assert!(possibilities.is_conflicting(Four));
    possibilities.set_conflicting(Four, false);
    assert!(!possibilities.is_conflicting(Four));
    possibilities.del_numbers(&SudokuNumbers::new(&[Four, Seven]));
    assert_eq!(possibilities.count_numbers(), 0);
    assert!(!possibilities.has_number(Four));
}

#[test]
fn taking_all_marks_from_the_board() {
    let mut board = hidden_single_board();
    HiddenSingleStrategy.update_possible_numbers(&mut board, true);
    assert!(board.shows_strategy(Strategy::HiddenSingle));
    let shown = board.clone();
    board.clear_strategy_markers();
    assert!(!board.shows_strategy(Strategy::HiddenSingle));
    assert!(markers(&board).is_empty());
    for position in 0..81 {
        let place = BlockIndex::nth(position);
        assert_eq!(listed(&board, place), listed(&shown, place));
    }
}

#[test]
fn possibilities_are_equal_by_what_they_stand_for() {
    let fresh = Possibilities::new(SudokuNumbers::new(&[One, Two]));
    let mut used = Possibilities::new(SudokuNumbers::new(&[One, Two, Three]));
    used.set_conflicting(Three, true);
    used.update_strategy_marker(Three, source(Strategy::NakedPair));
    assert_ne!(fresh, used);
    // with the number its conflict and its mark are gone
    used.del_number(Three);
    assert_eq!(fresh, used);
    used.set_conflicting(One, true);
    assert_ne!(fresh, used);
    used.set_conflicting(One, false);
    used.update_strategy_marker(Two, effected(Strategy::NakedPair));
    assert_ne!(fresh, used);
    used.clear_strategy_marker(Two);
    assert_eq!(fresh, used);
    assert_eq!(
        SudokuBlockStatus::Possibilities(fresh),
        SudokuBlockStatus::Possibilities(used)
    );
}

#[test]
fn possibilities_changed_in_place() {
    let mut status = SudokuBlockStatus::Possibilities(Possibilities::new(SudokuNumbers::only(Four)));
    if let Some(possibilities) = status.as_possibilities_mut() {
        possibilities.set_number(Five);
    }
    assert_eq!(
        status.as_possibilities().map(|p| p.numbers().get_numbers()),
        Some(vec![Four, Five])
    );
    let mut resolved = SudokuBlockStatus::Resolved(Four);
    assert!(resolved.as_possibilities_mut().is_none());
    assert_eq!(resolved, SudokuBlockStatus::Resolved(Four));
}
