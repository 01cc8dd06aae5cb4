use sudoku_solver::numbers::SudokuNumber;
use sudoku_solver::{BlockChange, BlockIndex, Conflicting, SudokuBlockStatus, SudokuBoard};
use SudokuNumber::{Eight, Five, Four, Nine, One, Seven, Six, Three, Two};

fn at(row: SudokuNumber, col: SudokuNumber) -> BlockIndex {
    BlockIndex::new(row, col)
}

fn given(cells: &[(SudokuNumber, SudokuNumber, SudokuNumber)]) -> SudokuBoard {
    let mut numbers = [[None; 9]; 9];
    for (row, col, number) in cells {
        numbers[row.to_index()][col.to_index()] = Some(*number);
    }
    SudokuBoard::new(numbers)
}

fn listed(board: &SudokuBoard, index: &BlockIndex) -> Vec<SudokuNumber> {
    board
        .get_block(index)
        .status
        .as_possibilities()
        .map(|p| p.numbers().get_numbers())
        .unwrap_or_default()
}

fn same_boards(first: &SudokuBoard, second: &SudokuBoard) -> bool {
    (0..81).all(|position| {
        let place = BlockIndex::nth(position);
        first.get_block(&place).status == second.get_block(&place).status
            && first.get_block(&place).conflicting == second.get_block(&place).conflicting
    })
}

#[test]
fn a_given_block_declines_every_move() {
    let mut board = given(&[(One, One, Five)]);
    let before = board.clone();
    assert_eq!(board.set_resolved(&at(One, One), Seven), BlockChange::Refused);
    assert_eq!(board.set_resolved(&at(One, One), Five), BlockChange::Refused);
    assert_eq!(board.clear_block(&at(One, One)), BlockChange::Refused);
    assert_eq!(board.toggle_possibility(&at(One, One), Two), BlockChange::Refused);
    assert!(same_boards(&before, &board));
    assert_eq!(BlockChange::Refused.candidate_change(), None);
}

#[test]
fn resolving_and_resolving_again() {
    let mut board = SudokuBoard::default();
    assert_eq!(board.set_resolved(&at(Two, Three), Four), BlockChange::Resolved(Four));
    assert_eq!(board.get_block(&at(Two, Three)).status, SudokuBlockStatus::Resolved(Four));
    // another number replaces the first
    assert_eq!(board.set_resolved(&at(Two, Three), Nine), BlockChange::Resolved(Nine));
    assert_eq!(board.get_block(&at(Two, Three)).status, SudokuBlockStatus::Resolved(Nine));
    // the same number once more clears the block
    assert_eq!(board.set_resolved(&at(Two, Three), Nine), BlockChange::Cleared);
    assert_eq!(board.get_block(&at(Two, Three)).status, SudokuBlockStatus::Unresolved);
    // possibilities give way to a resolved number
    board.toggle_possibility(&at(Two, Three), One);
    assert_eq!(board.set_resolved(&at(Two, Three), One), BlockChange::Resolved(One));
    assert_eq!(board.get_block(&at(Two, Three)).status, SudokuBlockStatus::Resolved(One));
    assert_eq!(BlockChange::Resolved(One).candidate_change(), None);
    assert_eq!(BlockChange::Cleared.candidate_change(), None);
}

#[test]
fn clearing() {
    let mut board = SudokuBoard::default();
    assert_eq!(board.clear_block(&at(Five, Five)), BlockChange::Cleared);
    board.set_resolved(&at(Five, Five), Three);
    assert_eq!(board.clear_block(&at(Five, Five)), BlockChange::Cleared);
    assert_eq!(board.get_block(&at(Five, Five)).status, SudokuBlockStatus::Unresolved);
    board.toggle_possibility(&at(Five, Five), Three);
    assert_eq!(board.clear_block(&at(Five, Five)), BlockChange::Cleared);
    assert_eq!(board.get_block(&at(Five, Five)).status, SudokuBlockStatus::Unresolved);
}

#[test]
fn toggling_possibilities() {
    let mut board = SudokuBoard::default();
    let index = at(Seven, Two);
    let set = board.toggle_possibility(&index, Four);
    assert_eq!(set, BlockChange::Possibility { number: Four, cleared: false });
    assert_eq!(set.candidate_change(), Some((Four, false)));
    assert_eq!(listed(&board, &index), vec![Four]);
    board.toggle_possibility(&index, Two);
    assert_eq!(listed(&board, &index), vec![Two, Four]);
    let cleared = board.toggle_possibility(&index, Four);
    assert_eq!(cleared, BlockChange::Possibility { number: Four, cleared: true });
    assert_eq!(cleared.candidate_change(), Some((Four, true)));
    assert_eq!(listed(&board, &index), vec![Two]);
    board.toggle_possibility(&index, Two);
    assert!(board.get_block(&index).is_possibilities());
    assert!(listed(&board, &index).is_empty());

    // a resolved block starts a fresh list
    board.set_resolved(&index, Nine);
    assert_eq!(
        board.toggle_possibility(&index, Nine),
        BlockChange::Possibility { number: Nine, cleared: false }
    );
    assert_eq!(listed(&board, &index), vec![Nine]);
}

#[test]
fn a_move_leaves_tags_to_the_marking() {
    let mut board = SudokuBoard::default();
    board.set_resolved(&at(One, One), Seven);
    board.set_resolved(&at(One, Two), Seven);
    assert_eq!(board.get_block(&at(One, One)).conflicting, None);
    assert!(!board.mark_conflicts(&at(One, Two), None));
    board.clear_block(&at(One, Two));
    assert_eq!(board.get_block(&at(One, Two)).conflicting, Some(Conflicting::Source));
    assert!(board.mark_conflicts(&at(One, Two), None));
    assert_eq!(board.get_block(&at(One, Two)).conflicting, None);
    assert_eq!(board.get_block(&at(One, One)).conflicting, None);
}

#[test]
fn a_removed_possibility_loses_its_conflict() {
    let mut board = SudokuBoard::default();
    board.set_resolved(&at(Four, Four), Five);
    board.toggle_possibility(&at(Four, Five), Five);
    assert!(!board.mark_conflicts(&at(Four, Five), Some((Five, false))));
    board.toggle_possibility(&at(Four, Five), Five);
    board.toggle_possibility(&at(Four, Five), Five);
    let possibilities = board.get_block(&at(Four, Five)).status.as_possibilities().copied().unwrap();
    assert!(possibilities.numbers().has_number(Five));
    assert!(!possibilities.is_conflicting(Five));
}

#[test]
fn reset_brings_back_the_puzzle() {
    let cells = [(One, One, Five), (Two, Nine, Three), (Nine, Four, Seven)];
    let mut board = given(&cells);
    let start = board.clone();
    board.set_resolved(&at(One, Two), Five);
    board.mark_conflicts(&at(One, Two), None);
    board.set_resolved(&at(Five, Five), One);
    board.toggle_possibility(&at(Six, Six), Two);
    board.update_possibilities();
    board.reset();
    assert!(same_boards(&start, &board));
    for (row, col, number) in cells {
        assert_eq!(board.get_block(&at(row, col)).status, SudokuBlockStatus::Fixed(number));
    }
    // filling the given numbers in again gives the same board
    let mut numbers = [[None; 9]; 9];
    for (row, col, number) in cells {
        numbers[row.to_index()][col.to_index()] = Some(number.to_u8());
    }
    assert_eq!(board.fill_board_u8(numbers), Ok(()));
    assert!(same_boards(&start, &board));
    // a reset of a fresh board changes nothing
    board.reset();
    assert!(same_boards(&start, &board));
}

#[test]
fn resolving_the_blocks_with_one_possibility() {
    let mut board = SudokuBoard::default();
    board.toggle_possibility(&at(One, One), Four);
    board.toggle_possibility(&at(One, Two), Four);
    board.toggle_possibility(&at(One, Two), Five);
    board.toggle_possibility(&at(Nine, Nine), Two);
    board.toggle_possibility(&at(Nine, Nine), Two);
    board.resolve_satisfied_blocks();
    assert_eq!(board.get_block(&at(One, One)).status, SudokuBlockStatus::Resolved(Four));
    // no conflict: the possibilities of all empty blocks are fresh
    let mut expected = SudokuNumber::all().to_vec();
    expected.retain(|n| *n != Four);
    assert_eq!(listed(&board, &at(One, Two)), expected);
    assert_eq!(listed(&board, &at(Nine, One)), expected);
    assert_eq!(listed(&board, &at(Nine, Nine)), SudokuNumber::all().to_vec());
    assert!(board.verify_board());
}

#[test]
fn resolving_into_a_conflict_keeps_the_possibilities() {
    let mut board = SudokuBoard::default();
    board.toggle_possibility(&at(One, One), Four);
    board.toggle_possibility(&at(One, Nine), Four);
    board.toggle_possibility(&at(Five, Five), Two);
    board.toggle_possibility(&at(Five, Five), Three);
    board.resolve_satisfied_blocks();
    assert_eq!(board.get_block(&at(One, One)).status, SudokuBlockStatus::Resolved(Four));
    assert_eq!(board.get_block(&at(One, Nine)).status, SudokuBlockStatus::Resolved(Four));
    assert_eq!(
        board.get_block(&at(One, One)).conflicting,
        Some(Conflicting::AffectedBy(at(One, Nine)))
    );
    assert_eq!(board.get_block(&at(One, Nine)).conflicting, Some(Conflicting::Source));
    // nothing was worked out afresh
    assert_eq!(listed(&board, &at(Five, Five)), vec![Two, Three]);
    assert!(board.get_block(&at(Two, Two)).is_unresolved());
}

#[test]
fn resolving_on_a_full_board_changes_nothing() {
    let solution: [[u8; 9]; 9] = [
        [5, 3, 4, 6, 7, 8, 9, 1, 2],
        [6, 7, 2, 1, 9, 5, 3, 4, 8],
        [1, 9, 8, 3, 4, 2, 5, 6, 7],
        [8, 5, 9, 7, 6, 1, 4, 2, 3],
        [4, 2, 6, 8, 5, 3, 7, 9, 1],
        [7, 1, 3, 9, 2, 4, 8, 5, 6],
        [9, 6, 1, 5, 3, 7, 2, 8, 4],
        [2, 8, 7, 4, 1, 9, 6, 3, 5],
        [3, 4, 5, 2, 8, 6, 1, 7, 9],
    ];
    let mut numbers = [[None; 9]; 9];
    for row in 0..9 {
        for col in 0..5 {
            numbers[row][col] = Some(solution[row][col]);
        }
    }
    let mut board = SudokuBoard::default();
    board.fill_board_u8(numbers).unwrap();
    for row in 0..9 {
        for col in 5..9 {
            let number = SudokuNumber::try_from(solution[row][col] as usize).unwrap();
            board.set_resolved(&BlockIndex::from_index(row, col).unwrap(), number);
        }
    }
    assert!(board.verify_board());
    assert!(board.mark_all_conflicts());
    let before = board.clone();
    board.resolve_satisfied_blocks();
    assert!(same_boards(&before, &board));
}

#[test]
fn resolving_without_possibilities_fills_the_empty_blocks() {
    let mut board = given(&[(One, One, Five)]);
    board.resolve_satisfied_blocks();
    assert_eq!(board.get_block(&at(One, One)).status, SudokuBlockStatus::Fixed(Five));
    assert_eq!(
        listed(&board, &at(One, Two)),
        vec![One, Two, Three, Four, Six, Seven, Eight, Nine]
    );
}
