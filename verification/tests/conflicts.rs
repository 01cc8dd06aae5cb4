use sudoku_solver::numbers::SudokuNumber;
use sudoku_solver::{BlockChange, BlockIndex, Conflicting, SudokuBlockStatus, SudokuBoard};
use SudokuNumber::{Eight, Five, Four, Nine, One, Seven, Six, Three, Two};

fn at(row: SudokuNumber, col: SudokuNumber) -> BlockIndex {
    BlockIndex::new(row, col)
}

fn tag(board: &SudokuBoard, row: SudokuNumber, col: SudokuNumber) -> Option<Conflicting> {
    board.get_block(&at(row, col)).conflicting
}

fn tags(board: &SudokuBoard) -> Vec<(BlockIndex, Conflicting)> {
    board
        .get_blocks()
        .iter()
        .filter_map(|block| block.conflicting.map(|tag| (*block.index(), tag)))
        .collect()
}

fn given(cells: &[(SudokuNumber, SudokuNumber, SudokuNumber)]) -> SudokuBoard {
    let mut numbers = [[None; 9]; 9];
    for (row, col, number) in cells {
        numbers[row.to_index()][col.to_index()] = Some(*number);
    }
    SudokuBoard::new(numbers)
}

#[test]
fn two_sevens_in_a_row() {
    let mut board = SudokuBoard::default();
    assert_eq!(board.set_resolved(&at(One, Five), Seven), BlockChange::Resolved(Seven));
    assert!(board.mark_conflicts(&at(One, Five), None));
    assert!(tags(&board).is_empty());

    assert_eq!(board.set_resolved(&at(One, One), Seven), BlockChange::Resolved(Seven));
    assert!(!board.mark_conflicts(&at(One, One), None));
    assert_eq!(tag(&board, One, One), Some(Conflicting::Source));
    assert_eq!(tag(&board, One, Five), Some(Conflicting::AffectedBy(at(One, One))));
    assert_eq!(tags(&board).len(), 2);

    assert_eq!(board.clear_block(&at(One, One)), BlockChange::Cleared);
    assert!(board.mark_conflicts(&at(One, One), None));
    assert!(tags(&board).is_empty());
}

#[test]
fn the_block_written_second_is_the_source() {
    let mut board = SudokuBoard::default();
    board.set_resolved(&at(One, One), Seven);
    assert!(board.mark_conflicts(&at(One, One), None));
    board.set_resolved(&at(One, Five), Seven);
    assert!(!board.mark_conflicts(&at(One, Five), None));
    assert_eq!(tag(&board, One, Five), Some(Conflicting::Source));
    assert_eq!(tag(&board, One, One), Some(Conflicting::AffectedBy(at(One, Five))));

    // clearing the affected block takes its own tag; the source keeps its
    // tag until its conflicts are worked out again
    board.clear_block(&at(One, One));
    assert!(board.mark_conflicts(&at(One, One), None));
    assert_eq!(tag(&board, One, One), None);
    assert_eq!(tag(&board, One, Five), Some(Conflicting::Source));
    assert!(board.mark_conflicts(&at(One, Five), None));
    assert!(tags(&board).is_empty());
}

#[test]
fn marking_twice_changes_nothing_more() {
    let mut board = given(&[(Two, Two, Four)]);
    board.set_resolved(&at(One, One), Seven);
    board.set_resolved(&at(One, Five), Seven);
    board.set_resolved(&at(Five, One), Seven);
    board.set_resolved(&at(Three, Three), Four);
    board.toggle_possibility(&at(One, Nine), Seven);
    board.toggle_possibility(&at(One, Nine), Two);
    let changes: [(BlockIndex, Option<(SudokuNumber, bool)>); 8] = [
        (at(One, One), None),
        (at(Three, Three), None),
        (at(Two, Two), None),
        (at(Nine, Nine), None),
        (at(One, Nine), Some((Seven, false))),
        (at(One, Nine), Some((Two, false))),
        (at(One, Nine), Some((Seven, true))),
        (at(One, Nine), None),
    ];
    for (index, change) in changes {
        let first = board.mark_conflicts(&index, change);
        let once = board.clone();
        let second = board.mark_conflicts(&index, change);
        assert_eq!(first, second);
        for position in 0..81 {
            let place = BlockIndex::nth(position);
            assert_eq!(once.get_block(&place).conflicting, board.get_block(&place).conflicting);
            assert_eq!(once.get_block(&place).status, board.get_block(&place).status);
        }
    }
}

#[test]
fn a_given_block_is_never_tagged() {
    let mut board = given(&[(One, Five, Seven), (Six, One, Seven)]);
    assert!(board.mark_conflicts(&at(One, Five), None));
    board.set_resolved(&at(One, One), Seven);
    assert!(!board.mark_conflicts(&at(One, One), None));
    assert_eq!(tag(&board, One, One), Some(Conflicting::Source));
    assert_eq!(tag(&board, One, Five), None);
    assert_eq!(tag(&board, Six, One), None);
    assert_eq!(board.find_block_mistakes(&at(One, One)), Some(vec![at(One, Five), at(Six, One)]));
    assert!(!board.verify_board());
    assert!(!board.mark_all_conflicts());
    assert_eq!(tags(&board), vec![(at(One, One), Conflicting::Source)]);
}

#[test]
fn a_resolved_block_without_conflict_clears_stale_tags() {
    let mut board = SudokuBoard::default();
    board.set_resolved(&at(Four, Four), Two);
    board.set_resolved(&at(Four, Eight), Two);
    board.set_resolved(&at(Five, Five), Two);
    assert!(!board.mark_conflicts(&at(Four, Four), None));
    assert_eq!(tag(&board, Four, Eight), Some(Conflicting::AffectedBy(at(Four, Four))));
    assert_eq!(tag(&board, Five, Five), Some(Conflicting::AffectedBy(at(Four, Four))));
    assert_eq!(tag(&board, Four, Four), Some(Conflicting::Source));

    board.set_resolved(&at(Four, Four), Three);
    assert!(board.mark_conflicts(&at(Four, Four), None));
    assert!(tags(&board).is_empty());
}

#[test]
fn an_unresolved_block_forgets_what_named_it() {
    let mut board = SudokuBoard::default();
    board.set_resolved(&at(Two, Two), Six);
    board.set_resolved(&at(Two, Seven), Six);
    board.toggle_possibility(&at(Nine, Two), Six);
    assert!(!board.mark_conflicts(&at(Nine, Two), Some((Six, false))));
    assert_eq!(
        tag(&board, Two, Two),
        Some(Conflicting::AffectedByPossibilities { source: at(Nine, Two), number: Six })
    );
    assert_eq!(tag(&board, Two, Seven), None);
    let listed = board.get_block(&at(Nine, Two)).status.as_possibilities().copied().unwrap();
    assert!(listed.is_conflicting(Six));

    board.clear_block(&at(Nine, Two));
    assert!(board.mark_conflicts(&at(Nine, Two), None));
    assert!(tags(&board).is_empty());
}

#[test]
fn possibilities_that_a_peer_holds() {
    let mut board = given(&[(Five, Five, Eight)]);
    board.set_resolved(&at(Five, One), Three);
    assert_eq!(
        board.toggle_possibility(&at(Five, Nine), Three),
        BlockChange::Possibility { number: Three, cleared: false }
    );
    assert!(!board.mark_conflicts(&at(Five, Nine), Some((Three, false))));
    board.toggle_possibility(&at(Five, Nine), Eight);
    assert!(!board.mark_conflicts(&at(Five, Nine), Some((Eight, false))));
    board.toggle_possibility(&at(Five, Nine), One);
    assert!(board.mark_conflicts(&at(Five, Nine), Some((One, false))));

    let listed = board.get_block(&at(Five, Nine)).status.as_possibilities().copied().unwrap();
    assert!(listed.is_conflicting(Three));
    assert!(listed.is_conflicting(Eight));
    assert!(!listed.is_conflicting(One));
    assert!(!listed.is_conflicting(Two));
    assert_eq!(
        tag(&board, Five, One),
        Some(Conflicting::AffectedByPossibilities { source: at(Five, Nine), number: Three })
    );
    // the given block that holds 8 carries no tag
    assert_eq!(tag(&board, Five, Five), None);
    assert_eq!(tag(&board, Five, Nine), None);

    // taking the possibility away again
    assert_eq!(
        board.toggle_possibility(&at(Five, Nine), Three),
        BlockChange::Possibility { number: Three, cleared: true }
    );
    assert!(board.mark_conflicts(&at(Five, Nine), Some((Three, true))));
    assert_eq!(tag(&board, Five, One), None);
    let listed = board.get_block(&at(Five, Nine)).status.as_possibilities().copied().unwrap();
    assert!(!listed.is_conflicting(Three));
    assert!(listed.is_conflicting(Eight));
    assert_eq!(listed.numbers().get_numbers(), vec![One, Eight]);
}

#[test]
fn one_possibility_left_sweeps_resolved_tags() {
    let mut board = SudokuBoard::default();
    // (3,3) was resolved to 5 in conflict with (3,6), then turned into
    // possibilities without its conflicts being worked out
    board.set_resolved(&at(Three, Six), Five);
    board.set_resolved(&at(Three, Three), Five);
    assert!(!board.mark_conflicts(&at(Three, Three), None));
    assert_eq!(tag(&board, Three, Six), Some(Conflicting::AffectedBy(at(Three, Three))));
    board.toggle_possibility(&at(Three, Three), One);
    assert!(board.mark_conflicts(&at(Three, Three), Some((One, false))));
    assert_eq!(tag(&board, Three, Six), None);
    // the block's own tag is not touched while it lists possibilities
    assert_eq!(tag(&board, Three, Three), Some(Conflicting::Source));

    // with two possibilities listed the sweep is not made
    let mut board = SudokuBoard::default();
    board.set_resolved(&at(Three, Six), Five);
    board.set_resolved(&at(Three, Three), Five);
    board.mark_conflicts(&at(Three, Three), None);
    board.toggle_possibility(&at(Three, Three), One);
    board.toggle_possibility(&at(Three, Three), Two);
    assert!(board.mark_conflicts(&at(Three, Three), Some((Two, false))));
    assert_eq!(tag(&board, Three, Six), Some(Conflicting::AffectedBy(at(Three, Three))));
}

#[test]
fn possibilities_without_a_change_are_left_alone() {
    let mut board = SudokuBoard::default();
    board.set_resolved(&at(One, One), Four);
    board.toggle_possibility(&at(One, Two), Four);
    let before = board.clone();
    assert!(board.mark_conflicts(&at(One, Two), None));
    for position in 0..81 {
        let place = BlockIndex::nth(position);
        assert_eq!(before.get_block(&place).conflicting, board.get_block(&place).conflicting);
        assert_eq!(before.get_block(&place).status, board.get_block(&place).status);
    }
}

#[test]
fn mistakes_of_a_block() {
    let mut board = given(&[(One, Nine, Two)]);
    board.set_resolved(&at(One, One), Two);
    board.set_resolved(&at(Two, Two), Two);
    board.set_resolved(&at(Nine, One), Two);
    board.set_resolved(&at(Five, Five), Two);
    assert_eq!(
        board.find_block_mistakes(&at(One, One)),
        Some(vec![at(One, Nine), at(Nine, One), at(Two, Two)])
    );
    assert_eq!(board.find_block_mistakes(&at(Five, Five)), None);
    // only resolved blocks are asked
    assert_eq!(board.find_block_mistakes(&at(One, Nine)), None);
    assert_eq!(board.find_block_mistakes(&at(Seven, Seven)), None);
    board.toggle_possibility(&at(One, Five), Two);
    assert_eq!(board.find_block_mistakes(&at(One, Five)), None);
}

#[test]
fn the_whole_board_is_marked_row_by_row() {
    let mut board = SudokuBoard::default();
    board.set_resolved(&at(One, One), Nine);
    board.set_resolved(&at(One, Four), Nine);
    board.set_resolved(&at(One, Eight), Nine);
    board.set_resolved(&at(Six, Six), One);
    board.set_resolved(&at(Seven, Seven), One);
    assert!(!board.mark_all_conflicts());
    assert_eq!(
        tags(&board),
        vec![
            (at(One, One), Conflicting::AffectedBy(at(One, Eight))),
            (at(One, Four), Conflicting::AffectedBy(at(One, Eight))),
            (at(One, Eight), Conflicting::Source),
        ]
    );
    let once = tags(&board);
    assert!(!board.mark_all_conflicts());
    assert_eq!(tags(&board), once);

    board.clear_block(&at(One, Eight));
    board.clear_block(&at(One, Four));
    assert!(board.mark_all_conflicts());
    assert!(tags(&board).is_empty());
    assert_eq!(board.get_block(&at(One, One)).status, SudokuBlockStatus::Resolved(Nine));
}

#[test]
fn the_board_is_valid_exactly_without_equal_peers() {
    let mut board = SudokuBoard::default();
    assert!(board.verify_board());
    board.set_resolved(&at(Two, Three), Eight);
    board.set_resolved(&at(Five, Five), Eight);
    assert!(board.verify_board());
    // same square
    board.set_resolved(&at(Three, One), Eight);
    assert!(!board.verify_board());
    board.clear_block(&at(Three, One));
    assert!(board.verify_board());
    // same column
    board.set_resolved(&at(Nine, Five), Eight);
    assert!(!board.verify_board());
    board.set_resolved(&at(Nine, Five), Seven);
    assert!(board.verify_board());
    // same row
    board.set_resolved(&at(Two, Nine), Eight);
    assert!(!board.verify_board());
    // possibilities do not count
    board.clear_block(&at(Two, Nine));
    board.toggle_possibility(&at(Two, Nine), Eight);
    assert!(board.verify_board());
    // verifying leaves the board as it is
    assert!(tags(&board).is_empty());
}

#[test]
fn a_resolved_number_that_a_given_peer_holds_is_invalid() {
    let mut board = given(&[(Four, Four, Six)]);
    assert!(board.verify_board());
    board.set_resolved(&at(Four, Five), Six);
    assert!(!board.verify_board());
    // two given blocks are not examined
    let board = given(&[(Four, Four, Six), (Four, Five, Six)]);
    assert!(board.verify_board());
}

#[test]
fn numbers_used_in_these_tests() {
    // keeps every imported number in use
    let all = [One, Two, Three, Four, Five, Six, Seven, Eight, Nine];
    assert_eq!(all, SudokuNumber::all());
}

#[test]
fn a_puzzle_is_solved_when_full_and_valid() {
    let solution: [[u8; 9]; 9] = [
        [5, 3, 4, 6, 7, 8, 9, 1, 2],
        [6, 7, 2, 1, 9, 5, 3, 4, 8],
        [1, 9, 8, 3, 4, 2, 5, 6, 7],
        [8, 5, 9, 7, 6, 1, 4, 2, 3],
        [4, 2, 6, 8, 5, 3, 7, 9, 1],
        [7, 1, 3, 9, 2, 4, 8, 5, 6],
        [9, 6, 1, 5, 3, 7, 2, 8, 4],
        [2, 8, 7, 4, 1, 9, 6, 3, 5],
        [3, 4, 5, 2, 8, 6, 1, 7, 9],
    ];
    let mut numbers = [[None; 9]; 9];
    for row in 0..9 {
        for col in 0..9 {
            if (row + col) % 2 == 0 {
                numbers[row][col] = Some(solution[row][col]);
            }
        }
    }
    let mut board = SudokuBoard::default();
    board.fill_board_u8(numbers).unwrap();
    assert!(!board.is_solved());
    for row in 0..9 {
        for col in 0..9 {
            let number = SudokuNumber::try_from(solution[row][col] as usize).unwrap();
            board.set_resolved(&BlockIndex::from_index(row, col).unwrap(), number);
        }
    }
    assert!(board.is_solved());
    // a wrong number, or an empty block, and it is solved no longer
    board.set_resolved(&at(One, Two), Four);
    assert!(!board.is_solved());
    board.set_resolved(&at(One, Two), Three);
    assert!(board.is_solved());
    board.clear_block(&at(Nine, Eight));
    assert!(!board.is_solved());
    board.toggle_possibility(&at(Nine, Eight), Seven);
    assert!(!board.is_solved());
}
