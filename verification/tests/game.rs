use sudoku_solver::numbers::SudokuNumber;
use sudoku_solver::strategies::Strategy;
use sudoku_solver::{
    BlockIndex, CommandType, Conflicting, Direction, SelectedBlock, SelectionMode, SquareIndex,
    SudokuBlockStatus, SudokuBoard, SudokuGame,
};
use SudokuNumber::{Eight, Five, Four, Nine, One, Seven, Three, Two};

fn at(row: SudokuNumber, col: SudokuNumber) -> BlockIndex {
    BlockIndex::new(row, col)
}

fn status(game: &SudokuGame, row: SudokuNumber, col: SudokuNumber) -> SudokuBlockStatus {
    game.board().get_block(&at(row, col)).status
}

fn listed(game: &SudokuGame, row: SudokuNumber, col: SudokuNumber) -> Vec<SudokuNumber> {
    status(game, row, col)
        .as_possibilities()
        .map(|p| p.numbers().get_numbers())
        .unwrap_or_default()
}

#[test]
fn the_selection_wraps_around() {
    let start = SelectedBlock::default();
    assert_eq!(start.current, (0, 0));
    assert_eq!(start.mode, SelectionMode::Resolving);
    assert_eq!(start.index(), Some(at(One, One)));
    assert_eq!(start.moved(Direction::Left).current, (8, 0));
    assert_eq!(start.moved(Direction::Up).current, (0, 8));
    assert_eq!(start.moved(Direction::Right).current, (1, 0));
    assert_eq!(start.moved(Direction::Down).current, (0, 1));
    let corner = SelectedBlock { mode: SelectionMode::Possibilities, current: (8, 8) };
    assert_eq!(corner.index(), Some(at(Nine, Nine)));
    assert_eq!(corner.moved(Direction::Right).current, (0, 8));
    assert_eq!(corner.moved(Direction::Down).current, (8, 0));
    assert_eq!(corner.moved(Direction::Left).current, (7, 8));
    assert_eq!(corner.moved(Direction::Up).current, (8, 7));
    assert_eq!(corner.moved(Direction::Up).mode, SelectionMode::Possibilities);
    // column first, then row
    let middle = SelectedBlock { mode: SelectionMode::Resolving, current: (2, 6) };
    assert_eq!(middle.index(), Some(at(Seven, Three)));
    let outside = SelectedBlock { mode: SelectionMode::Resolving, current: (9, 0) };
    assert_eq!(outside.index(), None);
    assert_eq!(outside.moved(Direction::Left).current, (8, 0));
    assert_eq!(outside.moved(Direction::Right).current, (0, 0));
}

#[test]
fn the_modes_alternate() {
    assert_eq!(SelectionMode::default(), SelectionMode::Resolving);
    assert_eq!(SelectionMode::Resolving.toggled(), SelectionMode::Possibilities);
    assert_eq!(SelectionMode::Possibilities.toggled(), SelectionMode::Resolving);
}

#[test]
fn squares_inside_squares() {
    let plain = SquareIndex::new(2, 1, None);
    assert_eq!(plain.actual_index(), (2, 1));
    assert_eq!(plain.block_index(), at(Two, Three));
    let nested = SquareIndex::new(1, 2, Some((2, 0)));
    assert_eq!(nested.actual_index(), (7, 2));
    assert_eq!(nested.block_index(), at(Three, Eight));
    let last = SquareIndex::new(2, 2, Some((2, 2)));
    assert_eq!(last.actual_index(), (8, 8));
    assert_eq!(last.block_index(), at(Nine, Nine));
    let first = SquareIndex::new(0, 0, Some((0, 0)));
    assert_eq!(first.block_index(), at(One, One));
}

#[test]
fn entering_numbers() {
    let mut game = SudokuGame::new(SudokuBoard::default());
    assert!(!game.handle(CommandType::Number(Seven)));
    assert_eq!(status(&game, One, One), SudokuBlockStatus::Resolved(Seven));
    for _ in 0..4 {
        assert!(!game.handle(CommandType::Direction(Direction::Right)));
    }
    assert_eq!(game.selected().current, (4, 0));
    // a second seven in the row is a mistake
    assert!(game.handle(CommandType::Number(Seven)));
    assert_eq!(status(&game, One, Five), SudokuBlockStatus::Resolved(Seven));
    assert_eq!(
        game.board().get_block(&at(One, Five)).conflicting,
        Some(Conflicting::Source)
    );
    assert_eq!(
        game.board().get_block(&at(One, One)).conflicting,
        Some(Conflicting::AffectedBy(at(One, Five)))
    );
    // the same number again clears the block, and with it the conflict
    assert!(!game.handle(CommandType::Number(Seven)));
    assert_eq!(status(&game, One, Five), SudokuBlockStatus::Unresolved);
    assert_eq!(game.board().get_block(&at(One, Five)).conflicting, None);
    assert_eq!(game.board().get_block(&at(One, One)).conflicting, None);
}

#[test]
fn entering_possibilities() {
    let mut game = SudokuGame::new(SudokuBoard::default());
    game.handle(CommandType::Number(Four));
    game.handle(CommandType::Direction(Direction::Down));
    game.handle(CommandType::ChangeSelectionMode);
    assert_eq!(game.selected().mode, SelectionMode::Possibilities);
    assert!(!game.handle(CommandType::Number(Two)));
    // 4 is held by the block above
    assert!(game.handle(CommandType::Number(Four)));
    assert_eq!(listed(&game, Two, One), vec![Two, Four]);
    let possibilities = status(&game, Two, One).as_possibilities().copied().unwrap();
    assert!(possibilities.is_conflicting(Four));
    assert!(!possibilities.is_conflicting(Two));
    assert_eq!(
        game.board().get_block(&at(One, One)).conflicting,
        Some(Conflicting::AffectedByPossibilities { source: at(Two, One), number: Four })
    );
    // taking the possibility away is no mistake and clears the tag
    assert!(!game.handle(CommandType::Number(Four)));
    assert_eq!(listed(&game, Two, One), vec![Two]);
    assert_eq!(game.board().get_block(&at(One, One)).conflicting, None);
    game.handle(CommandType::ChangeSelectionMode);
    assert_eq!(game.selected().mode, SelectionMode::Resolving);
}

#[test]
fn given_blocks_refuse_commands() {
    let mut numbers = [[None; 9]; 9];
    numbers[0][0] = Some(Five);
    numbers[0][8] = Some(Three);
    let mut game = SudokuGame::new(SudokuBoard::new(numbers));
    assert!(!game.handle(CommandType::Number(Three)));
    assert_eq!(status(&game, One, One), SudokuBlockStatus::Fixed(Five));
    assert!(!game.handle(CommandType::ClearBlock));
    assert_eq!(status(&game, One, One), SudokuBlockStatus::Fixed(Five));
    game.handle(CommandType::ChangeSelectionMode);
    assert!(!game.handle(CommandType::Number(Three)));
    assert_eq!(status(&game, One, One), SudokuBlockStatus::Fixed(Five));
    assert_eq!(game.board().get_block(&at(One, One)).conflicting, None);
}

#[test]
fn clearing_and_resetting() {
    let mut numbers = [[None; 9]; 9];
    numbers[4][4] = Some(Nine);
    let mut game = SudokuGame::new(SudokuBoard::new(numbers));
    game.handle(CommandType::Number(One));
    game.handle(CommandType::Direction(Direction::Right));
    game.handle(CommandType::Number(One));
    assert!(game.board().get_block(&at(One, One)).conflicting.is_some());
    assert!(!game.handle(CommandType::ClearBlock));
    assert_eq!(status(&game, One, Two), SudokuBlockStatus::Unresolved);
    assert!(game.board().get_block(&at(One, One)).conflicting.is_none());
    assert!(!game.handle(CommandType::Reset));
    assert_eq!(status(&game, One, One), SudokuBlockStatus::Unresolved);
    assert_eq!(status(&game, Five, Five), SudokuBlockStatus::Fixed(Nine));
    assert_eq!(game.selected().current, (1, 0));
}

#[test]
fn bulk_commands() {
    let mut numbers = [[None; 9]; 9];
    for col in 1..9 {
        numbers[0][col] = Some(SudokuNumber::try_from(col).unwrap());
    }
    let mut game = SudokuGame::new(SudokuBoard::new(numbers));
    assert!(!game.handle(CommandType::CalculatePossibilities));
    assert_eq!(listed(&game, One, One), vec![Nine]);
    assert!(!game.handle(CommandType::ResolveNakedSingles));
    assert_eq!(status(&game, One, One), SudokuBlockStatus::Resolved(Nine));
    assert!(!listed(&game, Two, One).contains(&Nine));
    assert!(game.board().verify_board());
}

#[test]
fn strategies_by_command() {
    let mut numbers = [[None; 9]; 9];
    for col in 2..9 {
        numbers[0][col] = Some(SudokuNumber::try_from(col - 1).unwrap());
    }
    let mut game = SudokuGame::new(SudokuBoard::new(numbers));
    assert!(!game.handle(CommandType::Strategy(Strategy::NakedPair)));
    assert!(game.board().shows_strategy(Strategy::NakedPair));
    assert_eq!(listed(&game, One, One), vec![Eight, Nine]);
    assert!(!game.handle(CommandType::Strategy(Strategy::NakedPair)));
    assert!(!game.board().shows_strategy(Strategy::NakedPair));
    assert!(!game.handle(CommandType::Strategy(Strategy::HiddenSingle)));
    assert!(!game.board().shows_strategy(Strategy::NakedPair));
    assert!(!game.handle(CommandType::Strategy(Strategy::NakedSingle)));
    assert!(!game.board().shows_strategy(Strategy::HiddenSingle));
    assert!(!game.board().shows_strategy(Strategy::NakedSingle));
}

#[test]
fn selecting_a_block() {
    let mut game = SudokuGame::new(SudokuBoard::default());
    assert!(game.select(3, 7));
    assert_eq!(game.selected().current, (3, 7));
    assert_eq!(game.selected().index(), Some(at(Eight, Four)));
    assert!(!game.select(9, 0));
    assert!(!game.select(0, 9));
    assert_eq!(game.selected().current, (3, 7));
    game.handle(CommandType::Number(Two));
    assert_eq!(status(&game, Eight, Four), SudokuBlockStatus::Resolved(Two));
}

#[test]
fn whole_board_marking_of_possibilities() {
    let mut board = SudokuBoard::default();
    board.set_resolved(&at(Five, Five), Three);
    board.set_resolved(&at(One, One), Three);
    board.toggle_possibility(&at(Five, One), Three);
    board.toggle_possibility(&at(Five, One), Four);
    board.toggle_possibility(&at(Five, Nine), Three);
    board.toggle_possibility(&at(Nine, Nine), Three);
    board.mark_possibilities_conflicts();
    let first = board.get_block(&at(Five, One)).status.as_possibilities().copied().unwrap();
    assert!(first.is_conflicting(Three));
    assert!(!first.is_conflicting(Four));
    let last = board.get_block(&at(Nine, Nine)).status.as_possibilities().copied().unwrap();
    assert!(!last.is_conflicting(Three));
    // the last peer that lists the number is named
    assert_eq!(
        board.get_block(&at(Five, Five)).conflicting,
        Some(Conflicting::AffectedByPossibilities { source: at(Five, Nine), number: Three })
    );
    assert_eq!(
        board.get_block(&at(One, One)).conflicting,
        Some(Conflicting::AffectedByPossibilities { source: at(Five, One), number: Three })
    );
    // once the possibilities are gone the tags go too
    board.clear_block(&at(Five, One));
    board.clear_block(&at(Five, Nine));
    board.mark_possibilities_conflicts();
    assert_eq!(board.get_block(&at(Five, Five)).conflicting, None);
    assert_eq!(board.get_block(&at(One, One)).conflicting, None);
    // other tags are left alone
    board.set_resolved(&at(One, Two), Three);
    board.mark_conflicts(&at(One, Two), None);
    board.mark_possibilities_conflicts();
    assert_eq!(board.get_block(&at(One, Two)).conflicting, Some(Conflicting::Source));
    assert_eq!(
        board.get_block(&at(One, One)).conflicting,
        Some(Conflicting::AffectedBy(at(One, Two)))
    );
}

#[test]
fn clearing_either_of_two_equal_numbers_takes_both_tags() {
    for cleared_first in [true, false] {
        let mut game = SudokuGame::new(SudokuBoard::default());
        game.handle(CommandType::Number(Seven));
        game.select(4, 0);
        assert!(game.handle(CommandType::Number(Seven)));
        assert_eq!(
            game.board().get_block(&at(One, One)).conflicting,
            Some(Conflicting::AffectedBy(at(One, Five)))
        );
        assert_eq!(
            game.board().get_block(&at(One, Five)).conflicting,
            Some(Conflicting::Source)
        );
        if cleared_first {
            game.select(0, 0);
        }
        assert!(!game.handle(CommandType::ClearBlock));
        assert_eq!(game.board().get_block(&at(One, One)).conflicting, None);
        assert_eq!(game.board().get_block(&at(One, Five)).conflicting, None);
    }
}

#[test]
fn a_source_stays_while_another_block_holds_its_number() {
    let mut game = SudokuGame::new(SudokuBoard::default());
    game.handle(CommandType::Number(Two));
    game.select(3, 0);
    game.handle(CommandType::Number(Two));
    game.select(6, 0);
    assert!(game.handle(CommandType::Number(Two)));
    assert_eq!(
        game.board().get_block(&at(One, Seven)).conflicting,
        Some(Conflicting::Source)
    );
    // one of the affected blocks changes its number: the source still
    // conflicts with the other
    game.select(0, 0);
    assert!(!game.handle(CommandType::Number(Three)));
    assert_eq!(game.board().get_block(&at(One, One)).conflicting, None);
    assert_eq!(
        game.board().get_block(&at(One, Seven)).conflicting,
        Some(Conflicting::Source)
    );
    assert_eq!(
        game.board().get_block(&at(One, Four)).conflicting,
        Some(Conflicting::AffectedBy(at(One, Seven)))
    );
    // the other one changes too: nothing is left
    game.select(3, 0);
    assert!(!game.handle(CommandType::Number(Four)));
    assert_eq!(game.board().get_block(&at(One, Four)).conflicting, None);
    assert_eq!(game.board().get_block(&at(One, Seven)).conflicting, None);
}

#[test]
fn a_possibility_stops_conflicting_when_the_holder_goes() {
    let mut game = SudokuGame::new(SudokuBoard::default());
    game.handle(CommandType::Number(Five));
    game.select(0, 4);
    game.handle(CommandType::ChangeSelectionMode);
    assert!(game.handle(CommandType::Number(Five)));
    let possibilities = status(&game, Five, One).as_possibilities().copied().unwrap();
    assert!(possibilities.is_conflicting(Five));
    // the block that held 5 is cleared
    game.select(0, 0);
    game.handle(CommandType::ChangeSelectionMode);
    assert!(!game.handle(CommandType::ClearBlock));
    assert_eq!(game.board().get_block(&at(One, One)).conflicting, None);
    let possibilities = status(&game, Five, One).as_possibilities().copied().unwrap();
    assert!(!possibilities.is_conflicting(Five));
    assert!(possibilities.has_number(Five));
}
