use sudoku_solver::numbers::{SudokuNumber, SudokuNumbers};

#[test]
fn test_numbers() {
    let mut numbers = SudokuNumbers::new(&[SudokuNumber::One, SudokuNumber::Seven]);

    assert!(numbers.has_number(SudokuNumber::One));
    assert!(numbers.has_number(SudokuNumber::Seven));

    assert!(!numbers.has_number(SudokuNumber::Two));
    assert!(!numbers.has_number(SudokuNumber::Three));
    assert!(!numbers.has_number(SudokuNumber::Four));
    assert!(!numbers.has_number(SudokuNumber::Five));
    assert!(!numbers.has_number(SudokuNumber::Six));
    assert!(!numbers.has_number(SudokuNumber::Nine));
    assert!(!numbers.has_number(SudokuNumber::Eight));

    assert_eq!(
        numbers.get_numbers(),
        vec![SudokuNumber::One, SudokuNumber::Seven]
    );

    numbers.set_number(SudokuNumber::Eight);
    assert!(numbers.has_number(SudokuNumber::Eight));

    numbers.del_number(SudokuNumber::One);
    assert!(!numbers.has_number(SudokuNumber::One));
}

#[test]
fn number_values_and_indexes() {
    let all = SudokuNumber::all();
    for (position, number) in all.iter().enumerate() {
        assert_eq!(number.to_index(), position);
        assert_eq!(number.to_u8() as usize, position + 1);
        assert_eq!(usize::from(*number), position + 1);
        assert_eq!(SudokuNumber::try_from(position + 1), Ok(*number));
    }
    assert_eq!(SudokuNumber::Nine.to_index(), 8);
    assert_eq!(SudokuNumber::Four.to_u8(), 4);
}

#[test]
fn number_out_of_range_is_an_error() {
    assert_eq!(SudokuNumber::try_from(0usize), Err(()));
    assert_eq!(SudokuNumber::try_from(10usize), Err(()));
    assert_eq!(SudokuNumber::try_from(usize::MAX), Err(()));
    let converted: Result<SudokuNumber, ()> = 9usize.try_into();
    assert_eq!(converted, Ok(SudokuNumber::Nine));
}

#[test]
fn numbers_are_ordered_by_value() {
    assert!(SudokuNumber::One < SudokuNumber::Two);
    assert!(SudokuNumber::Eight < SudokuNumber::Nine);
    assert_eq!(SudokuNumber::Five, SudokuNumber::Five);
}

#[test]
fn empty_and_full_sets() {
    let empty = SudokuNumbers::default();
    assert_eq!(empty.count_numbers(), 0);
    assert!(empty.get_numbers().is_empty());
    assert_eq!(empty.get_missing_numbers(), SudokuNumber::all().to_vec());

    let full = SudokuNumbers::new_all();
    assert_eq!(full.count_numbers(), 9);
    assert_eq!(full.get_numbers(), SudokuNumber::all().to_vec());
    assert!(full.get_missing_numbers().is_empty());
}

#[test]
fn listing_is_ascending_whatever_the_order_given() {
    let numbers = SudokuNumbers::new(&[
        SudokuNumber::Nine,
        SudokuNumber::Two,
        SudokuNumber::Five,
        SudokuNumber::Two,
    ]);
    assert_eq!(numbers.count_numbers(), 3);
    assert_eq!(
        numbers.get_numbers(),
        vec![SudokuNumber::Two, SudokuNumber::Five, SudokuNumber::Nine]
    );
    assert_eq!(
        numbers.get_missing_numbers(),
        vec![
            SudokuNumber::One,
            SudokuNumber::Three,
            SudokuNumber::Four,
            SudokuNumber::Six,
            SudokuNumber::Seven,
            SudokuNumber::Eight
        ]
    );
    // the listing can be taken again
    assert_eq!(numbers.get_numbers(), numbers.get_numbers());
}

#[test]
fn insert_and_remove_are_idempotent() {
    let mut numbers = SudokuNumbers::default();
    numbers.set_number(SudokuNumber::Three);
    numbers.set_number(SudokuNumber::Three);
    assert_eq!(numbers.count_numbers(), 1);
    numbers.del_number(SudokuNumber::Four);
    assert_eq!(numbers.get_numbers(), vec![SudokuNumber::Three]);
    numbers.del_number(SudokuNumber::Three);
    numbers.del_number(SudokuNumber::Three);
    assert_eq!(numbers.count_numbers(), 0);
    assert_eq!(numbers, SudokuNumbers::default());
}

#[test]
fn bulk_removal() {
    let mut numbers = SudokuNumbers::new_all();
    numbers.del_numbers(&[SudokuNumber::One, SudokuNumber::Nine, SudokuNumber::One]);
    assert_eq!(numbers.count_numbers(), 7);
    assert!(!numbers.has_number(SudokuNumber::One));
    assert!(!numbers.has_number(SudokuNumber::Nine));
    assert!(numbers.has_number(SudokuNumber::Five));
    numbers.del_numbers(&[]);
    assert_eq!(numbers.count_numbers(), 7);
}

#[test]
fn set_equality_is_by_members() {
    let first = SudokuNumbers::new(&[SudokuNumber::Two, SudokuNumber::Six]);
    let mut second = SudokuNumbers::only(SudokuNumber::Six);
    assert!(!first.same_as(&second));
    assert_ne!(first, second);
    second.set_number(SudokuNumber::Two);
    assert!(first.same_as(&second));
    assert_eq!(first, second);
}

#[test]
fn union_and_intersection() {
    let mut numbers = SudokuNumbers::new(&[SudokuNumber::One, SudokuNumber::Two]);
    numbers.add_numbers(&SudokuNumbers::new(&[SudokuNumber::Two, SudokuNumber::Three]));
    assert_eq!(
        numbers.get_numbers(),
        vec![SudokuNumber::One, SudokuNumber::Two, SudokuNumber::Three]
    );
    numbers.keep_numbers(&SudokuNumbers::new(&[SudokuNumber::Three, SudokuNumber::Four]));
    assert_eq!(numbers.get_numbers(), vec![SudokuNumber::Three]);
}
