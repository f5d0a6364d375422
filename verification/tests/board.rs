use sudoku_solver::board::is_valid_group;
use sudoku_solver::{CandidateSet, Sudoku};

const PUZZLE: &str =
    "000720030007006820106008709003091000580407200000000006840650010600143900005000402";
const SOLUTION: &str =
    "958724631437916825126538749763291584581467293294385176849652317672143958315879462";

fn digits_of(set: CandidateSet) -> Vec<u8> {
    let mut cursor = set.into_iter();
    let mut out = Vec::new();
    while let Some(d) = cursor.next() {
        out.push(d);
    }
    out
}

fn digits_from_text(text: &str) -> [u8; 81] {
    let mut out = [0u8; 81];
    for (k, b) in text.bytes().enumerate() {
        out[k] = b - b'0';
    }
    out
}

#[test]
fn new_board_is_empty_and_allows_everything() {
    let board = Sudoku::new();
    for index in 0..81 {
        assert_eq!(board.get(index), 0);
        assert!(board.is_missing(index));
        assert_eq!(digits_of(board.get_candidates(index)), vec![1, 2, 3, 4, 5, 6, 7, 8, 9]);
    }
}

#[test]
fn text_constructor_reads_the_cells_row_by_row() {
    let board = Sudoku::from_text(PUZZLE);
    let digits = digits_from_text(PUZZLE);
    for index in 0..81u8 {
        assert_eq!(board.get(index), digits[index as usize]);
        assert_eq!(board.is_missing(index), digits[index as usize] == 0);
    }
    assert_eq!(board.get(3), 7);
    assert_eq!(board.get(4), 2);
    assert_eq!(board.get(80), 2);
}

#[test]
fn index_functions_follow_the_grid() {
    assert_eq!(Sudoku::row_index(0), 0);
    assert_eq!(Sudoku::col_index(0), 0);
    assert_eq!(Sudoku::grid_index(0), 0);
    assert_eq!(Sudoku::row_index(8), 0);
    assert_eq!(Sudoku::col_index(8), 8);
    assert_eq!(Sudoku::grid_index(8), 2);
    assert_eq!(Sudoku::row_index(40), 4);
    assert_eq!(Sudoku::col_index(40), 4);
    assert_eq!(Sudoku::grid_index(40), 4);
    assert_eq!(Sudoku::row_index(57), 6);
    assert_eq!(Sudoku::col_index(57), 3);
    assert_eq!(Sudoku::grid_index(57), 7);
    assert_eq!(Sudoku::row_index(80), 8);
    assert_eq!(Sudoku::col_index(80), 8);
    assert_eq!(Sudoku::grid_index(80), 8);
    for index in 0..81u8 {
        let row = index / 9;
        let col = index % 9;
        assert_eq!(Sudoku::grid_index(index), (row / 3) * 3 + col / 3);
    }
}

#[test]
fn set_writes_and_clears_a_cell() {
    let mut board = Sudoku::new();
    board.set(0, 5);
    board.set(1, 3);
    board.set(80, 9);
    assert_eq!(board.get(0), 5);
    assert_eq!(board.get(1), 3);
    assert_eq!(board.get(80), 9);
    assert_eq!(board.get(2), 0);
    board.set(1, 0);
    assert_eq!(board.get(0), 5);
    assert_eq!(board.get(1), 0);
    assert!(board.is_missing(1));
    board.set(0, 7);
    assert_eq!(board.get(0), 7);
}

#[test]
fn set_takes_the_digit_out_of_row_column_and_box() {
    let mut board = Sudoku::new();
    board.set(40, 5);
    // Same row, same column, same box.
    assert_eq!(digits_of(board.get_candidates(36)), vec![1, 2, 3, 4, 6, 7, 8, 9]);
    assert_eq!(digits_of(board.get_candidates(4)), vec![1, 2, 3, 4, 6, 7, 8, 9]);
    assert_eq!(digits_of(board.get_candidates(30)), vec![1, 2, 3, 4, 6, 7, 8, 9]);
    // Unrelated cell.
    assert_eq!(digits_of(board.get_candidates(0)), vec![1, 2, 3, 4, 5, 6, 7, 8, 9]);
    // Overwriting gives the old digit back and takes the new one.
    board.set(40, 6);
    assert_eq!(digits_of(board.get_candidates(36)), vec![1, 2, 3, 4, 5, 7, 8, 9]);
    board.set(40, 0);
    assert_eq!(digits_of(board.get_candidates(36)), vec![1, 2, 3, 4, 5, 6, 7, 8, 9]);
}

#[test]
fn candidates_of_an_empty_cell_leave_out_what_its_houses_hold() {
    let board = Sudoku::from_text(PUZZLE);
    // Cell 0: row holds 7, 2, 3; column holds 1, 5, 8, 6; box holds 7, 1, 6.
    assert_eq!(digits_of(board.get_candidates(0)), vec![4, 9]);
    let digits = digits_from_text(PUZZLE);
    for index in 0..81u8 {
        if digits[index as usize] != 0 {
            continue;
        }
        let allowed = digits_of(board.get_candidates(index));
        for other in 0..81u8 {
            let shares = Sudoku::row_index(index) == Sudoku::row_index(other)
                || Sudoku::col_index(index) == Sudoku::col_index(other)
                || Sudoku::grid_index(index) == Sudoku::grid_index(other);
            if shares && digits[other as usize] != 0 {
                assert!(!allowed.contains(&digits[other as usize]));
            }
        }
    }
}

#[test]
fn incremental_candidates_match_a_board_built_from_scratch() {
    let mut board = Sudoku::new();
    let writes: [(u8, u8); 10] =
        [(0, 5), (10, 3), (20, 7), (0, 0), (40, 9), (10, 4), (80, 1), (40, 2), (20, 0), (3, 5)];
    let mut digits = [0u8; 81];
    for (index, val) in writes {
        board.set(index, val);
        digits[index as usize] = val;
        let scratch = Sudoku::from_digits(digits);
        for cell in 0..81u8 {
            assert_eq!(
                digits_of(board.get_candidates(cell)),
                digits_of(scratch.get_candidates(cell))
            );
        }
    }
}

#[test]
fn overwriting_a_digit_that_has_a_twin_frees_it_in_their_common_houses() {
    let mut board = Sudoku::new();
    board.set(0, 5);
    board.set(1, 5);
    board.set(0, 0);
    // Cell 1 still holds 5, but the row's set has it back.
    assert_eq!(board.get(1), 5);
    assert_eq!(digits_of(board.get_candidates(8)), vec![1, 2, 3, 4, 5, 6, 7, 8, 9]);
}

#[test]
fn digit_constructor_agrees_with_text_constructor() {
    let from_text = Sudoku::from_text(PUZZLE);
    let from_digits = Sudoku::from_digits(digits_from_text(PUZZLE));
    assert!(from_text == from_digits);
    for index in 0..81u8 {
        assert_eq!(from_digits.get(index), from_text.get(index));
        assert_eq!(
            digits_of(from_digits.get_candidates(index)),
            digits_of(from_text.get_candidates(index))
        );
    }
}

#[test]
fn packed_constructor_reads_two_cells_per_byte() {
    let digits = digits_from_text(PUZZLE);
    let mut packed = [0u8; 41];
    for k in 0..81 {
        if k % 2 == 0 {
            packed[k / 2] |= digits[k];
        } else {
            packed[k / 2] |= digits[k] << 4;
        }
    }
    // The spare half of the last byte holds no cell.
    packed[40] |= 0xF0;
    let board = Sudoku::from_packed(packed);
    assert!(board == Sudoku::from_text(PUZZLE));
    assert_eq!(board.get(3), 7);
    assert_eq!(board.get(4), 2);
    assert_eq!(board.get(80), 2);

    let mut small = [0u8; 41];
    small[0] = 0x21;
    small[1] = 0x03;
    let board = Sudoku::from_packed(small);
    assert_eq!(board.get(0), 1);
    assert_eq!(board.get(1), 2);
    assert_eq!(board.get(2), 3);
    assert_eq!(board.get(3), 0);
}

#[test]
fn equality_compares_digits_only() {
    let mut a = Sudoku::new();
    a.set(0, 5);
    a.set(1, 5);
    a.set(0, 0);
    let mut b = Sudoku::new();
    b.set(1, 5);
    // The candidate sets differ, the digits do not.
    assert_ne!(digits_of(a.get_candidates(8)), digits_of(b.get_candidates(8)));
    assert!(a == b);
    b.set(80, 1);
    assert!(a != b);
    b.set(80, 0);
    assert!(a == b);
    b.set(79, 1);
    assert!(a != b);
}

#[test]
fn clone_is_an_independent_copy() {
    let original = Sudoku::from_text(PUZZLE);
    let mut copy = original.clone();
    assert!(copy == original);
    copy.set(0, 9);
    assert_eq!(original.get(0), 0);
    assert_eq!(copy.get(0), 9);
    assert!(copy != original);
}

#[test]
fn group_validity() {
    assert!(is_valid_group(&[1, 2, 3, 4, 5, 6, 7, 8, 9]));
    assert!(is_valid_group(&[9, 5, 8, 7, 2, 4, 6, 3, 1]));
    assert!(!is_valid_group(&[0, 2, 3, 4, 5, 6, 7, 8, 9]));
    assert!(!is_valid_group(&[1, 2, 3, 4, 5, 6, 7, 8, 0]));
    assert!(!is_valid_group(&[1, 1, 3, 4, 5, 6, 7, 8, 9]));
    assert!(!is_valid_group(&[1, 2, 3, 4, 5, 6, 7, 9, 9]));
    assert!(!is_valid_group(&[0, 0, 0, 0, 0, 0, 0, 0, 0]));
}

#[test]
fn board_validity() {
    assert!(Sudoku::from_text(SOLUTION).is_valid());
    assert!(!Sudoku::from_text(PUZZLE).is_valid());
    assert!(!Sudoku::new().is_valid());
    // Swapping two digits in a row keeps the rows valid but breaks columns.
    let mut digits = digits_from_text(SOLUTION);
    digits.swap(0, 1);
    assert!(!Sudoku::from_digits(digits).is_valid());
    // Rows and columns are valid here, the boxes are not.
    let shifted = "123456789234567891345678912456789123567891234678912345789123456891234567912345678";
    assert!(!Sudoku::from_text(shifted).is_valid());
    // One empty cell is enough.
    let mut digits = digits_from_text(SOLUTION);
    digits[80] = 0;
    assert!(!Sudoku::from_digits(digits).is_valid());
}

#[test]
fn grid_text_has_nine_lines_of_nine_cells() {
    let board = Sudoku::from_text(PUZZLE);
    let expected = "\n?, ?, ?, 7, 2, ?, ?, 3, ?, \
                    \n?, ?, 7, ?, ?, 6, 8, 2, ?, \
                    \n1, ?, 6, ?, ?, 8, 7, ?, 9, \
                    \n?, ?, 3, ?, 9, 1, ?, ?, ?, \
                    \n5, 8, ?, 4, ?, 7, 2, ?, ?, \
                    \n?, ?, ?, ?, ?, ?, ?, ?, 6, \
                    \n8, 4, ?, 6, 5, ?, ?, 1, ?, \
                    \n6, ?, ?, 1, 4, 3, 9, ?, ?, \
                    \n?, ?, 5, ?, ?, ?, 4, ?, 2, ";
    assert_eq!(board.to_string(), expected);
    assert_eq!(board.to_string().len(), 252);
}

#[test]
fn line_text_has_one_character_per_cell() {
    let board = Sudoku::from_text(PUZZLE);
    assert_eq!(
        board.to_line(),
        "???72??3???7??682?1?6??87?9??3?91???58?4?72??????????684?65??1?6??1439????5???4?2"
    );
    assert_eq!(Sudoku::from_text(SOLUTION).to_line(), SOLUTION);
}
