use sudoku::Value::{N1, N2, N5, N7, N9};
use sudoku::{block, row, Board, SizeError, Value};

#[test]
fn is_complete_on_full_and_partial_boards() {
    let full = Board::new(vec![Some(N5); 81]);
    assert!(full.is_complete());
    let mut cells = vec![Some(N5); 81];
    cells[80] = None;
    assert!(!Board::new(cells).is_complete());
    assert!(!Board::new(vec![None; 81]).is_complete());
}

#[test]
fn parse_reads_cells_and_skips_other_characters() {
    let mut text = String::new();
    text.push_str("1_2 \n");
    for _ in 0..77 {
        text.push('_');
    }
    text.push_str("x9\n");
    let board = Board::parse(&text).unwrap();
    let mut cells: Vec<Option<Value>> = vec![None; 81];
    cells[0] = Some(N1);
    cells[2] = Some(N2);
    cells[80] = Some(N9);
    assert_eq!(board, Board::new(cells));
}

#[test]
fn parse_rejects_a_short_board() {
    let text: String = std::iter::repeat('_').take(80).collect();
    assert_eq!(Board::parse(&text), Err(SizeError { found: 80 }));
}

#[test]
fn parse_rejects_a_long_board() {
    let text: String = std::iter::repeat('7').take(82).collect();
    assert_eq!(Board::parse(&text), Err(SizeError { found: 82 }));
}

#[test]
fn parse_rejects_empty_text() {
    assert_eq!(Board::parse("ab c\n"), Err(SizeError { found: 0 }));
}

#[test]
fn render_lays_out_blocks() {
    let mut cells: Vec<Option<Value>> = vec![None; 81];
    cells[0] = Some(N1);
    cells[80] = Some(N9);
    cells[40] = Some(N7);
    let text = Board::new(cells).render();
    let blank_row = "_ _ _   _ _ _   _ _ _ \n";
    let mut expected = String::from("\n");
    expected.push_str("1 _ _   _ _ _   _ _ _ \n");
    expected.push_str(blank_row);
    expected.push_str(blank_row);
    expected.push('\n');
    expected.push_str(blank_row);
    expected.push_str("_ _ _   _ 7 _   _ _ _ \n");
    expected.push_str(blank_row);
    expected.push('\n');
    expected.push_str(blank_row);
    expected.push_str(blank_row);
    expected.push_str("_ _ _   _ _ _   _ _ 9 \n");
    expected.push('\n');
    assert_eq!(text, expected);
}

#[test]
fn with_value_sets_one_cell() {
    let board = Board::new(vec![None; 81]);
    let child = board.with_value(13, N7);
    assert_eq!(child.get(13), Some(N7));
    assert_eq!(child.get(12), None);
    assert_eq!(board.get(13), None);
}

#[test]
fn position_derivations() {
    assert_eq!(row(0), 0);
    assert_eq!(sudoku::grid::column(0), 0);
    assert_eq!(block(0), (0, 0));
    assert_eq!(row(24), 2);
    assert_eq!(sudoku::grid::column(24), 6);
    assert_eq!(block(24), (0, 2));
    assert_eq!(row(80), 8);
    assert_eq!(sudoku::grid::column(80), 8);
    assert_eq!(block(80), (2, 2));
    assert_eq!(block(43), (1, 2));
}

#[test]
fn value_digits() {
    assert_eq!(N1.digit(), 1);
    assert_eq!(N9.digit(), 9);
    assert_eq!(Value::from_digit(7), Some(N7));
    assert_eq!(Value::from_digit(0), None);
    assert_eq!(Value::from_digit(10), None);
    assert_eq!(Value::all().len(), 9);
}
