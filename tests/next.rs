use sudoku::Value::{N1, N2, N3, N4, N5, N6, N7, N8, N9};
use sudoku::{next, Board, Value, Worker};

fn board_from(cells: &[(usize, Value)]) -> Board {
    let mut squares: Vec<Option<Value>> = vec![None; 81];
    for &(i, v) in cells {
        squares[i] = Some(v);
    }
    Board::new(squares)
}

#[test]
fn test_next() {
    let mut worker = Worker::new();
    let board = Board::new(vec![
        Some(N1),Some(N2),Some(N3),Some(N4),Some(N5),Some(N6),None,None,None,
        None,None,None,None,None,None,None,None,None,
        None,None,None,None,None,None,None,None,None,
        None,None,None,None,None,None,None,None,None,
        None,None,None,None,None,None,None,None,None,
        None,None,None,None,None,None,None,None,None,
        None,None,None,None,None,None,None,None,None,
        None,None,None,None,None,None,None,None,None,
        None,None,None,None,None,None,None,None,Some(N9),
    ]);
    let expected1 = Board::new(vec![
        Some(N1),Some(N2),Some(N3),Some(N4),Some(N5),Some(N6),None,None,Some(N7),
        None,None,None,None,None,None,None,None,None,
        None,None,None,None,None,None,None,None,None,
        None,None,None,None,None,None,None,None,None,
        None,None,None,None,None,None,None,None,None,
        None,None,None,None,None,None,None,None,None,
        None,None,None,None,None,None,None,None,None,
        None,None,None,None,None,None,None,None,None,
        None,None,None,None,None,None,None,None,Some(N9),
    ]);
    let expected2 = Board::new(vec![
        Some(N1),Some(N2),Some(N3),Some(N4),Some(N5),Some(N6),None,None,Some(N8),
        None,None,None,None,None,None,None,None,None,
        None,None,None,None,None,None,None,None,None,
        None,None,None,None,None,None,None,None,None,
        None,None,None,None,None,None,None,None,None,
        None,None,None,None,None,None,None,None,None,
        None,None,None,None,None,None,None,None,None,
        None,None,None,None,None,None,None,None,None,
        None,None,None,None,None,None,None,None,Some(N9),
    ]);
    assert_eq!(next(&board, &mut worker), vec![expected1, expected2])
}

#[test]
fn test_next_with_constrained_block() {
    let mut worker = Worker::new();
    let board = Board::new(vec![
        Some(N1),Some(N2),Some(N3),Some(N4),Some(N5),Some(N6),None,None,None,
        None,None,None,None,None,None,None,None,None,
        None,None,None,None,None,None,Some(N8),None,None,
        None,None,None,None,None,None,None,None,None,
        None,None,None,None,None,None,None,None,None,
        None,None,None,None,None,None,None,None,None,
        None,None,None,None,None,None,None,None,None,
        None,None,None,None,None,None,None,None,None,
        None,None,None,None,None,None,None,None,Some(N9),
    ]);
    let expected1 = Board::new(vec![
        Some(N1),Some(N2),Some(N3),Some(N4),Some(N5),Some(N6),None,None,Some(N7),
        None,None,None,None,None,None,None,None,None,
        None,None,None,None,None,None,Some(N8),None,None,
        None,None,None,None,None,None,None,None,None,
        None,None,None,None,None,None,None,None,None,
        None,None,None,None,None,None,None,None,None,
        None,None,None,None,None,None,None,None,None,
        None,None,None,None,None,None,None,None,None,
        None,None,None,None,None,None,None,None,Some(N9),
    ]);
    assert_eq!(next(&board, &mut worker), vec![expected1])
}

#[test]
fn next_is_the_same_on_repeated_calls() {
    let board = board_from(&[(0, N1), (1, N2), (2, N3), (3, N4), (4, N5), (5, N6), (80, N9)]);
    let other = board_from(&[(40, N5), (41, N6), (10, N2)]);
    let mut worker = Worker::new();
    let first = next(&board, &mut worker);
    let _ = next(&other, &mut worker);
    let second = next(&board, &mut worker);
    assert_eq!(first, second);
    let mut fresh = Worker::new();
    assert_eq!(next(&board, &mut fresh), first);
}

#[test]
fn next_breaks_ties_by_lowest_index() {
    // On an empty board every cell has all nine candidates: cell 0 is chosen.
    let board = Board::new(vec![None; 81]);
    let mut worker = Worker::new();
    let children = next(&board, &mut worker);
    assert_eq!(children.len(), 9);
    let values = [N1, N2, N3, N4, N5, N6, N7, N8, N9];
    for (child, v) in children.iter().zip(values.iter()) {
        assert_eq!(*child, board_from(&[(0, *v)]));
    }
}

#[test]
fn next_tie_between_two_cells_picks_the_earlier() {
    // Cells 7 and 8 both keep only 8 and 9; every other empty cell keeps
    // more candidates. Cell 7 comes first.
    let board = board_from(&[
        (0, N1),
        (1, N2),
        (2, N3),
        (3, N4),
        (4, N5),
        (5, N6),
        (6, N7),
        (9, N8),
        (18, N9),
    ]);
    let mut worker = Worker::new();
    let children = next(&board, &mut worker);
    let mut expected_cells = vec![
        (0, N1),
        (1, N2),
        (2, N3),
        (3, N4),
        (4, N5),
        (5, N6),
        (6, N7),
        (9, N8),
        (18, N9),
    ];
    expected_cells.push((7, N8));
    let first = board_from(&expected_cells);
    expected_cells.pop();
    expected_cells.push((7, N9));
    let second = board_from(&expected_cells);
    assert_eq!(children, vec![first, second]);
}

#[test]
fn next_with_a_dead_cell_gives_nothing() {
    // Row 0 holds 1 to 8 and column 8 holds 9: cell 8 has no candidate.
    let board = board_from(&[
        (0, N1),
        (1, N2),
        (2, N3),
        (3, N4),
        (4, N5),
        (5, N6),
        (6, N7),
        (7, N8),
        (44, N9),
    ]);
    let mut worker = Worker::new();
    assert!(next(&board, &mut worker).is_empty());
}

#[test]
fn next_fills_a_single_forced_cell() {
    let board = board_from(&[
        (0, N1),
        (1, N2),
        (2, N3),
        (3, N4),
        (4, N5),
        (5, N6),
        (6, N7),
        (7, N8),
    ]);
    let mut worker = Worker::new();
    let children = next(&board, &mut worker);
    let mut cells = vec![
        (0, N1),
        (1, N2),
        (2, N3),
        (3, N4),
        (4, N5),
        (5, N6),
        (6, N7),
        (7, N8),
    ];
    cells.push((8, N9));
    assert_eq!(children, vec![board_from(&cells)]);
}

#[test]
fn block_table_is_shared_by_workers() {
    // The block of cell 8 decides the result here; two workers agree.
    let board = board_from(&[
        (0, N1),
        (1, N2),
        (2, N3),
        (3, N4),
        (4, N5),
        (5, N6),
        (24, N8),
        (80, N9),
    ]);
    let mut a = Worker::new();
    let mut b = Worker::new();
    let _ = next(&board_from(&[(60, N3)]), &mut b);
    assert_eq!(next(&board, &mut a), next(&board, &mut b));
}
