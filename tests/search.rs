use sudoku::Value::{N1, N2, N3, N4, N5, N6, N7, N8, N9};
use sudoku::{run, Board, Value, Worker};

const SOLVED: &str = "\
534678912\
672195348\
198342567\
859761423\
426853791\
713924856\
961537284\
287419635\
345286179";

fn cells_of(text: &str) -> Vec<Option<Value>> {
    let values = [N1, N2, N3, N4, N5, N6, N7, N8, N9];
    text.chars()
        .filter_map(|c| match c {
            '_' => Some(None),
            '1'..='9' => Some(Some(values[c as usize - '1' as usize])),
            _ => None,
        })
        .collect()
}

fn is_solution_of(solution: &Board, puzzle: &Board) -> bool {
    let mut s = Vec::new();
    let mut p = Vec::new();
    for i in 0..81 {
        s.push(solution.get(i));
        p.push(puzzle.get(i));
    }
    if s.iter().any(|c| c.is_none()) {
        return false;
    }
    for i in 0..81 {
        if p[i].is_some() && p[i] != s[i] {
            return false;
        }
    }
    for k in 0..9 {
        let row: Vec<usize> = (0..9).map(|i| 9 * k + i).collect();
        let col: Vec<usize> = (0..9).map(|i| 9 * i + k).collect();
        let blk: Vec<usize> = (0..9)
            .map(|i| 9 * (3 * (k / 3) + i / 3) + 3 * (k % 3) + i % 3)
            .collect();
        for group in [row, col, blk] {
            let mut seen = Vec::new();
            for &c in &group {
                let v = s[c].unwrap();
                if seen.contains(&v) {
                    return false;
                }
                seen.push(v);
            }
        }
    }
    true
}

#[test]
fn run_returns_a_solved_board_unchanged() {
    let board = Board::new(cells_of(SOLVED));
    assert!(board.is_complete());
    let mut worker = Worker::new();
    assert_eq!(run(&board, &mut worker), Some(board.clone()));
}

#[test]
fn run_solves_a_puzzle() {
    let puzzle = Board::new(cells_of(
        "53__7____6__195____98____6_8___6___34__8_3__17___2___6_6____28____419__5____8__79",
    ));
    let mut worker = Worker::new();
    let solution = run(&puzzle, &mut worker).unwrap();
    assert!(is_solution_of(&solution, &puzzle));
    assert_eq!(solution, Board::new(cells_of(SOLVED)));
}

#[test]
fn run_solves_a_board_with_one_gap() {
    let mut cells = cells_of(SOLVED);
    cells[40] = None;
    let puzzle = Board::new(cells);
    let mut worker = Worker::new();
    assert_eq!(run(&puzzle, &mut worker), Some(Board::new(cells_of(SOLVED))));
}

#[test]
fn run_solves_the_empty_board() {
    let puzzle = Board::new(vec![None; 81]);
    let mut worker = Worker::new();
    let solution = run(&puzzle, &mut worker).unwrap();
    assert!(is_solution_of(&solution, &puzzle));
}

#[test]
fn run_reports_no_solution_for_a_dead_cell() {
    let mut cells = vec![None; 81];
    for (i, v) in [N1, N2, N3, N4, N5, N6, N7, N8].iter().enumerate() {
        cells[i] = Some(*v);
    }
    cells[44] = Some(N9);
    let mut worker = Worker::new();
    assert_eq!(run(&Board::new(cells), &mut worker), None);
}

#[test]
fn run_backtracks_when_two_cells_need_one_value() {
    // Row 0 lacks 8 and 9 in cells 7 and 8; columns 7 and 8 already hold 9
    // lower down, so both cells need 8 and no completion exists.
    let mut cells = vec![None; 81];
    for (i, v) in [N1, N2, N3, N4, N5, N6, N7].iter().enumerate() {
        cells[i] = Some(*v);
    }
    cells[34] = Some(N9);
    cells[62] = Some(N9);
    let mut worker = Worker::new();
    assert_eq!(run(&Board::new(cells), &mut worker), None);
}

#[test]
fn run_solves_a_second_puzzle() {
    let puzzle = Board::new(cells_of(
        "__3_2_6__9__3_5__1__18_64____81_29__7_______8__67_82____26_95__8__2_3__9__5_1_3__",
    ));
    let mut worker = Worker::new();
    let solution = run(&puzzle, &mut worker).unwrap();
    assert!(is_solution_of(&solution, &puzzle));
    assert_eq!(
        solution,
        Board::new(cells_of(
            "483921657967345821251876493548132976729564138136798245372689514814253769695417382"
        ))
    );
}
