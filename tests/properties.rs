use std::time::{Duration, Instant};

use sudoku::{ReadError, SolverError, Sudoku, Tile};

const SOLVED: &str = "\
534678912
672195348
198342567
859761423
426853791
713924856
961537284
287419635
345286179
";

fn board(text: &str) -> Sudoku {
    Sudoku::read_board(text.as_bytes()).expect("well-formed board")
}

fn digits(b: &Sudoku) -> Vec<u8> {
    let mut v = Vec::new();
    for r in 0..9 {
        for c in 0..9 {
            v.push(b.digit_at((r, c)));
        }
    }
    v
}

/// Checks by brute force that every unit holds each digit once.
fn is_filled_and_valid(b: &Sudoku) -> bool {
    let d = digits(b);
    for i in 0..81 {
        if d[i] == 0 {
            return false;
        }
        for j in 0..81 {
            let same_row = i / 9 == j / 9;
            let same_col = i % 9 == j % 9;
            let same_box = (i / 27 == j / 27) && ((i % 9) / 3 == (j % 9) / 3);
            if i != j && (same_row || same_col || same_box) && d[i] == d[j] {
                return false;
            }
        }
    }
    true
}

fn keeps_givens(puzzle: &Sudoku, solved: &Sudoku) -> bool {
    let p = digits(puzzle);
    let s = digits(solved);
    (0..81).all(|i| p[i] == 0 || p[i] == s[i])
}

#[test]
fn solved_board_is_a_fixed_point() {
    let mut b = board(SOLVED);
    let before = b.clone();
    assert!(b.solve().is_ok());
    assert_eq!(b, before);
    assert_eq!(b.to_text(), SOLVED.as_bytes().to_vec());
}

#[test]
fn single_gap_is_filled_by_propagation() {
    let text = SOLVED.replacen("534", "504", 1);
    let mut b = board(&text);
    assert_eq!(b.empty_count(), 1);
    b.propagate();
    assert!(b.is_complete_board());
    assert_eq!(b.digit_at((0, 1)), 3);
    let mut c = board(&text);
    assert!(c.solve().is_ok());
    assert_eq!(c, board(SOLVED));
}

#[test]
fn duplicate_givens_give_no_solution() {
    let text = "\
500050000
000000000
000000000
000000000
000000000
000000000
000000000
000000000
000000000
";
    let mut b = board(text);
    assert!(!b.is_valid());
    let before = b.clone();
    assert_eq!(b.solve(), Err(SolverError::NoSolution));
    assert_eq!(b, before);
    assert_eq!(b.empty_count(), 79);
}

#[test]
fn hardest_puzzle_within_time_budget() {
    let text = "\
800000000
003600000
070090200
050007000
000045700
000100030
001000068
008500010
090000400
";
    let solution = "\
812753649
943682175
675491283
154237896
369845721
287169534
521974368
438526917
796318452
";
    let mut b = board(text);
    let start = Instant::now();
    assert!(b.solve().is_ok());
    assert!(start.elapsed() < Duration::from_secs(10));
    assert_eq!(b, board(solution));
}

#[test]
fn empty_board_is_solvable() {
    let mut b = Sudoku::default();
    assert_eq!(b.empty_count(), 81);
    assert!(!b.is_complete_board());
    assert!(b.solve().is_ok());
    assert!(b.is_complete_board());
    assert_eq!(b.empty_count(), 0);
    assert!(b.is_valid());
    assert!(is_filled_and_valid(&b));
}

#[test]
fn solved_puzzle_keeps_givens_and_is_valid() {
    let puzzle = board(
        "\
003020600
900305001
001806400
008102900
700000008
006708200
002609500
800203009
005010300
",
    );
    let mut b = puzzle.clone();
    assert!(b.solve().is_ok());
    assert!(is_filled_and_valid(&b));
    assert!(keeps_givens(&puzzle, &b));
}

#[test]
fn second_propagation_fills_nothing() {
    let mut b = board(
        "\
003020600
900305001
001806400
008102900
700000008
006708200
002609500
800203009
005010300
",
    );
    let start = b.empty_count();
    b.propagate();
    let once = b.clone();
    assert!(b.empty_count() < start);
    b.propagate();
    assert_eq!(b, once);
    assert_eq!(b.empty_count(), once.empty_count());
}

#[test]
fn each_place_removes_one_empty_cell() {
    let mut b = Sudoku::default();
    let mut expected = 81;
    for (pos, d) in [((0, 0), 5), ((0, 1), 3), ((4, 4), 7), ((8, 8), 9)] {
        b.place(pos, d);
        expected -= 1;
        assert_eq!(b.empty_count(), expected);
        assert_eq!(b.digit_at(pos), d);
    }
}

#[test]
fn failed_solve_leaves_board_unchanged() {
    // The top-right cell has no digit left: 1 to 8 are in its row, 9 in its column.
    let text = "\
123456780
000000009
000000000
000000000
000000000
000000000
000000000
000000000
000000000
";
    let mut b = board(text);
    assert!(b.is_valid());
    let before = b.clone();
    assert_eq!(b.solve(), Err(SolverError::NoSolution));
    assert_eq!(b, before);
    assert_eq!(b.to_text(), text.as_bytes().to_vec());
}

#[test]
fn completion_matches_a_full_scan() {
    let mut b = board(SOLVED);
    assert!(b.is_complete_board());
    assert!(digits(&b).iter().all(|&d| d != 0));
    let text = SOLVED.replacen("9", "0", 1);
    b = board(&text);
    assert!(!b.is_complete_board());
    assert_eq!(digits(&b).iter().filter(|&&d| d == 0).count(), 1);
}

#[test]
fn read_board_reports_a_short_input() {
    assert_eq!(Sudoku::read_board(b"").unwrap_err(), ReadError::UnexpectedEnd);
    let text = &SOLVED.as_bytes()[..85];
    assert_eq!(Sudoku::read_board(text).unwrap_err(), ReadError::UnexpectedEnd);
}

#[test]
fn read_board_reports_a_missing_newline() {
    let text = SOLVED.replacen("534678912\n", "5346789123", 1);
    assert_eq!(Sudoku::read_board(text.as_bytes()).unwrap_err(), ReadError::ExpectedNewline);
}

#[test]
fn read_board_reports_an_invalid_digit() {
    let text = SOLVED.replacen("672195348", "67219x34y", 1);
    assert_eq!(Sudoku::read_board(text.as_bytes()).unwrap_err(), ReadError::InvalidDigit('x'));
}

#[test]
fn read_board_places_the_digits() {
    let b = board(SOLVED);
    assert_eq!(b.digit_at((0, 0)), 5);
    assert_eq!(b.digit_at((8, 8)), 9);
    assert_eq!(b.digit_at((4, 2)), 6);
    assert_eq!(b.empty_count(), 0);
}

#[test]
fn text_round_trip() {
    let text = "\
003020600
900305001
001806400
008102900
700000008
006708200
002609500
800203009
005010300
";
    let b = board(text);
    assert_eq!(b.to_text(), text.as_bytes().to_vec());
    assert_eq!(b.empty_count(), 49);
}

#[test]
fn tile_starts_empty_with_every_digit() {
    let t = Tile::default();
    assert!(t.is_empty());
    assert_eq!(t.value(), None);
    assert_eq!(t.candidate_count(), 9);
    assert_eq!(t.candidates(), vec![1, 2, 3, 4, 5, 6, 7, 8, 9]);
    assert_eq!(t.first_candidate(), Some(1));
}

#[test]
fn tile_mark_unavailable_is_idempotent() {
    let mut t = Tile::default();
    t.mark_unavailable(1);
    assert_eq!(t.candidate_count(), 8);
    t.mark_unavailable(1);
    assert_eq!(t.candidate_count(), 8);
    t.mark_unavailable(5);
    assert_eq!(t.candidate_count(), 7);
    assert_eq!(t.candidates(), vec![2, 3, 4, 6, 7, 8, 9]);
    assert_eq!(t.first_candidate(), Some(2));
    for d in 2..=9 {
        t.mark_unavailable(d);
    }
    assert_eq!(t.candidate_count(), 0);
    assert_eq!(t.first_candidate(), None);
    assert!(t.candidates().is_empty());
}

#[test]
fn tile_set_fills_it() {
    let mut t = Tile::default();
    t.set(7);
    assert!(!t.is_empty());
    assert_eq!(t.value(), Some(7));
    t.mark_unavailable(3);
    assert_eq!(t.candidate_count(), 9);
    let mut u = Tile::default();
    u.set(7);
    assert_eq!(t, u);
    assert_ne!(t, Tile::default());
}

#[test]
fn place_closes_the_digit_on_peers() {
    let mut b = Sudoku::default();
    b.place((4, 4), 5);
    // Row, column and box of (4, 4): 5 is closed there; elsewhere it is open.
    let mut c = b.clone();
    assert!(c.solve().is_ok());
    assert_eq!(c.digit_at((4, 4)), 5);
    for i in 0..9 {
        if i != 4 {
            assert_ne!(c.digit_at((4, i)), 5);
            assert_ne!(c.digit_at((i, 4)), 5);
        }
    }
    assert!(is_filled_and_valid(&c));
}
