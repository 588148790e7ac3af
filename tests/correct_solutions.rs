use sudoku::text::TEXT_LEN;
use sudoku::{ReadError, Sudoku};

fn read_all_boards(data: &[u8]) -> Vec<Sudoku> {
    let mut boards = Vec::new();
    let mut offset = 0;
    loop {
        match Sudoku::read_board(&data[offset..]) {
            Ok(board) => {
                boards.push(board);
                offset += TEXT_LEN;
            }
            Err(ReadError::UnexpectedEnd) if offset == data.len() => break,
            Err(err) => panic!("Error reading sudoku board: {:?}", err),
        }
    }
    boards
}

fn test_and_check(test_set: &str, solutions: &str) {
    let test_set = read_all_boards(test_set.as_bytes());
    let solutions = read_all_boards(solutions.as_bytes());
    assert_eq!(test_set.len(), solutions.len(), "Test set and solutions mismatch");
    for (i, (test_board, solution)) in test_set.into_iter().zip(solutions).enumerate() {
        assert!(solution.is_complete_board(), "Solution was not a solution for #{}", i + 1);
        let mut test_board = test_board;
        let test_copy = test_board.clone();
        test_board
            .solve()
            .map_err(|_| format!("Unable to solve #{}.\nTest board:\n{:?}", i + 1, test_copy))
            .unwrap();
        assert_eq!(test_board, solution, "\n#{} did not result in the correct solution", i + 1);
    }
}

const EASY: &str = "\
530070000
600195000
098000060
800060003
400803001
700020006
060000280
000419005
000080079
003020600
900305001
001806400
008102900
700000008
006708200
002609500
800203009
005010300
";

const EASY_SOLUTIONS: &str = "\
534678912
672195348
198342567
859761423
426853791
713924856
961537284
287419635
345286179
483921657
967345821
251876493
548132976
729564138
136798245
372689514
814253769
695417382
";

const HARD: &str = "\
400000805
030000000
000700000
020000060
000080400
000010000
000603070
500200000
104000000
800000000
003600000
070090200
050007000
000045700
000100030
001000068
008500010
090000400
";

const HARD_SOLUTIONS: &str = "\
417369825
632158947
958724316
825437169
791586432
346912758
289643571
573291684
164875293
812753649
943682175
675491283
154237896
369845721
287169534
521974368
438526917
796318452
";

#[test]
fn easy() {
    test_and_check(EASY, EASY_SOLUTIONS);
}

#[test]
fn hard95() {
    test_and_check(HARD, HARD_SOLUTIONS);
}
