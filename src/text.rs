//! The textual form of a board: 9 lines of 9 ASCII digits, each line ended by
//! a newline, with `0` for an empty cell.
use vstd::prelude::*;

use crate::grid::{cell_at, col_of, is_grid, lemma_cell_at, row_of, BOARD_SIZE};
use crate::sudoku::Sudoku;

verus! {

/// The number of bytes of one board in its textual form.
pub const TEXT_LEN: usize = 90;

/// The ASCII code of `'\n'`.
const NEWLINE: u8 = 10;

/// The ASCII code of `'0'`.
const DIGIT_ZERO: u8 = 48;

/// The ASCII code of `'9'`.
const DIGIT_NINE: u8 = 57;

/// Why a board could not be read.
#[derive(Debug, Clone, Copy, PartialEq, Eq, Structural)]
pub enum ReadError {
    /// The input ended before the 9 lines of a board.
    UnexpectedEnd,
    /// A line of 9 characters was not followed by a newline.
    ExpectedNewline,
    /// A character of a line was not an ASCII digit.
    InvalidDigit(char),
}

pub open spec fn is_ascii_digit(b: u8) -> bool {
    48 <= b <= 57
}

/// The position in the text of the cell at (row, col).
pub open spec fn text_pos(row: int, col: int) -> int {
    row * 10 + col
}

/// The first byte, from column `col` on, of line `row` that is not an ASCII
/// digit.
pub open spec fn first_non_digit(t: Seq<u8>, row: int, col: int) -> Option<u8>
    decreases 9 - col,
{
    if col >= 9 {
        None
    } else if !is_ascii_digit(t[text_pos(row, col)]) {
        Some(t[text_pos(row, col)])
    } else {
        first_non_digit(t, row, col + 1)
    }
}

/// The error that line `row` gives, if any.
pub open spec fn line_error(t: Seq<u8>, row: int) -> Option<ReadError> {
    if t.len() < text_pos(row + 1, 0) {
        Some(ReadError::UnexpectedEnd)
    } else if t[text_pos(row, 9)] != 10 {
        Some(ReadError::ExpectedNewline)
    } else {
        match first_non_digit(t, row, 0) {
            Some(b) => Some(ReadError::InvalidDigit(b as char)),
            None => None,
        }
    }
}

/// The first error given by the lines from `row` on, if any.
pub open spec fn read_error(t: Seq<u8>, row: int) -> Option<ReadError>
    decreases 9 - row,
{
    if row >= 9 {
        None
    } else {
        match line_error(t, row) {
            Some(e) => Some(e),
            None => read_error(t, row + 1),
        }
    }
}

/// The grid that a well-formed text describes.
pub open spec fn text_grid(t: Seq<u8>) -> Seq<u8> {
    Seq::new(81, |i: int| (t[text_pos(row_of(i), col_of(i))] - 48) as u8)
}

/// The textual form of a grid.
pub open spec fn grid_text(g: Seq<u8>) -> Seq<u8> {
    Seq::new(
        90,
        |k: int|
            if k % 10 == 9 {
                10u8
            } else {
                (g[cell_at(k / 10, k % 10)] + 48) as u8
            },
    )
}

proof fn lemma_first_non_digit(t: Seq<u8>, row: int, col: int)
    requires
        0 <= row < 9,
        0 <= col <= 9,
        t.len() >= text_pos(row + 1, 0),
        forall|c: int| 0 <= c < col ==> is_ascii_digit(#[trigger] t[text_pos(row, c)]),
    ensures
        first_non_digit(t, row, 0) == first_non_digit(t, row, col),
    decreases col,
{
    if col > 0 {
        lemma_first_non_digit(t, row, col - 1);
    }
}

proof fn lemma_read_error(t: Seq<u8>, row: int)
    requires
        0 <= row <= 9,
        forall|r: int| 0 <= r < row ==> #[trigger] line_error(t, r) is None,
    ensures
        read_error(t, 0) == read_error(t, row),
    decreases row,
{
    if row > 0 {
        lemma_read_error(t, row - 1);
    }
}

proof fn lemma_digits_of_text(t: Seq<u8>, row: int)
    requires
        0 <= row < 9,
        t.len() >= text_pos(row + 1, 0),
        forall|c: int| 0 <= c < 9 ==> is_ascii_digit(#[trigger] t[text_pos(row, c)]),
    ensures
        first_non_digit(t, row, 0) is None,
{
    lemma_first_non_digit(t, row, 9);
}

/// The text of a grid reads back as that grid.
pub proof fn lemma_text_round_trip(g: Seq<u8>)
    requires
        is_grid(g),
    ensures
        read_error(grid_text(g), 0) is None,
        text_grid(grid_text(g)) == g,
{
    let t = grid_text(g);
    assert forall|r: int| 0 <= r < 9 implies #[trigger] line_error(t, r) is None by {
        assert forall|c: int| 0 <= c < 9 implies is_ascii_digit(#[trigger] t[text_pos(r, c)]) by {
            lemma_cell_at(r, c);
            assert(g[cell_at(r, c)] <= 9);
        }
        lemma_digits_of_text(t, r);
    }
    lemma_read_error(t, 9);
    assert forall|i: int| 0 <= i < 81 implies #[trigger] text_grid(t)[i] == g[i] by {
        lemma_cell_at(row_of(i), col_of(i));
        assert(g[i] <= 9);
    }
    assert(text_grid(t) =~= g);
}

impl Sudoku {
    /// Reads a board from the first 90 bytes of `input`: 9 lines of 9 ASCII
    /// digits, each ended by a newline, where `0` is an empty cell and any
    /// other digit is placed. The lines are checked in order; within a line
    /// the newline is checked before the digits.
    pub fn read_board(input: &[u8]) -> (r: Result<Sudoku, ReadError>)
        ensures
            r matches Ok(b) ==> read_error(input@, 0) is None && b.wf() && b@ == text_grid(
                input@,
            ),
            r matches Err(e) ==> read_error(input@, 0) == Some(e),
    {
        let mut board = Sudoku::default();
        let ghost t = input@;
        let mut row: usize = 0;
        while row < BOARD_SIZE
            invariant
                row <= 9,
                t == input@,
                board.wf(),
                forall|r: int| 0 <= r < row ==> #[trigger] line_error(t, r) is None,
                forall|r: int, c: int|
                    0 <= r < row && 0 <= c < 9 ==> is_ascii_digit(#[trigger] t[text_pos(r, c)]),
                forall|i: int|
                    0 <= i < 81 ==> #[trigger] board@[i] == if i < row * 9 {
                        (t[text_pos(row_of(i), col_of(i))] - 48) as u8
                    } else {
                        0u8
                    },
            decreases 9 - row,
        {
            let start: usize = row * 10;
            if input.len() < start + 10 {
                proof {
                    lemma_read_error(t, row as int);
                }
                return Err(ReadError::UnexpectedEnd);
            }
            if input[start + 9] != NEWLINE {
                proof {
                    lemma_read_error(t, row as int);
                }
                return Err(ReadError::ExpectedNewline);
            }
            let mut col: usize = 0;
            while col < BOARD_SIZE
                invariant
                    row < 9,
                    col <= 9,
                    start == row * 10,
                    t == input@,
                    t.len() >= start + 10,
                    t[start + 9] == 10,
                    board.wf(),
                    forall|r: int| 0 <= r < row ==> #[trigger] line_error(t, r) is None,
                    forall|r: int, c: int|
                        0 <= r < row && 0 <= c < 9 ==> is_ascii_digit(
                            #[trigger] t[text_pos(r, c)],
                        ),
                    forall|c: int| 0 <= c < col ==> is_ascii_digit(#[trigger] t[text_pos(row as int, c)]),
                    forall|i: int|
                        0 <= i < 81 ==> #[trigger] board@[i] == if i < row * 9 + col {
                            (t[text_pos(row_of(i), col_of(i))] - 48) as u8
                        } else {
                            0u8
                        },
                decreases 9 - col,
            {
                let value = input[start + col];
                proof {
                    lemma_cell_at(row as int, col as int);
                    board.lemma_grid();
                }
                if value < DIGIT_ZERO || value > DIGIT_NINE {
                    proof {
                        lemma_first_non_digit(t, row as int, col as int);
                        lemma_read_error(t, row as int);
                    }
                    return Err(ReadError::InvalidDigit(value as char));
                }
                // Only place the tile if the value is not zero
                if value != DIGIT_ZERO {
                    let ghost before = board@;
                    board.place((row, col), value - DIGIT_ZERO);
                    proof {
                        board.lemma_grid();
                        assert forall|i: int| 0 <= i < 81 implies #[trigger] board@[i] == if i < row
                            * 9 + col + 1 {
                            (t[text_pos(row_of(i), col_of(i))] - 48) as u8
                        } else {
                            0u8
                        } by {
                            if i == row * 9 + col {
                                assert(t[text_pos(row_of(i), col_of(i))] == value);
                                assert(board@[i] == value - 48);
                            }
                            assert(before[i] == if i < row * 9 + col {
                                (t[text_pos(row_of(i), col_of(i))] - 48) as u8
                            } else {
                                0u8
                            });
                        }
                    }
                } else {
                    proof {
                        assert forall|i: int| 0 <= i < 81 implies #[trigger] board@[i] == if i < row
                            * 9 + col + 1 {
                            (t[text_pos(row_of(i), col_of(i))] - 48) as u8
                        } else {
                            0u8
                        } by {
                            if i == row * 9 + col {
                                assert(board@[i] == 0);
                            }
                        }
                    }
                }
                col = col + 1;
            }
            proof {
                lemma_digits_of_text(t, row as int);
            }
            row = row + 1;
        }
        proof {
            lemma_read_error(t, 9);
            assert forall|i: int| 0 <= i < 81 implies #[trigger] board@[i] == text_grid(t)[i] by {
                assert(board@[i] == (t[text_pos(row_of(i), col_of(i))] - 48) as u8);
            }
            board.lemma_grid();
            assert(board@ =~= text_grid(t));
        }
        Ok(board)
    }

    /// The board in its textual form.
    pub fn to_text(&self) -> (r: Vec<u8>)
        requires
            self.wf(),
        ensures
            r@ == grid_text(self@),
    {
        let mut r: Vec<u8> = Vec::new();
        let mut row: usize = 0;
        while row < BOARD_SIZE
            invariant
                row <= 9,
                self.wf(),
                r@ == grid_text(self@).take(row * 10),
            decreases 9 - row,
        {
            let mut col: usize = 0;
            while col < BOARD_SIZE
                invariant
                    row < 9,
                    col <= 9,
                    self.wf(),
                    r@ == grid_text(self@).take(row * 10 + col),
                decreases 9 - col,
            {
                let d = self.digit_at((row, col));
                proof {
                    self.lemma_grid();
                    lemma_cell_at(row as int, col as int);
                }
                r.push(d + DIGIT_ZERO);
                proof {
                    assert(r@ =~= grid_text(self@).take(row * 10 + col + 1));
                }
                col = col + 1;
            }
            r.push(NEWLINE);
            proof {
                assert(r@ =~= grid_text(self@).take(row * 10 + 10));
            }
            row = row + 1;
        }
        proof {
            assert(r@ =~= grid_text(self@));
        }
        r
    }
}

} // verus!
