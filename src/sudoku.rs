//! The board: 81 tiles and the number of empty ones, with placement,
//! constraint propagation and backtracking search.
use vstd::prelude::*;

use crate::grid::{
    box_cell, cell_at, col_cell, complete, conflicts, count_empty, extends, in_units_upto,
    is_cell, is_digit, is_grid, is_solution, lemma_cell_at, lemma_complete_solves_itself,
    lemma_conflicts_fill, lemma_count_empty_fill, lemma_count_empty_zero, lemma_extends_fill,
    lemma_fill_of_solution, lemma_invalid_unsolvable, lemma_solution_no_conflict,
    lemma_solution_of_fill, lemma_units_are_peers, lemma_valid_fill, peers, row_cell, solvable,
    valid, BOARD_SIZE, BOX_SIZE, NUM_CELLS,
};
use crate::tile::Tile;

verus! {

/// What a pass of propagation leaves of `before`: a well-formed board that
/// keeps its filled cells, has no more empty cells and the same solutions,
/// stays valid if it was, and has no naked single left. A board without a
/// naked single is left as it is.
pub open spec fn propagates_to(before: Sudoku, after: Sudoku) -> bool {
    &&& after.wf()
    &&& extends(before@, after@)
    &&& count_empty(after@) <= count_empty(before@)
    &&& forall|s: Seq<u8>| is_solution(s, before@) <==> #[trigger] is_solution(s, after@)
    &&& valid(before@) ==> valid(after@)
    &&& !after.has_naked_single()
    &&& !before.has_naked_single() ==> after == before
}

/// Propagation is idempotent: a second pass over what a first pass left
/// fills no cell and changes nothing.
pub proof fn law_propagate_twice(first: Sudoku, second: Sudoku, third: Sudoku)
    requires
        first.wf(),
        propagates_to(first, second),
        propagates_to(second, third),
    ensures
        third == second,
        third@ == second@,
{
}

/// The one way in which solving can fail.
#[derive(Debug, Clone, Copy, PartialEq, Eq, Structural)]
pub enum SolverError {
    /// The board has no valid completion.
    NoSolution,
}

/// A 9x9 board: the tiles in row-major order and the number of empty ones.
#[derive(Debug, Clone, Copy, Eq)]
pub struct Sudoku {
    /// The tiles in row-major order: the tile at (row, col) is at `row * 9 + col`.
    tiles: [Tile; NUM_CELLS],
    /// The number of empty tiles.
    empty_tiles: usize,
}

impl View for Sudoku {
    type V = Seq<u8>;

    /// The digits on the board, row-major, 0 for an empty cell.
    closed spec fn view(&self) -> Seq<u8> {
        Seq::new(81, |i: int| self.tiles@[i].digit())
    }
}

impl Sudoku {
    /// The board's invariant: every tile is well formed, `empty_tiles` counts
    /// the empty cells, and the digits open to an empty cell are exactly those
    /// that none of its peers holds.
    pub closed spec fn wf(&self) -> bool {
        &&& forall|i: int| is_cell(i) ==> #[trigger] self.tiles@[i].wf()
        &&& self.empty_tiles == count_empty(self@)
        &&& forall|i: int, d: int|
            is_cell(i) && is_digit(d) && self.tiles@[i].digit() == 0 ==> (#[trigger] self.tiles@[
                i
            ].allows(d) <==> !conflicts(self@, i, d))
    }

    /// The number of digits open to the tile at cell `i`.
    pub closed spec fn open_count(&self, i: int) -> nat {
        self.tiles@[i].count()
    }

    /// Some empty cell has a single digit open to it.
    pub open spec fn has_naked_single(&self) -> bool {
        exists|i: int| is_cell(i) && self@[i] == 0 && #[trigger] self.open_count(i) == 1
    }

    proof fn lemma_view(&self)
        requires
            forall|i: int| is_cell(i) ==> #[trigger] self.tiles@[i].wf(),
        ensures
            is_grid(self@),
            forall|i: int| is_cell(i) ==> #[trigger] self@[i] == self.tiles@[i].digit(),
    {
        assert forall|i: int| is_cell(i) implies #[trigger] self@[i] <= 9 by {
            self.tiles@[i].lemma_digit();
        }
    }

    /// A well-formed board holds 81 cells, each empty or a digit.
    pub proof fn lemma_grid(&self)
        requires
            self.wf(),
        ensures
            is_grid(self@),
    {
        self.lemma_view();
    }

    /// Closes `value` on the tile at cell `q`.
    fn mark_tile(&mut self, q: usize, value: u8)
        requires
            q < 81,
            1 <= value <= 9,
            old(self).tiles@[q as int].wf(),
        ensures
            final(self).empty_tiles == old(self).empty_tiles,
            final(self).tiles@.len() == 81,
            forall|j: int| 0 <= j < 81 && j != q ==> final(self).tiles@[j] == old(self).tiles@[j],
            final(self).tiles@[q as int].wf(),
            final(self).tiles@[q as int].digit() == old(self).tiles@[q as int].digit(),
            old(self).tiles@[q as int].digit() == 0 ==> forall|d: int|
                #[trigger] final(self).tiles@[q as int].allows(d) == (old(
                    self,
                ).tiles@[q as int].allows(d) && d != value),
    {
        let mut t = self.tiles[q];
        t.mark_unavailable(value);
        self.tiles[q] = t;
    }

    /// Places `value` on the empty tile at `pos` (row, column), and closes
    /// `value` on every tile of the same row, column and box.
    pub fn place(&mut self, pos: (usize, usize), value: u8)
        requires
            old(self).wf(),
            pos.0 < 9,
            pos.1 < 9,
            1 <= value <= 9,
            old(self)@[cell_at(pos.0 as int, pos.1 as int)] == 0,
        ensures
            final(self).wf(),
            final(self)@ == old(self)@.update(cell_at(pos.0 as int, pos.1 as int), value),
            count_empty(final(self)@) + 1 == count_empty(old(self)@),
    {
        let (row, col) = pos;
        let p: usize = row * BOARD_SIZE + col;
        let ghost old_tiles = self.tiles@;
        let ghost old_view = self@;
        proof {
            lemma_cell_at(row as int, col as int);
            self.lemma_view();
            lemma_count_empty_fill(old_view, p as int, value);
        }
        self.empty_tiles = self.empty_tiles - 1;
        let mut t = self.tiles[p];
        t.set(value);
        self.tiles[p] = t;

        // The first row and column of this tile's box
        let box_row_start: usize = (row / BOX_SIZE) * BOX_SIZE;
        let box_col_start: usize = (col / BOX_SIZE) * BOX_SIZE;
        let mut i: usize = 0;
        while i < BOARD_SIZE
            invariant
                i <= 9,
                row < 9,
                col < 9,
                p == cell_at(row as int, col as int),
                box_row_start == (row / 3) * 3,
                box_col_start == (col / 3) * 3,
                1 <= value <= 9,
                self.tiles@.len() == 81,
                self.empty_tiles + 1 == count_empty(old_view),
                forall|q: int| is_cell(q) ==> #[trigger] self.tiles@[q].wf(),
                forall|q: int|
                    is_cell(q) ==> #[trigger] self.tiles@[q].digit() == if q == p {
                        value
                    } else {
                        old_tiles[q].digit()
                    },
                forall|q: int, e: int|
                    is_cell(q) && q != p && old_tiles[q].digit() == 0 ==> #[trigger] self.tiles@[
                        q
                    ].allows(e) == (old_tiles[q].allows(e) && !(e == value && in_units_upto(
                        p as int,
                        q,
                        i as int,
                    ))),
            decreases 9 - i,
        {
            let a: usize = row * BOARD_SIZE + i;
            let b: usize = i * BOARD_SIZE + col;
            let c: usize = (box_row_start + i / BOX_SIZE) * BOARD_SIZE + box_col_start + i
                % BOX_SIZE;
            proof {
                lemma_cell_at(row as int, col as int);
                assert(a == row_cell(p as int, i as int));
                assert(b == col_cell(p as int, i as int));
                assert(c == box_cell(p as int, i as int));
            }
            let ghost before = self.tiles@;
            self.mark_tile(a, value);
            self.mark_tile(b, value);
            self.mark_tile(c, value);
            proof {
                assert forall|q: int, e: int|
                    is_cell(q) && q != p && old_tiles[q].digit() == 0 implies #[trigger] self.tiles@[
                    q
                ].allows(e) == (old_tiles[q].allows(e) && !(e == value && in_units_upto(
                    p as int,
                    q,
                    i + 1,
                ))) by {
                    assert(before[q].allows(e) == (old_tiles[q].allows(e) && !(e == value
                        && in_units_upto(p as int, q, i as int))));
                    if in_units_upto(p as int, q, i as int) {
                        let k = choose|k: int|
                            0 <= k < i && (q == row_cell(p as int, k) || q == col_cell(p as int, k)
                                || q == box_cell(p as int, k));
                        assert(0 <= k < i + 1 && (q == row_cell(p as int, k) || q == col_cell(
                            p as int,
                            k,
                        ) || q == box_cell(p as int, k)));
                    }
                    if q == a || q == b || q == c {
                        assert(in_units_upto(p as int, q, i + 1));
                    } else if in_units_upto(p as int, q, i + 1) {
                        let k = choose|k: int|
                            0 <= k < i + 1 && (q == row_cell(p as int, k) || q == col_cell(
                                p as int,
                                k,
                            ) || q == box_cell(p as int, k));
                        assert(k != i);
                    }
                }
            }
            i = i + 1;
        }
        proof {
            let g = old_view.update(p as int, value);
            assert(self@ =~= g);
            self.lemma_view();
            assert forall|q: int, e: int|
                is_cell(q) && is_digit(e) && self.tiles@[q].digit() == 0 implies (
                #[trigger] self.tiles@[q].allows(e) <==> !conflicts(self@, q, e)) by {
                lemma_units_are_peers(p as int, q);
                lemma_conflicts_fill(old_view, p as int, value, q, e);
                assert(old_tiles[q].digit() == old_view[q]);
                assert(old_tiles[q].allows(e) <==> !conflicts(old_view, q, e));
            }
        }
    }

    /// The digit at cell `q`, or 0 if it is empty.
    fn digit_of(&self, q: usize) -> (r: u8)
        requires
            self.wf(),
            q < 81,
        ensures
            r == self@[q as int],
    {
        match self.tiles[q].value() {
            Some(v) => v,
            None => 0,
        }
    }

    /// The digit at `pos` (row, column), or 0 if that cell is empty.
    pub fn digit_at(&self, pos: (usize, usize)) -> (r: u8)
        requires
            self.wf(),
            pos.0 < 9,
            pos.1 < 9,
        ensures
            r == self@[cell_at(pos.0 as int, pos.1 as int)],
    {
        self.digit_of(pos.0 * BOARD_SIZE + pos.1)
    }

    /// The number of empty cells.
    pub fn empty_count(&self) -> (r: usize)
        requires
            self.wf(),
        ensures
            r == count_empty(self@),
    {
        self.empty_tiles
    }

    /// True when every cell holds a digit.
    pub fn is_complete_board(&self) -> (r: bool)
        requires
            self.wf(),
        ensures
            r == complete(self@),
    {
        proof {
            lemma_count_empty_zero(self@);
        }
        self.empty_tiles == 0
    }

    /// True when no digit appears twice in a row, a column or a box.
    pub fn is_valid(&self) -> (r: bool)
        requires
            self.wf(),
        ensures
            r == valid(self@),
    {
        proof {
            self.lemma_view();
        }
        let mut i: usize = 0;
        while i < NUM_CELLS
            invariant
                i <= 81,
                self.wf(),
                forall|a: int, b: int|
                    0 <= a < i && is_cell(b) && #[trigger] peers(a, b) && self@[a] != 0
                        ==> self@[a] != self@[b],
            decreases 81 - i,
        {
            let v = self.digit_of(i);
            if v != 0 {
                let row: usize = i / BOARD_SIZE;
                let col: usize = i % BOARD_SIZE;
                let box_row_start: usize = (row / BOX_SIZE) * BOX_SIZE;
                let box_col_start: usize = (col / BOX_SIZE) * BOX_SIZE;
                let mut k: usize = 0;
                while k < BOARD_SIZE
                    invariant
                        k <= 9,
                        i < 81,
                        row == i / 9,
                        col == i % 9,
                        box_row_start == (row / 3) * 3,
                        box_col_start == (col / 3) * 3,
                        self.wf(),
                        v == self@[i as int],
                        v != 0,
                        forall|q: int|
                            is_cell(q) && q != i && #[trigger] in_units_upto(i as int, q, k as int)
                                ==> self@[q] != v,
                    decreases 9 - k,
                {
                    let a: usize = row * BOARD_SIZE + k;
                    let b: usize = k * BOARD_SIZE + col;
                    let c: usize = (box_row_start + k / BOX_SIZE) * BOARD_SIZE + box_col_start
                        + k % BOX_SIZE;
                    proof {
                        assert(a == row_cell(i as int, k as int));
                        assert(b == col_cell(i as int, k as int));
                        assert(c == box_cell(i as int, k as int));
                        lemma_cell_at(row as int, k as int);
                        lemma_cell_at(k as int, col as int);
                        lemma_cell_at((row / 3 * 3 + k / 3) as int, (col / 3 * 3 + k % 3) as int);
                    }
                    if (a != i && self.digit_of(a) == v) || (b != i && self.digit_of(b) == v) || (c
                        != i && self.digit_of(c) == v) {
                        proof {
                            let q = if a != i && self@[a as int] == v {
                                a as int
                            } else if b != i && self@[b as int] == v {
                                b as int
                            } else {
                                c as int
                            };
                            assert(in_units_upto(i as int, q, 9));
                            lemma_units_are_peers(i as int, q);
                            assert(peers(i as int, q));
                        }
                        return false;
                    }
                    proof {
                        assert forall|q: int|
                            is_cell(q) && q != i && #[trigger] in_units_upto(
                                i as int,
                                q,
                                k + 1,
                            ) implies self@[q] != v by {
                            let j = choose|j: int|
                                0 <= j < k + 1 && (q == row_cell(i as int, j) || q == col_cell(
                                    i as int,
                                    j,
                                ) || q == box_cell(i as int, j));
                            if j < k {
                                assert(in_units_upto(i as int, q, k as int));
                            }
                        }
                    }
                    k = k + 1;
                }
                proof {
                    assert forall|b: int| is_cell(b) && #[trigger] peers(i as int, b) implies self@[
                        i as int
                    ] != self@[b] by {
                        lemma_units_are_peers(i as int, b);
                    }
                }
            }
            i = i + 1;
        }
        true
    }

    /// The first empty cell, in row-major order, with a single open digit.
    fn find_naked_single(&self) -> (r: Option<usize>)
        requires
            self.wf(),
        ensures
            r matches Some(q) ==> q < 81 && self@[q as int] == 0 && self.open_count(q as int) == 1,
            r is None ==> !self.has_naked_single(),
    {
        proof {
            self.lemma_view();
        }
        let mut i: usize = 0;
        while i < NUM_CELLS
            invariant
                i <= 81,
                self.wf(),
                forall|q: int| 0 <= q < i && self@[q] == 0 ==> #[trigger] self.open_count(q) != 1,
            decreases 81 - i,
        {
            if self.tiles[i].is_empty() && self.tiles[i].candidate_count() == 1 {
                return Some(i);
            }
            i = i + 1;
        }
        None
    }

    /// Fills naked singles until none is left: while some empty cell has a
    /// single open digit, places that digit on the first such cell in
    /// row-major order. Every fill is forced, so the board keeps exactly the
    /// solutions it had.
    pub fn propagate(&mut self)
        requires
            old(self).wf(),
        ensures
            propagates_to(*old(self), *final(self)),
    {
        let ghost start = *self;
        loop
            invariant
                self.wf(),
                start.wf(),
                extends(start@, self@),
                count_empty(self@) <= count_empty(start@),
                forall|s: Seq<u8>| is_solution(s, start@) <==> #[trigger] is_solution(s, self@),
                valid(start@) ==> valid(self@),
                !start.has_naked_single() ==> *self == start,
            ensures
                self.wf(),
                extends(start@, self@),
                count_empty(self@) <= count_empty(start@),
                forall|s: Seq<u8>| is_solution(s, start@) <==> #[trigger] is_solution(s, self@),
                valid(start@) ==> valid(self@),
                !self.has_naked_single(),
                !start.has_naked_single() ==> *self == start,
            decreases count_empty(self@),
        {
            match self.find_naked_single() {
                None => {
                    break ;
                },
                Some(q) => {
                    let ghost g = self@;
                    proof {
                        self.lemma_view();
                        self.tiles@[q as int].lemma_count();
                        self.tiles@[q as int].lemma_digit();
                        assert(self.has_naked_single());
                    }
                    let d = match self.tiles[q].first_candidate() {
                        Some(d) => d,
                        None => {
                            proof {
                                assert(false);
                            }
                            break ;
                        },
                    };
                    proof {
                        lemma_cell_at((q / 9) as int, (q % 9) as int);
                        assert(!conflicts(g, q as int, d as int));
                        assert forall|s: Seq<u8>| is_solution(s, g) implies is_solution(
                            s,
                            g.update(q as int, d),
                        ) by {
                            lemma_solution_no_conflict(s, g, q as int);
                            assert(self.tiles@[q as int].allows(s[q as int] as int));
                            lemma_fill_of_solution(s, g, q as int, d);
                        }
                        assert forall|s: Seq<u8>| is_solution(s, g.update(q as int, d)) implies is_solution(
                            s,
                            g,
                        ) by {
                            lemma_solution_of_fill(s, g, q as int, d);
                        }
                        if valid(g) {
                            lemma_valid_fill(g, q as int, d);
                        }
                        lemma_extends_fill(start@, g, q as int, d);
                    }
                    self.place((q / BOARD_SIZE, q % BOARD_SIZE), d);
                    proof {
                        assert(self@ == g.update(q as int, d));
                        assert forall|s: Seq<u8>| #[trigger]
                            is_solution(s, start@) <==> is_solution(s, self@) by {
                            assert(is_solution(s, start@) <==> is_solution(s, g));
                        }
                    }
                },
            }
        }
    }

    /// The empty cell with the fewest open digits, the first in row-major
    /// order among equals; an error when no cell is empty.
    fn min_possible_empty_tile(&self) -> (r: Result<(usize, usize), SolverError>)
        requires
            self.wf(),
        ensures
            r is Err <==> complete(self@),
            r matches Ok(pos) ==> {
                let p = cell_at(pos.0 as int, pos.1 as int);
                &&& pos.0 < 9
                &&& pos.1 < 9
                &&& self@[p] == 0
                &&& forall|q: int|
                    is_cell(q) && self@[q] == 0 ==> self.open_count(p) <= #[trigger] self.open_count(
                        q,
                    )
                &&& forall|q: int|
                    0 <= q < p && self@[q] == 0 ==> self.open_count(p) < #[trigger] self.open_count(
                        q,
                    )
            },
    {
        proof {
            self.lemma_view();
        }
        let mut best: Option<(usize, usize)> = None;
        let mut i: usize = 0;
        while i < NUM_CELLS
            invariant
                i <= 81,
                self.wf(),
                best is None ==> forall|q: int| 0 <= q < i ==> #[trigger] self@[q] != 0,
                best matches Some(b) ==> {
                    &&& b.0 < i
                    &&& self@[b.0 as int] == 0
                    &&& b.1 == self.open_count(b.0 as int)
                    &&& forall|q: int|
                        0 <= q < i && self@[q] == 0 ==> b.1 <= #[trigger] self.open_count(q)
                    &&& forall|q: int|
                        0 <= q < b.0 && self@[q] == 0 ==> b.1 < #[trigger] self.open_count(q)
                },
            decreases 81 - i,
        {
            if self.tiles[i].is_empty() {
                let count = self.tiles[i].candidate_count();
                match best {
                    None => {
                        best = Some((i, count));
                    },
                    Some((_, min)) => {
                        if count < min {
                            best = Some((i, count));
                        }
                    },
                }
            }
            i = i + 1;
        }
        match best {
            None => {
                proof {
                    assert forall|q: int| is_cell(q) implies #[trigger] self@[q] != 0 by {
                        assert(self@[q] != 0);
                    }
                }
                Err(SolverError::NoSolution)
            },
            Some((q, _)) => {
                proof {
                    lemma_cell_at((q / 9) as int, (q % 9) as int);
                }
                Ok((q / BOARD_SIZE, q % BOARD_SIZE))
            },
        }
    }

    /// Guesses each open digit of the empty cell with the fewest open digits
    /// in turn, in increasing order, and searches on a copy of the board with
    /// the guess placed. Adopts the first copy that is solved; the board is
    /// left as it was when every guess fails.
    fn guess_solve(&mut self) -> (r: Result<(), SolverError>)
        requires
            old(self).wf(),
            valid(old(self)@),
            !complete(old(self)@),
        ensures
            final(self).wf(),
            r is Ok <==> solvable(old(self)@),
            r is Ok ==> is_solution(final(self)@, old(self)@),
            r is Err ==> *final(self) == *old(self),
        decreases count_empty(old(self)@), 0nat,
    {
        let (min_row, min_col) = match self.min_possible_empty_tile() {
            Ok(pos) => pos,
            Err(e) => {
                return Err(e);
            },
        };
        let p: usize = min_row * BOARD_SIZE + min_col;
        proof {
            self.lemma_view();
            lemma_cell_at(min_row as int, min_col as int);
            self.tiles@[p as int].lemma_digit();
        }
        let possible_values = self.tiles[p].candidates();
        let ghost g = self@;
        let mut k: usize = 0;
        while k < possible_values.len()
            invariant
                k <= possible_values.len(),
                self.wf(),
                *self == *old(self),
                g == self@,
                p == cell_at(min_row as int, min_col as int),
                min_row < 9,
                min_col < 9,
                g[p as int] == 0,
                valid(g),
                forall|j: int|
                    0 <= j < possible_values.len() ==> #[trigger] self.tiles@[p as int].allows(
                        possible_values@[j] as int,
                    ),
                forall|j: int| 0 <= j < k ==> !solvable(#[trigger] g.update(p as int, possible_values@[j])),
            decreases possible_values.len() - k,
        {
            let guess = possible_values[k];
            proof {
                self.lemma_view();
                self.tiles@[p as int].lemma_digit();
                assert(self.tiles@[p as int].allows(guess as int));
                assert(!conflicts(g, p as int, guess as int));
                lemma_valid_fill(g, p as int, guess);
                lemma_count_empty_fill(g, p as int, guess);
            }
            let mut copy = self.clone();
            copy.place((min_row, min_col), guess);
            match copy.search() {
                Ok(()) => {
                    proof {
                        lemma_solution_of_fill(copy@, g, p as int, guess);
                    }
                    *self = copy;
                    return Ok(());
                },
                Err(_) => {},
            }
            k = k + 1;
        }
        proof {
            if solvable(g) {
                let s = choose|s: Seq<u8>| is_solution(s, g);
                lemma_solution_no_conflict(s, g, p as int);
                let e = s[p as int];
                assert(self.tiles@[p as int].allows(e as int));
                let j = choose|j: int| 0 <= j < possible_values.len() && possible_values@[j] == e;
                lemma_fill_of_solution(s, g, p as int, e);
                assert(!solvable(g.update(p as int, possible_values@[j])));
            }
        }
        Err(SolverError::NoSolution)
    }

    /// Propagates, then guesses if cells remain empty.
    fn search(&mut self) -> (r: Result<(), SolverError>)
        requires
            old(self).wf(),
            valid(old(self)@),
        ensures
            final(self).wf(),
            r is Ok <==> solvable(old(self)@),
            r is Ok ==> is_solution(final(self)@, old(self)@),
        decreases count_empty(old(self)@), 1nat,
    {
        let ghost g0 = self@;
        self.propagate();
        proof {
            if solvable(g0) {
                let s = choose|s: Seq<u8>| is_solution(s, g0);
                assert(is_solution(s, self@));
            }
            if solvable(self@) {
                let s = choose|s: Seq<u8>| is_solution(s, self@);
                assert(is_solution(s, g0));
            }
        }
        if self.is_complete_board() {
            proof {
                self.lemma_view();
                lemma_complete_solves_itself(self@);
            }
            return Ok(());
        }
        let ghost g = self@;
        let r = self.guess_solve();
        proof {
            if r is Ok {
                assert(is_solution(self@, g));
            }
        }
        r
    }

    /// Solves the board: fills every empty cell so that no digit appears
    /// twice in a row, a column or a box, keeping the digits already placed.
    /// Fails with `NoSolution`, leaving the board as it was, when there is no
    /// such completion; a board on which some digit already appears twice in
    /// a unit is one of those.
    pub fn solve(&mut self) -> (r: Result<(), SolverError>)
        requires
            old(self).wf(),
        ensures
            final(self).wf(),
            r is Ok <==> solvable(old(self)@),
            r is Ok ==> is_solution(final(self)@, old(self)@),
            r is Err ==> *final(self) == *old(self),
    {
        if !self.is_valid() {
            proof {
                lemma_invalid_unsolvable(self@);
            }
            return Err(SolverError::NoSolution);
        }
        let mut work = self.clone();
        match work.search() {
            Ok(()) => {
                *self = work;
                Ok(())
            },
            Err(e) => Err(e),
        }
    }
}

impl Default for Sudoku {
    /// An empty board, with every digit open to every tile.
    fn default() -> (r: Self)
        ensures
            r.wf(),
            r@ == Seq::new(81, |i: int| 0u8),
    {
        let t = Tile::default();
        let tiles: [Tile; NUM_CELLS] = [t; NUM_CELLS];
        proof {
            assert forall|i: int| 0 <= i < 81 implies #[trigger] tiles@[i] == t by {
                assert(tiles == vstd::array::spec_array_fill_for_copy_type::<Tile, 81>(t));
                assert(tiles@[i] == t);
            }
        }
        let b = Sudoku { tiles, empty_tiles: 81 };
        proof {
            let z = Seq::new(81, |i: int| 0u8);
            assert forall|i: int| 0 <= i < 81 implies #[trigger] b@[i] == z[i] by {
                assert(b.tiles@[i] == t);
            }
            assert(b@ =~= z);
            lemma_count_empty_zero_grid();
            assert forall|i: int, d: int|
                is_cell(i) && is_digit(d) && b.tiles@[i].digit() == 0 implies (
                #[trigger] b.tiles@[i].allows(d) <==> !conflicts(b@, i, d)) by {
                if conflicts(b@, i, d) {
                    let j = choose|j: int| is_cell(j) && #[trigger] peers(i, j) && b@[j] == d;
                    assert(b@[j] == 0);
                }
            }
        }
        b
    }
}

impl PartialEq for Sudoku {
    /// Two boards are equal when they hold the same digits in the same cells.
    fn eq(&self, other: &Self) -> (r: bool)
        ensures
            r == (self@ == other@),
    {
        let mut i: usize = 0;
        while i < NUM_CELLS
            invariant
                i <= 81,
                forall|j: int| 0 <= j < i ==> self@[j] == other@[j],
            decreases 81 - i,
        {
            if self.tiles[i] != other.tiles[i] {
                proof {
                    assert(self@[i as int] != other@[i as int]);
                }
                return false;
            }
            i = i + 1;
        }
        proof {
            assert(self@ =~= other@);
        }
        true
    }
}

impl vstd::std_specs::cmp::PartialEqSpecImpl for Sudoku {
    open spec fn obeys_eq_spec() -> bool {
        true
    }

    open spec fn eq_spec(&self, other: &Sudoku) -> bool {
        self@ == other@
    }
}

proof fn lemma_count_empty_zero_grid()
    ensures
        count_empty(Seq::new(81, |i: int| 0u8)) == 81,
{
    lemma_count_empty_all(Seq::new(81, |i: int| 0u8));
}

proof fn lemma_count_empty_all(g: Seq<u8>)
    requires
        forall|i: int| 0 <= i < g.len() ==> #[trigger] g[i] == 0,
    ensures
        count_empty(g) == g.len(),
    decreases g.len(),
{
    if g.len() > 0 {
        lemma_count_empty_all(g.drop_last());
    }
}

} // verus!
