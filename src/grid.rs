//! The mathematical model of a 9x9 grid: cell positions, the units (rows,
//! columns and boxes) a cell belongs to, and what it means for a grid to be
//! valid, complete and a solution of another grid.
//!
//! A grid is a `Seq<u8>` of 81 cell values in row-major order, where 0 marks
//! an empty cell and 1 to 9 a filled one.
use vstd::prelude::*;

verus! {

/// The width and height of a single box, in cells.
pub const BOX_SIZE: usize = 3;

/// The width and height of the whole board, in cells.
pub const BOARD_SIZE: usize = 9;

/// The number of cells on the board.
pub const NUM_CELLS: usize = 81;

pub open spec fn is_cell(i: int) -> bool {
    0 <= i < 81
}

pub open spec fn is_digit(d: int) -> bool {
    1 <= d <= 9
}

pub open spec fn row_of(i: int) -> int {
    i / 9
}

pub open spec fn col_of(i: int) -> int {
    i % 9
}

/// The box of a cell, numbered 0 to 8 in row-major order.
pub open spec fn box_of(i: int) -> int {
    (row_of(i) / 3) * 3 + col_of(i) / 3
}

/// The index of the cell at (row, col).
pub open spec fn cell_at(row: int, col: int) -> int {
    row * 9 + col
}

/// Two distinct cells that share a row, a column or a box.
pub open spec fn peers(i: int, j: int) -> bool {
    i != j && (row_of(i) == row_of(j) || col_of(i) == col_of(j) || box_of(i) == box_of(j))
}

/// The `k`-th cell of the row of `p`.
pub open spec fn row_cell(p: int, k: int) -> int {
    cell_at(row_of(p), k)
}

/// The `k`-th cell of the column of `p`.
pub open spec fn col_cell(p: int, k: int) -> int {
    cell_at(k, col_of(p))
}

/// The `k`-th cell, in row-major order, of the box of `p`.
pub open spec fn box_cell(p: int, k: int) -> int {
    cell_at((row_of(p) / 3) * 3 + k / 3, (col_of(p) / 3) * 3 + k % 3)
}

/// Cell `q` is one of the first `k` cells of some unit of `p`.
pub open spec fn in_units_upto(p: int, q: int, k: int) -> bool {
    exists|i: int| 0 <= i < k && (q == row_cell(p, i) || q == col_cell(p, i) || q == box_cell(p, i))
}

/// 81 cells, each empty or holding a digit.
pub open spec fn is_grid(g: Seq<u8>) -> bool {
    g.len() == 81 && forall|i: int| is_cell(i) ==> #[trigger] g[i] <= 9
}

/// Some peer of cell `i` holds digit `d`.
pub open spec fn conflicts(g: Seq<u8>, i: int, d: int) -> bool {
    exists|j: int| is_cell(j) && #[trigger] peers(i, j) && g[j] == d
}

/// No digit appears twice in a row, a column or a box.
pub open spec fn valid(g: Seq<u8>) -> bool {
    forall|i: int, j: int|
        is_cell(i) && is_cell(j) && #[trigger] peers(i, j) && g[i] != 0 ==> g[i] != g[j]
}

/// Every cell is filled.
pub open spec fn complete(g: Seq<u8>) -> bool {
    forall|i: int| is_cell(i) ==> #[trigger] g[i] != 0
}

/// `h` keeps every filled cell of `g`.
pub open spec fn extends(g: Seq<u8>, h: Seq<u8>) -> bool {
    g.len() == h.len() && forall|i: int| 0 <= i < g.len() && #[trigger] g[i] != 0 ==> h[i] == g[i]
}

/// `s` is a filled, valid grid that keeps every filled cell of `g`.
pub open spec fn is_solution(s: Seq<u8>, g: Seq<u8>) -> bool {
    is_grid(s) && complete(s) && valid(s) && extends(g, s)
}

pub open spec fn solvable(g: Seq<u8>) -> bool {
    exists|s: Seq<u8>| is_solution(s, g)
}

/// The number of empty cells.
pub open spec fn count_empty(g: Seq<u8>) -> nat
    decreases g.len(),
{
    if g.len() == 0 {
        0
    } else {
        count_empty(g.drop_last()) + if g.last() == 0 { 1nat } else { 0nat }
    }
}

pub proof fn lemma_cell_at(row: int, col: int)
    requires
        0 <= row < 9,
        0 <= col < 9,
    ensures
        is_cell(cell_at(row, col)),
        row_of(cell_at(row, col)) == row,
        col_of(cell_at(row, col)) == col,
{
}

/// The cells visited by the first `k` steps of a sweep over the units of `p`,
/// once `k` reaches 9, are `p` and its peers.
pub proof fn lemma_units_are_peers(p: int, q: int)
    requires
        is_cell(p),
        is_cell(q),
    ensures
        in_units_upto(p, q, 9) <==> (q == p || peers(p, q)),
{
    let r = row_of(p);
    let c = col_of(p);
    let qr = row_of(q);
    let qc = col_of(q);
    assert(q == cell_at(qr, qc));
    if q == p || peers(p, q) {
        if qr == r {
            assert(q == row_cell(p, qc));
        } else if qc == c {
            assert(q == col_cell(p, qr));
        } else {
            let k = (qr % 3) * 3 + qc % 3;
            assert(q == box_cell(p, k));
        }
    }
    if in_units_upto(p, q, 9) {
        let i = choose|i: int|
            0 <= i < 9 && (q == row_cell(p, i) || q == col_cell(p, i) || q == box_cell(p, i));
        if q == row_cell(p, i) {
            lemma_cell_at(r, i);
        } else if q == col_cell(p, i) {
            lemma_cell_at(i, c);
        } else {
            lemma_cell_at((r / 3) * 3 + i / 3, (c / 3) * 3 + i % 3);
        }
    }
}

/// Filling an empty cell with a digit that none of its peers holds keeps a
/// valid grid valid.
pub proof fn lemma_valid_fill(g: Seq<u8>, p: int, d: u8)
    requires
        g.len() == 81,
        is_cell(p),
        g[p] == 0,
        d != 0,
        !conflicts(g, p, d as int),
        valid(g),
    ensures
        valid(g.update(p, d)),
{
    let h = g.update(p, d);
    assert forall|i: int, j: int|
        is_cell(i) && is_cell(j) && #[trigger] peers(i, j) && h[i] != 0 implies h[i] != h[j] by {
        if i == p {
            assert(peers(p, j));
        } else if j == p {
            assert(peers(p, i));
            assert(g[i] != 0);
        } else {
            assert(g[i] != 0);
        }
    }
}

/// Holding `d` at cell `p` of `g` adds a conflict for `d` exactly at the
/// peers of `p`.
pub proof fn lemma_conflicts_fill(g: Seq<u8>, p: int, d: u8, q: int, e: int)
    requires
        g.len() == 81,
        is_cell(p),
        is_cell(q),
        g[p] == 0,
        is_digit(e),
    ensures
        conflicts(g.update(p, d), q, e) == (conflicts(g, q, e) || (e == d && peers(q, p))),
{
    let h = g.update(p, d);
    if conflicts(h, q, e) {
        let j = choose|j: int| is_cell(j) && #[trigger] peers(q, j) && h[j] == e;
        if j != p {
            assert(g[j] == e);
        }
    }
    if conflicts(g, q, e) {
        let j = choose|j: int| is_cell(j) && #[trigger] peers(q, j) && g[j] == e;
        assert(j != p);
        assert(h[j] == e);
    }
    if e == d && peers(q, p) {
        assert(h[p] == e);
    }
}

/// A grid in which some digit appears twice in a unit has no solution.
pub proof fn lemma_invalid_unsolvable(g: Seq<u8>)
    requires
        !valid(g),
    ensures
        !solvable(g),
{
    if solvable(g) {
        let s = choose|s: Seq<u8>| is_solution(s, g);
        let (i, j) = choose|i: int, j: int|
            is_cell(i) && is_cell(j) && #[trigger] peers(i, j) && g[i] != 0 && g[i] == g[j];
        assert(s[i] == g[i]);
        assert(s[j] == g[j]);
    }
}

/// A complete, valid grid is its own solution.
pub proof fn lemma_complete_solves_itself(g: Seq<u8>)
    requires
        is_grid(g),
        complete(g),
        valid(g),
    ensures
        is_solution(g, g),
{
}

/// Filling an empty cell of a grid that extends `g` still extends `g`.
pub proof fn lemma_extends_fill(g: Seq<u8>, h: Seq<u8>, p: int, d: u8)
    requires
        extends(g, h),
        0 <= p < h.len(),
        h[p] == 0,
    ensures
        extends(g, h.update(p, d)),
{
    assert forall|i: int| 0 <= i < g.len() && #[trigger] g[i] != 0 implies h.update(p, d)[i]
        == g[i] by {
        assert(h[i] == g[i]);
    }
}

/// Filling an empty cell lowers the number of empty cells by one.
pub proof fn lemma_count_empty_fill(g: Seq<u8>, i: int, d: u8)
    requires
        0 <= i < g.len(),
        g[i] == 0,
        d != 0,
    ensures
        count_empty(g.update(i, d)) + 1 == count_empty(g),
    decreases g.len(),
{
    let h = g.update(i, d);
    if i == g.len() - 1 {
        assert(h.drop_last() =~= g.drop_last());
    } else {
        assert(h.drop_last() =~= g.drop_last().update(i, d));
        lemma_count_empty_fill(g.drop_last(), i, d);
    }
}

/// A grid has no empty cell exactly when its count of empty cells is zero.
pub proof fn lemma_count_empty_zero(g: Seq<u8>)
    ensures
        (count_empty(g) == 0) <==> (forall|i: int| 0 <= i < g.len() ==> #[trigger] g[i] != 0),
    decreases g.len(),
{
    if g.len() > 0 {
        let h = g.drop_last();
        lemma_count_empty_zero(h);
        if count_empty(g) == 0 {
            assert forall|i: int| 0 <= i < g.len() implies #[trigger] g[i] != 0 by {
                if i < g.len() - 1 {
                    assert(h[i] == g[i]);
                }
            }
        }
        if forall|i: int| 0 <= i < g.len() ==> #[trigger] g[i] != 0 {
            assert forall|i: int| 0 <= i < h.len() implies #[trigger] h[i] != 0 by {
                assert(g[i] != 0);
            }
            assert(g[g.len() - 1] != 0);
        }
    }
}

/// Filling an empty cell of `g` gives a grid whose solutions all solve `g`.
pub proof fn lemma_solution_of_fill(s: Seq<u8>, g: Seq<u8>, i: int, d: u8)
    requires
        0 <= i < g.len(),
        g[i] == 0,
        is_solution(s, g.update(i, d)),
    ensures
        is_solution(s, g),
{
    let h = g.update(i, d);
    assert forall|j: int| 0 <= j < g.len() && #[trigger] g[j] != 0 implies s[j] == g[j] by {
        assert(h[j] == g[j]);
    }
}

/// A solution of `g` that holds `d` at an empty cell `i` solves `g` with
/// `d` filled in at `i`.
pub proof fn lemma_fill_of_solution(s: Seq<u8>, g: Seq<u8>, i: int, d: u8)
    requires
        0 <= i < g.len(),
        is_solution(s, g),
        s[i] == d,
    ensures
        is_solution(s, g.update(i, d)),
{
    let h = g.update(i, d);
    assert forall|j: int| 0 <= j < h.len() && #[trigger] h[j] != 0 implies s[j] == h[j] by {
        if j != i {
            assert(g[j] == h[j]);
        }
    }
}

/// The digit that a solution holds at an empty cell does not conflict with
/// the filled cells of the grid it solves.
pub proof fn lemma_solution_no_conflict(s: Seq<u8>, g: Seq<u8>, i: int)
    requires
        is_cell(i),
        is_solution(s, g),
    ensures
        is_digit(s[i] as int),
        !conflicts(g, i, s[i] as int),
{
    assert(s[i] != 0 && s[i] <= 9);
    if conflicts(g, i, s[i] as int) {
        let j = choose|j: int| is_cell(j) && #[trigger] peers(i, j) && g[j] == s[i];
        assert(s[j] == g[j]);
        assert(peers(i, j));
    }
}

} // verus!
