//! Coordinate mapping and neighbour topology for the 9x9 grid.
//!
//! Cells are addressed by a linear index `idx = 9*row + column` in `[0, 81)`.
//! Two distinct cells are peers when they share a row, a column, or a 3x3 box;
//! every cell has exactly 20 peers.

use vstd::prelude::*;

verus! {

/// Row of a linear cell index.
pub open spec fn cell_row(idx: int) -> int {
    idx / 9
}

/// Column of a linear cell index.
pub open spec fn cell_col(idx: int) -> int {
    idx % 9
}

/// The two cells lie in the same row.
pub open spec fn same_row(a: int, b: int) -> bool {
    cell_row(a) == cell_row(b)
}

/// The two cells lie in the same column.
pub open spec fn same_col(a: int, b: int) -> bool {
    cell_col(a) == cell_col(b)
}

/// The two cells lie in the same 3x3 box.
pub open spec fn same_box(a: int, b: int) -> bool {
    cell_row(a) / 3 == cell_row(b) / 3 && cell_col(a) / 3 == cell_col(b) / 3
}

/// `a` constrains `b`: distinct cells sharing a row, column, or box.
/// The relation is irreflexive and symmetric.
pub open spec fn is_peer(a: int, b: int) -> bool {
    a != b && (same_row(a, b) || same_col(a, b) || same_box(a, b))
}

/// The `t`-th element of `0..9` (or of `0..3`) once position `s` is skipped.
pub open spec fn skip_at(s: int, t: int) -> int {
    if t < s {
        t
    } else {
        t + 1
    }
}

/// Maps a (row, column) pair to its linear index.
pub fn to_index(row: u8, column: u8) -> (idx: usize)
    requires
        row < 9,
        column < 9,
    ensures
        idx == 9 * row + column,
        idx < 81,
{
    9 * (row as usize) + (column as usize)
}

/// The mapping from (row, column) to `9*row + column` is a bijection
/// between `[0,9) x [0,9)` and `[0,81)`: two pairs collide exactly when
/// they are the same pair, and every index below 81 is reached.
pub proof fn lemma_to_index_bijective(r1: int, c1: int, r2: int, c2: int)
    requires
        0 <= r1 < 9,
        0 <= c1 < 9,
        0 <= r2 < 9,
        0 <= c2 < 9,
    ensures
        (9 * r1 + c1 == 9 * r2 + c2) <==> (r1 == r2 && c1 == c2),
        cell_row(9 * r1 + c1) == r1,
        cell_col(9 * r1 + c1) == c1,
{
}

/// The 9 indices of row `g`, as a specification value.
pub open spec fn row_group(g: int) -> Seq<usize> {
    Seq::new(9, |k: int| (9 * g + k) as usize)
}

/// The 9 indices of column `g`, as a specification value.
pub open spec fn column_group(g: int) -> Seq<usize> {
    Seq::new(9, |k: int| (9 * k + g) as usize)
}

/// The 9 indices of the `g`-th 3x3 box (row-major over boxes), as a
/// specification value.
pub open spec fn box_group(g: int) -> Seq<usize> {
    Seq::new(9, |k: int| (9 * (3 * (g / 3) + k / 3) + 3 * (g % 3) + k % 3) as usize)
}

/// The nine cells of a row constrain one another pairwise.
pub proof fn lemma_row_group_peers(g: int)
    requires
        0 <= g < 9,
    ensures
        forall|k: int| 0 <= k < 9 ==> (#[trigger] row_group(g)[k]) < 81,
        forall|k: int, l: int|
            0 <= k < l < 9 ==> is_peer(row_group(g)[k] as int, row_group(g)[l] as int),
{
    assert forall|k: int, l: int| 0 <= k < l < 9 implies is_peer(
        row_group(g)[k] as int,
        row_group(g)[l] as int,
    ) by {
        assert(row_group(g)[k] == (9 * g + k) as usize);
        assert(row_group(g)[l] == (9 * g + l) as usize);
        assert(cell_row(9 * g + k) == g && cell_row(9 * g + l) == g) by (nonlinear_arith)
            requires
                0 <= g < 9 && 0 <= k < 9 && 0 <= l < 9,
        ;
    }
}

/// The nine cells of a column constrain one another pairwise.
pub proof fn lemma_column_group_peers(g: int)
    requires
        0 <= g < 9,
    ensures
        forall|k: int| 0 <= k < 9 ==> (#[trigger] column_group(g)[k]) < 81,
        forall|k: int, l: int|
            0 <= k < l < 9 ==> is_peer(column_group(g)[k] as int, column_group(g)[l] as int),
{
    assert forall|k: int, l: int| 0 <= k < l < 9 implies is_peer(
        column_group(g)[k] as int,
        column_group(g)[l] as int,
    ) by {
        assert(column_group(g)[k] == (9 * k + g) as usize);
        assert(column_group(g)[l] == (9 * l + g) as usize);
        assert(cell_col(9 * k + g) == g && cell_col(9 * l + g) == g && cell_row(9 * k + g) == k
            && cell_row(9 * l + g) == l) by (nonlinear_arith)
            requires
                0 <= g < 9 && 0 <= k < 9 && 0 <= l < 9,
        ;
    }
}

/// The nine cells of a box constrain one another pairwise.
pub proof fn lemma_box_group_peers(g: int)
    requires
        0 <= g < 9,
    ensures
        forall|k: int| 0 <= k < 9 ==> (#[trigger] box_group(g)[k]) < 81,
        forall|k: int, l: int|
            0 <= k < l < 9 ==> is_peer(box_group(g)[k] as int, box_group(g)[l] as int),
{
    assert forall|k: int| 0 <= k < 9 implies (#[trigger] box_group(g)[k]) < 81 by {
        assert(box_group(g)[k] == (9 * (3 * (g / 3) + k / 3) + 3 * (g % 3) + k % 3) as usize);
        assert(9 * (3 * (g / 3) + k / 3) + 3 * (g % 3) + k % 3 < 81) by (nonlinear_arith)
            requires
                0 <= g < 9 && 0 <= k < 9,
        ;
    }
    assert forall|k: int, l: int| 0 <= k < l < 9 implies is_peer(
        box_group(g)[k] as int,
        box_group(g)[l] as int,
    ) by {
        let a = 9 * (3 * (g / 3) + k / 3) + 3 * (g % 3) + k % 3;
        let b = 9 * (3 * (g / 3) + l / 3) + 3 * (g % 3) + l % 3;
        assert(box_group(g)[k] == a as usize);
        assert(box_group(g)[l] == b as usize);
        assert(0 <= a < 81 && 0 <= b < 81 && a != b && cell_row(a) / 3 == g / 3 && cell_row(b) / 3
            == g / 3 && cell_col(a) / 3 == g % 3 && cell_col(b) / 3 == g % 3)
            by (nonlinear_arith)
            requires
                0 <= g < 9 && 0 <= k < l < 9 && a == 9 * (3 * (g / 3) + k / 3) + 3 * (g % 3) + k
                    % 3 && b == 9 * (3 * (g / 3) + l / 3) + 3 * (g % 3) + l % 3,
        ;
        assert(same_box(a, b));
    }
}

/// The 9 indices of a row, in increasing column order.
pub fn row_indexes(row: u8) -> (r: Vec<usize>)
    requires
        row < 9,
    ensures
        r@.len() == 9,
        forall|c: int| 0 <= c < 9 ==> r@[c] == 9 * row + c,
        r@ == row_group(row as int),
{
    let mut r: Vec<usize> = Vec::new();
    for c in 0..9usize
        invariant
            row < 9,
            r@.len() == c,
            forall|k: int| 0 <= k < c ==> r@[k] == 9 * row + k,
    {
        r.push(9 * (row as usize) + c);
    }
    proof {
        assert(r@ =~= row_group(row as int));
    }
    r
}

/// The 9 indices of a column, in increasing row order.
pub fn column_indexes(col: u8) -> (r: Vec<usize>)
    requires
        col < 9,
    ensures
        r@.len() == 9,
        forall|k: int| 0 <= k < 9 ==> r@[k] == 9 * k + col,
        r@ == column_group(col as int),
{
    let mut r: Vec<usize> = Vec::new();
    for i in 0..9usize
        invariant
            col < 9,
            r@.len() == i,
            forall|k: int| 0 <= k < i ==> r@[k] == 9 * k + col,
    {
        r.push(9 * i + (col as usize));
    }
    proof {
        assert(r@ =~= column_group(col as int));
    }
    r
}

/// The 9 indices of the 3x3 box at (`sq_row`, `sq_column`), each in `[0,3)`,
/// in row-major order within the box.
pub fn square_indexes(sq_row: u8, sq_column: u8) -> (r: Vec<usize>)
    requires
        sq_row < 3,
        sq_column < 3,
    ensures
        r@.len() == 9,
        forall|k: int| 0 <= k < 9 ==> r@[k] == 9 * (3 * sq_row + k / 3) + 3 * sq_column + k % 3,
        r@ == box_group(3 * sq_row + sq_column),
{
    let mut r: Vec<usize> = Vec::new();
    for k in 0..9usize
        invariant
            sq_row < 3,
            sq_column < 3,
            r@.len() == k,
            forall|j: int| 0 <= j < k ==> r@[j] == 9 * (3 * sq_row + j / 3) + 3 * sq_column + j
                % 3,
    {
        r.push(9 * (3 * (sq_row as usize) + k / 3) + 3 * (sq_column as usize) + k % 3);
    }
    proof {
        assert(r@ =~= box_group(3 * sq_row + sq_column));
    }
    r
}

/// The 20 cells that constrain (`row`, `column`): the other 8 of its row,
/// the other 8 of its column, and the 4 of its box that share neither its
/// row nor its column. The result is duplicate-free, never holds the cell
/// itself, and holds every peer of the cell.
pub fn neighbours(row: u8, column: u8) -> (r: Vec<usize>)
    requires
        row < 9,
        column < 9,
    ensures
        r@.len() == 20,
        forall|k: int| 0 <= k < 20 ==> (#[trigger] r@[k]) < 81,
        forall|k: int| 0 <= k < 20 ==> #[trigger] is_peer(r@[k] as int, 9 * row + column),
        forall|k: int, l: int| 0 <= k < l < 20 ==> r@[k] != r@[l],
        forall|n: int| 0 <= n < 81 && #[trigger] is_peer(n, 9 * row + column) ==> r@.contains(
            n as usize,
        ),
{
    let mut r: Vec<usize> = Vec::new();
    // the rest of the row
    for c in 0..9usize
        invariant
            row < 9,
            column < 9,
            r@.len() == if c <= column { c as int } else { c - 1 },
            forall|j: int| 0 <= j < r@.len() ==> r@[j] == 9 * row + skip_at(column as int, j),
    {
        if c != column as usize {
            r.push(9 * (row as usize) + c);
        }
    }
    // the rest of the column
    for i in 0..9usize
        invariant
            row < 9,
            column < 9,
            r@.len() == 8 + if i <= row { i as int } else { i - 1 },
            forall|j: int| 0 <= j < 8 ==> r@[j] == 9 * row + skip_at(column as int, j),
            forall|j: int| 8 <= j < r@.len() ==> r@[j] == 9 * skip_at(row as int, j - 8) + column,
    {
        if i != row as usize {
            r.push(9 * i + (column as usize));
        }
    }
    // the cells of the box that share neither the row nor the column
    let br = (row as usize) / 3;
    let bc = (column as usize) / 3;
    for i in 0..3usize
        invariant
            row < 9,
            column < 9,
            br == row as int / 3,
            bc == column as int / 3,
            r@.len() == 16 + 2 * (if i <= row as int % 3 {
                i as int
            } else {
                i - 1
            }),
            forall|j: int| 0 <= j < 8 ==> r@[j] == 9 * row + skip_at(column as int, j),
            forall|j: int| 8 <= j < 16 ==> r@[j] == 9 * skip_at(row as int, j - 8) + column,
            forall|m: int| 0 <= m < r@.len() - 16 ==> #[trigger] r@[16 + m] == 9 * (3 * (row as int / 3)
                + skip_at(row as int % 3, m / 2)) + 3 * (column as int / 3) + skip_at(
                column as int % 3,
                m % 2,
            ),
    {
        if 3 * br + i != row as usize {
            for j in 0..3usize
                invariant
                    row < 9,
                    column < 9,
                    br == row as int / 3,
                    bc == column as int / 3,
                    i < 3,
                    3 * br + i != row as int,
                    r@.len() == 16 + 2 * (if i <= row as int % 3 {
                        i as int
                    } else {
                        i - 1
                    }) + (if j <= column as int % 3 {
                        j as int
                    } else {
                        j - 1
                    }),
                    forall|k: int| 0 <= k < 8 ==> r@[k] == 9 * row + skip_at(column as int, k),
                    forall|k: int| 8 <= k < 16 ==> r@[k] == 9 * skip_at(row as int, k - 8)
                        + column,
                    forall|m: int| 0 <= m < r@.len() - 16 ==> #[trigger] r@[16 + m] == 9 * (3 * (row as int
                        / 3) + skip_at(row as int % 3, m / 2)) + 3 * (column as int / 3) + skip_at(
                        column as int % 3,
                        m % 2,
                    ),
            {
                if 3 * bc + j != column as usize {
                    r.push(9 * (3 * br + i) + 3 * bc + j);
                }
            }
        }
    }
    proof {
        lemma_neighbour_list(row as int, column as int, r@);
    }
    r
}

/// A list whose entries follow the three-phase layout built by `neighbours`
/// holds exactly the 20 peers of the cell, each once.
proof fn lemma_neighbour_list(row: int, column: int, s: Seq<usize>)
    requires
        0 <= row < 9,
        0 <= column < 9,
        s.len() == 20,
        forall|j: int| 0 <= j < 8 ==> s[j] == 9 * row + skip_at(column, j),
        forall|j: int| 8 <= j < 16 ==> s[j] == 9 * skip_at(row, j - 8) + column,
        forall|m: int| 0 <= m < 4 ==> #[trigger] s[16 + m] == 9 * (3 * (row / 3) + skip_at(row % 3, m / 2)) + 3
            * (column / 3) + skip_at(column % 3, m % 2),
    ensures
        forall|k: int| 0 <= k < 20 ==> (#[trigger] s[k]) < 81,
        forall|k: int| 0 <= k < 20 ==> #[trigger] is_peer(s[k] as int, 9 * row + column),
        forall|k: int, l: int| 0 <= k < l < 20 ==> s[k] != s[l],
        forall|n: int| 0 <= n < 81 && #[trigger] is_peer(n, 9 * row + column) ==> s.contains(
            n as usize,
        ),
{
    let idx = 9 * row + column;
    assert(cell_row(idx) == row && cell_col(idx) == column) by (nonlinear_arith)
        requires
            0 <= row < 9 && 0 <= column < 9 && idx == 9 * row + column,
    ;
    assert forall|k: int| 0 <= k < 20 implies s[k] < 81 && #[trigger] is_peer(
        s[k] as int,
        idx,
    ) by {
        if k < 8 {
            let c = skip_at(column, k);
            assert(s[k] == 9 * row + c);
            assert(cell_row(9 * row + c) == row && cell_col(9 * row + c) == c) by (nonlinear_arith)
                requires
                    0 <= row < 9 && 0 <= c < 9,
            ;
        } else if k < 16 {
            let rr = skip_at(row, k - 8);
            assert(s[k] == 9 * rr + column);
            assert(cell_row(9 * rr + column) == rr && cell_col(9 * rr + column) == column)
                by (nonlinear_arith)
                requires
                    0 <= rr < 9 && 0 <= column < 9,
            ;
        } else {
            let m = k - 16;
            let rr = 3 * (row / 3) + skip_at(row % 3, m / 2);
            let cc = 3 * (column / 3) + skip_at(column % 3, m % 2);
            assert(s[16 + m] == 9 * (3 * (row / 3) + skip_at(row % 3, m / 2)) + 3 * (column / 3)
                + skip_at(column % 3, m % 2));
            assert(s[k] == 9 * rr + cc);
            assert(0 <= rr < 9 && 0 <= cc < 9 && rr != row && cc != column) by (nonlinear_arith)
                requires
                    0 <= row < 9 && 0 <= column < 9 && rr == 3 * (row / 3) + skip_at(
                        row % 3,
                        m / 2,
                    ) && cc == 3 * (column / 3) + skip_at(column % 3, m % 2) && 0 <= m < 4,
            ;
            assert(cell_row(9 * rr + cc) == rr && cell_col(9 * rr + cc) == cc) by (nonlinear_arith)
                requires
                    0 <= rr < 9 && 0 <= cc < 9,
            ;
            assert(rr / 3 == row / 3 && cc / 3 == column / 3) by (nonlinear_arith)
                requires
                    0 <= row < 9 && 0 <= column < 9 && rr == 3 * (row / 3) + skip_at(
                        row % 3,
                        m / 2,
                    ) && cc == 3 * (column / 3) + skip_at(column % 3, m % 2) && 0 <= m < 4,
            ;
            assert(same_box(s[k] as int, idx));
        }
    }
    assert forall|k: int| 0 <= k < 20 implies (#[trigger] s[k]) < 81 by {
        assert(is_peer(s[k] as int, idx));
    }
    assert forall|k: int, l: int| 0 <= k < l < 20 implies s[k] != s[l] by {
        lemma_entry_coords(row, column, s, k);
        lemma_entry_coords(row, column, s, l);
    }
    assert forall|n: int| 0 <= n < 81 && #[trigger] is_peer(n, idx) implies s.contains(
        n as usize,
    ) by {
        let nr = cell_row(n);
        let nc = cell_col(n);
        assert(n == 9 * nr + nc && 0 <= nr < 9 && 0 <= nc < 9) by (nonlinear_arith)
            requires
                0 <= n < 81 && nr == n / 9 && nc == n % 9,
        ;
        if nr == row {
            let k = if nc < column {
                nc
            } else {
                nc - 1
            };
            assert(nc != column);
            assert(skip_at(column, k) == nc);
            assert(s[k] == n as usize);
        } else if nc == column {
            let k = 8 + if nr < row {
                nr
            } else {
                nr - 1
            };
            assert(skip_at(row, k - 8) == nr);
            assert(s[k] == n as usize);
        } else {
            assert(same_box(n, idx));
            assert(cell_row(idx) == row && cell_col(idx) == column) by (nonlinear_arith)
                requires
                    0 <= row < 9 && 0 <= column < 9 && idx == 9 * row + column,
            ;
            assert(nr / 3 == row / 3 && nc / 3 == column / 3);
            let a = if nr % 3 < row % 3 {
                nr % 3
            } else {
                nr % 3 - 1
            };
            let b = if nc % 3 < column % 3 {
                nc % 3
            } else {
                nc % 3 - 1
            };
            assert(nr % 3 != row % 3 && nc % 3 != column % 3) by (nonlinear_arith)
                requires
                    0 <= nr < 9 && 0 <= row < 9 && 0 <= nc < 9 && 0 <= column < 9 && nr != row && nc
                        != column && nr / 3 == row / 3 && nc / 3 == column / 3,
            ;
            let m = 2 * a + b;
            assert(0 <= m < 4);
            assert(m / 2 == a && m % 2 == b);
            assert(skip_at(row % 3, a) == nr % 3 && skip_at(column % 3, b) == nc % 3);
            assert(s[16 + m] == 9 * (3 * (row / 3) + skip_at(row % 3, m / 2)) + 3 * (column / 3)
                + skip_at(column % 3, m % 2));
            assert(3 * (row / 3) + nr % 3 == nr && 3 * (column / 3) + nc % 3 == nc)
                by (nonlinear_arith)
                requires
                    0 <= nr < 9 && 0 <= nc < 9 && nr / 3 == row / 3 && nc / 3 == column / 3,
            ;
            assert(s[16 + m] == n as usize);
        }
    }
}

/// Grid coordinates of the `k`-th entry of the neighbour list layout.
proof fn lemma_entry_coords(row: int, column: int, s: Seq<usize>, k: int)
    requires
        0 <= row < 9,
        0 <= column < 9,
        s.len() == 20,
        0 <= k < 20,
        forall|j: int| 0 <= j < 8 ==> s[j] == 9 * row + skip_at(column, j),
        forall|j: int| 8 <= j < 16 ==> s[j] == 9 * skip_at(row, j - 8) + column,
        forall|m: int| 0 <= m < 4 ==> #[trigger] s[16 + m] == 9 * (3 * (row / 3) + skip_at(row % 3, m / 2)) + 3
            * (column / 3) + skip_at(column % 3, m % 2),
    ensures
        k < 8 ==> cell_row(s[k] as int) == row && cell_col(s[k] as int) == skip_at(column, k),
        8 <= k < 16 ==> cell_row(s[k] as int) == skip_at(row, k - 8) && cell_col(s[k] as int)
            == column,
        16 <= k ==> cell_row(s[k] as int) == 3 * (row / 3) + skip_at(row % 3, (k - 16) / 2)
            && cell_col(s[k] as int) == 3 * (column / 3) + skip_at(column % 3, (k - 16) % 2)
            && cell_row(s[k] as int) != row && cell_col(s[k] as int) != column,
{
    if k < 8 {
        let c = skip_at(column, k);
        assert(cell_row(9 * row + c) == row && cell_col(9 * row + c) == c) by (nonlinear_arith)
            requires
                0 <= row < 9 && 0 <= c < 9,
        ;
    } else if k < 16 {
        let rr = skip_at(row, k - 8);
        assert(cell_row(9 * rr + column) == rr && cell_col(9 * rr + column) == column)
            by (nonlinear_arith)
            requires
                0 <= rr < 9 && 0 <= column < 9,
        ;
    } else {
        let m = k - 16;
        let rr = 3 * (row / 3) + skip_at(row % 3, m / 2);
        let cc = 3 * (column / 3) + skip_at(column % 3, m % 2);
        assert(s[16 + m] == 9 * (3 * (row / 3) + skip_at(row % 3, m / 2)) + 3 * (column / 3)
            + skip_at(column % 3, m % 2));
        assert(s[k] == 9 * rr + cc);
        assert(0 <= rr < 9 && 0 <= cc < 9 && rr != row && cc != column) by (nonlinear_arith)
            requires
                0 <= row < 9 && 0 <= column < 9 && rr == 3 * (row / 3) + skip_at(row % 3, m / 2)
                    && cc == 3 * (column / 3) + skip_at(column % 3, m % 2) && 0 <= m < 4,
        ;
        assert(cell_row(9 * rr + cc) == rr && cell_col(9 * rr + cc) == cc) by (nonlinear_arith)
            requires
                0 <= rr < 9 && 0 <= cc < 9,
        ;
    }
}

} // verus!
