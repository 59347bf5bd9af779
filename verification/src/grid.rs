//! Ragged matrices (a vector of rows) and what the rest of the crate needs of them:
//! reading and writing a cell with a fallback outside the matrix, and counting cells.

use vstd::prelude::*;

verus! {

/// The rows of a matrix, each taken by its view.
pub open spec fn rows_of<T>(m: Vec<Vec<T>>) -> Seq<Seq<T>> {
    Seq::new(m@.len(), |i: int| m@[i]@)
}

/// `(r, c)` names a cell of `g`.
pub open spec fn in_grid<T>(g: Seq<Seq<T>>, r: int, c: int) -> bool {
    0 <= r < g.len() && 0 <= c < g[r].len()
}

/// The cell `(r, c)` of `g`, or `default` where `g` has no such cell.
pub open spec fn cell_or<T>(g: Seq<Seq<T>>, r: int, c: int, default: T) -> T {
    if in_grid(g, r, c) {
        g[r][c]
    } else {
        default
    }
}

/// `a` and `b` have the same number of rows, and equally long rows.
pub open spec fn same_shape<A, B>(a: Seq<Seq<A>>, b: Seq<Seq<B>>) -> bool {
    &&& a.len() == b.len()
    &&& forall|r: int| 0 <= r < a.len() ==> #[trigger] a[r].len() == b[r].len()
}

/// `g` with the cell `(r, c)` replaced by `v`.
pub open spec fn grid_update<T>(g: Seq<Seq<T>>, r: int, c: int, v: T) -> Seq<Seq<T>> {
    g.update(r, g[r].update(c, v))
}

/// The number of cells of `g`: the sum of its row lengths.
pub open spec fn cell_count<T>(g: Seq<Seq<T>>) -> nat
    decreases g.len(),
{
    if g.len() == 0 {
        0
    } else {
        cell_count(g.drop_last()) + g.last().len()
    }
}

/// How often `k` occurs in `row`.
pub open spec fn count_in_row(row: Seq<u32>, k: u32) -> nat
    decreases row.len(),
{
    if row.len() == 0 {
        0
    } else {
        count_in_row(row.drop_last(), k) + if row.last() == k {
            1nat
        } else {
            0nat
        }
    }
}

/// How often `k` occurs in `g`.
pub open spec fn count_in_grid(g: Seq<Seq<u32>>, k: u32) -> nat
    decreases g.len(),
{
    if g.len() == 0 {
        0
    } else {
        count_in_grid(g.drop_last(), k) + count_in_row(g.last(), k)
    }
}

/// Reads the cell `(row, col)` of `matrix`, or gives `default` outside it.
pub fn get_matrix<T: Copy>(matrix: &Vec<Vec<T>>, row: u32, col: u32, default: T) -> (v: T)
    ensures
        v == cell_or(rows_of(*matrix), row as int, col as int, default),
{
    let r = row as usize;
    if r < matrix.len() {
        let c = col as usize;
        if c < matrix[r].len() {
            return matrix[r][c];
        }
    }
    default
}

/// Writes `value` into the cell `(row, col)` of `matrix`; outside it, does nothing.
pub fn set_matrix<T>(matrix: &mut Vec<Vec<T>>, row: u32, col: u32, value: T)
    ensures
        rows_of(*final(matrix)) == (if in_grid(rows_of(*old(matrix)), row as int, col as int) {
            grid_update(rows_of(*old(matrix)), row as int, col as int, value)
        } else {
            rows_of(*old(matrix))
        }),
{
    let r = row as usize;
    if r < matrix.len() {
        let c = col as usize;
        if c < matrix[r].len() {
            matrix[r][c] = value;
        }
    }
    proof {
        let o = rows_of(*old(matrix));
        let n = rows_of(*matrix);
        if in_grid(o, row as int, col as int) {
            assert(n =~= grid_update(o, row as int, col as int, value));
        } else {
            assert(n =~= o);
        }
    }
}

pub proof fn lemma_count_row_bound(row: Seq<u32>, k: u32)
    ensures
        count_in_row(row, k) <= row.len(),
    decreases row.len(),
{
    if row.len() > 0 {
        lemma_count_row_bound(row.drop_last(), k);
    }
}

pub proof fn lemma_count_grid_bound(g: Seq<Seq<u32>>, k: u32)
    ensures
        count_in_grid(g, k) <= cell_count(g),
    decreases g.len(),
{
    if g.len() > 0 {
        lemma_count_grid_bound(g.drop_last(), k);
        lemma_count_row_bound(g.last(), k);
    }
}

/// Writing `k` over a cell that did not hold it adds one occurrence of `k`.
pub proof fn lemma_count_row_update(row: Seq<u32>, c: int, k: u32)
    requires
        0 <= c < row.len(),
        row[c] != k,
    ensures
        count_in_row(row.update(c, k), k) == count_in_row(row, k) + 1,
    decreases row.len(),
{
    let u = row.update(c, k);
    if c == row.len() - 1 {
        assert(u.drop_last() =~= row.drop_last());
    } else {
        lemma_count_row_update(row.drop_last(), c, k);
        assert(u.drop_last() =~= row.drop_last().update(c, k));
    }
}

pub proof fn lemma_count_grid_update(g: Seq<Seq<u32>>, r: int, c: int, k: u32)
    requires
        in_grid(g, r, c),
        g[r][c] != k,
    ensures
        count_in_grid(grid_update(g, r, c, k), k) == count_in_grid(g, k) + 1,
    decreases g.len(),
{
    let u = grid_update(g, r, c, k);
    if r == g.len() - 1 {
        assert(u.drop_last() =~= g.drop_last());
        lemma_count_row_update(g[r], c, k);
    } else {
        lemma_count_grid_update(g.drop_last(), r, c, k);
        assert(u.drop_last() =~= grid_update(g.drop_last(), r, c, k));
    }
}

/// Rows in which the same cells hold `k` hold it equally often.
pub proof fn lemma_count_row_same(a: Seq<u32>, b: Seq<u32>, k: u32)
    requires
        a.len() == b.len(),
        forall|c: int| 0 <= c < a.len() ==> (#[trigger] a[c] == k) == (b[c] == k),
    ensures
        count_in_row(a, k) == count_in_row(b, k),
    decreases a.len(),
{
    if a.len() > 0 {
        lemma_count_row_same(a.drop_last(), b.drop_last(), k);
    }
}

/// Matrices in which the same cells hold `k` hold it equally often.
pub proof fn lemma_count_grid_same(a: Seq<Seq<u32>>, b: Seq<Seq<u32>>, k: u32)
    requires
        same_shape(a, b),
        forall|r: int, c: int| in_grid(a, r, c) ==> (#[trigger] a[r][c] == k) == (b[r][c] == k),
    ensures
        count_in_grid(a, k) == count_in_grid(b, k),
    decreases a.len(),
{
    if a.len() > 0 {
        let n = (a.len() - 1) as int;
        assert forall|c: int| 0 <= c < a[n].len() implies (#[trigger] a[n][c] == k) == (b[n][c]
            == k) by {
            assert(in_grid(a, n, c));
        }
        lemma_count_row_same(a[n], b[n], k);
        assert forall|r: int, c: int| in_grid(a.drop_last(), r, c) implies (
        #[trigger] a.drop_last()[r][c] == k) == (b.drop_last()[r][c] == k) by {
            assert(in_grid(a, r, c));
        }
        lemma_count_grid_same(a.drop_last(), b.drop_last(), k);
    }
}

/// The cells of the first `r` rows and those of row `r` are among the cells of `g`.
pub proof fn lemma_prefix_cells(g: Seq<Seq<u8>>, r: int)
    requires
        0 <= r < g.len(),
    ensures
        cell_count(g.take(r + 1)) == cell_count(g.take(r)) + g[r].len(),
        cell_count(g.take(r + 1)) <= cell_count(g),
{
    assert(g.take(r + 1).drop_last() =~= g.take(r));
    lemma_prefix_le(g, r + 1);
}

pub proof fn lemma_prefix_le(g: Seq<Seq<u8>>, r: int)
    requires
        0 <= r <= g.len(),
    ensures
        cell_count(g.take(r)) <= cell_count(g),
    decreases g.len() - r,
{
    if r < g.len() {
        lemma_prefix_le(g, r + 1);
        assert(g.take(r + 1).drop_last() =~= g.take(r));
    } else {
        assert(g.take(r) =~= g);
    }
}

} // verus!
