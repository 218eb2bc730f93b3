use vstd::prelude::*;

use crate::grid::{
    eliminated, is_first_leading, is_rectangular, is_rref, is_zero_grid, is_zero_row, leads_at,
    pivot_of, reduce_from, reduced, scaled, swapped,
};
use crate::scalar::Scalar;

verus! {

/// A row with a non-zero entry at `j` leads in some column.
proof fn lemma_nonzero_row_leads<T: Scalar>(r: Seq<T>, j: int)
    requires
        0 <= j < r.len(),
        !r[j].spec_is_zero(),
    ensures
        exists|c: int| leads_at(r, c),
    decreases j,
{
    if forall|i: int| 0 <= i < j ==> (#[trigger] r[i]).spec_is_zero() {
        assert(leads_at(r, j));
    } else {
        let i = choose|i: int| 0 <= i < j && !(#[trigger] r[i]).spec_is_zero();
        lemma_nonzero_row_leads(r, i);
    }
}

/// In reduced row echelon form, a row that leads in column `c` is the only
/// one that does.
proof fn lemma_rref_leading_is_first<T: Scalar>(g: Seq<Seq<T>>, c: int, k: int)
    requires
        is_rref(g),
        0 <= k < g.len(),
        leads_at(g[k], c),
    ensures
        is_first_leading(g, c, k),
        pivot_of(g, c) == Some(k),
{
    assert forall|i: int| 0 <= i < k implies !#[trigger] leads_at(g[i], c) by {
        if leads_at(g[i], c) {
            assert(c < c);
        }
    }
    assert(is_first_leading(g, c, k));
    let k2 = choose|k2: int| is_first_leading(g, c, k2);
    assert(is_first_leading(g, c, k2));
    if k2 != k {
        if k2 < k {
            assert(!leads_at(g[k2], c));
        } else {
            assert(!leads_at(g[k], c));
        }
    }
}

/// The pass over an RREF grid from `row` on changes nothing, while either
/// every row so far led in its own index and `col == row`, or no row leads
/// in column `col`.
proof fn lemma_rref_pass<T: Scalar>(g: Seq<Seq<T>>, row: nat, col: nat)
    requires
        is_rectangular(g),
        is_rref(g),
        col <= row,
        (col == row && forall|i: int| 0 <= i < row && i < g.len() ==> #[trigger] leads_at(g[i], i))
            || (forall|i: int| 0 <= i < g.len() ==> !#[trigger] leads_at(g[i], col as int)),
    ensures
        reduce_from(g, row, col) == Ok::<Seq<Seq<T>>, crate::grid::MatrixError>(g),
    decreases g.len() - row,
{
    if row >= g.len() {
        return;
    }
    let c = col as int;
    if exists|k: int| 0 <= k < g.len() && leads_at(g[k], c) {
        let k = choose|k: int| 0 <= k < g.len() && leads_at(g[k], c);
        lemma_rref_leading_is_first(g, c, k);
        // the first case holds: the pivot row is the current row
        assert(col == row);
        if k < row {
            assert(leads_at(g[k], k));
            assert(c == k);
        }
        if k > row {
            let r = row as int;
            if is_zero_row(g[r]) {
                assert(is_zero_row(g[k]));
                assert(g[k][c].spec_is_zero());
            } else {
                let j = choose|j: int| 0 <= j < g[r].len() && !(#[trigger] g[r][j]).spec_is_zero();
                lemma_nonzero_row_leads(g[r], j);
                let a = choose|a: int| leads_at(g[r], a);
                assert(a < c);
                if r > 0 {
                    assert(leads_at(g[r - 1], r - 1));
                    assert(r - 1 < a);
                }
            }
        }
        assert(k == row);
        assert(g[k][c].spec_is_one());
        assert(scaled(g, k, c) == Ok::<Seq<Seq<T>>, crate::grid::MatrixError>(g));
        assert forall|i: int| 0 <= i < g.len() && i != k implies (#[trigger] g[i][c]).spec_is_zero() by {
            assert(leads_at(g[k], c));
        }
        assert(eliminated(g, k, c) =~= g);
        assert(swapped(g, k, row as int) =~= g);
        assert forall|i: int| 0 <= i < row + 1 && i < g.len() implies #[trigger] leads_at(g[i], i) by {
            if i < row {
            } else {
                assert(i == k);
            }
        }
        lemma_rref_pass(g, row + 1, col + 1);
    } else {
        assert forall|i: int| 0 <= i < g.len() implies !#[trigger] leads_at(g[i], c) by {
        }
        if exists|k: int| is_first_leading(g, c, k) {
            let k = choose|k: int| is_first_leading(g, c, k);
            assert(leads_at(g[k], c));
        }
        assert(pivot_of(g, c) is None);
        lemma_rref_pass(g, row + 1, col);
    }
}

/// Reducing a grid that is already in reduced row echelon form gives it
/// back unchanged.
pub proof fn lemma_reduce_rref_is_identity<T: Scalar>(g: Seq<Seq<T>>)
    requires
        is_rectangular(g),
        is_rref(g),
    ensures
        reduced(g) == Ok::<Seq<Seq<T>>, crate::grid::MatrixError>(g),
{
    lemma_rref_pass(g, 0, 0);
}

/// The pass over a grid of zeros finds no pivot and changes nothing.
proof fn lemma_zero_pass<T: Scalar>(g: Seq<Seq<T>>, row: nat, col: nat)
    requires
        is_zero_grid(g),
    ensures
        reduce_from(g, row, col) == Ok::<Seq<Seq<T>>, crate::grid::MatrixError>(g),
    decreases g.len() - row,
{
    if row >= g.len() {
        return;
    }
    if exists|k: int| is_first_leading(g, col as int, k) {
        let k = choose|k: int| is_first_leading(g, col as int, k);
        assert(is_zero_row(g[k]));
        assert(g[k][col as int].spec_is_zero());
    }
    lemma_zero_pass(g, row + 1, col);
}

/// Reducing a grid of zeros, of any shape, gives it back unchanged.
pub proof fn lemma_reduce_zero_grid_is_identity<T: Scalar>(g: Seq<Seq<T>>)
    requires
        is_zero_grid(g),
    ensures
        reduced(g) == Ok::<Seq<Seq<T>>, crate::grid::MatrixError>(g),
{
    lemma_zero_pass(g, 0, 0);
}

} // verus!
