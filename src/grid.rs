use vstd::prelude::*;

use crate::scalar::Scalar;

verus! {

/// Why a matrix operation did not produce a result.
#[derive(Clone, Copy, Debug, PartialEq, Eq, Structural)]
pub enum MatrixError {
    /// A pivot's reciprocal is not a finite value.
    InvalidPivot,
    /// Inversion was asked of a matrix whose row and column counts differ.
    NonSquareMatrix,
    /// The left block of the reduced augmented matrix is not the identity.
    SingularMatrix,
}

/// Number of columns of a grid: the length of its first row.
pub open spec fn cols_of<T>(g: Seq<Seq<T>>) -> nat {
    if g.len() > 0 {
        g[0].len()
    } else {
        0
    }
}

/// Every row has the same length.
pub open spec fn is_rectangular<T>(g: Seq<Seq<T>>) -> bool {
    forall|i: int| 0 <= i < g.len() ==> #[trigger] g[i].len() == cols_of(g)
}

/// The first entry of `r` that is not zero stands at index `c`.
pub open spec fn leads_at<T: Scalar>(r: Seq<T>, c: int) -> bool {
    &&& 0 <= c < r.len()
    &&& !r[c].spec_is_zero()
    &&& forall|j: int| 0 <= j < c ==> (#[trigger] r[j]).spec_is_zero()
}

/// Every entry of `r` is zero.
pub open spec fn is_zero_row<T: Scalar>(r: Seq<T>) -> bool {
    forall|j: int| 0 <= j < r.len() ==> (#[trigger] r[j]).spec_is_zero()
}

/// Row `k` is the topmost row whose first non-zero entry stands in column `c`.
pub open spec fn is_first_leading<T: Scalar>(g: Seq<Seq<T>>, c: int, k: int) -> bool {
    &&& 0 <= k < g.len()
    &&& leads_at(g[k], c)
    &&& forall|i: int| 0 <= i < k ==> !#[trigger] leads_at(g[i], c)
}

/// The pivot row for column `c`: the topmost row that leads in column `c`.
pub open spec fn pivot_of<T: Scalar>(g: Seq<Seq<T>>, c: int) -> Option<int> {
    if exists|k: int| is_first_leading(g, c, k) {
        Some(choose|k: int| is_first_leading(g, c, k))
    } else {
        None
    }
}

/// Row `r` scaled by `inv` from column `c` on, with its entry at `c` set to one.
pub open spec fn scale_row<T: Scalar>(r: Seq<T>, c: int, inv: T) -> Seq<T> {
    Seq::new(
        r.len(),
        |j: int|
            if j < c {
                r[j]
            } else if j == c {
                T::spec_one()
            } else {
                r[j].spec_mul(inv)
            },
    )
}

/// Scaling step: row `k` is divided by its entry in column `c`, which becomes
/// exactly one. A row that already holds one there is left as it is.
pub open spec fn scaled<T: Scalar>(g: Seq<Seq<T>>, k: int, c: int) -> Result<
    Seq<Seq<T>>,
    MatrixError,
> {
    if g[k][c].spec_is_one() {
        Ok(g)
    } else {
        match g[k][c].spec_recip() {
            Some(inv) => Ok(g.update(k, scale_row(g[k], c, inv))),
            None => Err(MatrixError::InvalidPivot),
        }
    }
}

/// Row `r` minus its entry in column `c` times row `p`, entry by entry.
pub open spec fn sub_row<T: Scalar>(r: Seq<T>, p: Seq<T>, c: int) -> Seq<T> {
    Seq::new(r.len(), |j: int| r[j].spec_sub(r[c].spec_mul(p[j])))
}

/// Row `r` after elimination against pivot row `p` in column `c`: the
/// subtraction of `sub_row`, with the entry in column `c` exactly zero.
pub open spec fn eliminate_row<T: Scalar>(r: Seq<T>, p: Seq<T>, c: int) -> Seq<T> {
    sub_row(r, p, c).update(c, T::spec_zero())
}

/// Elimination step: every row but `k` with a non-zero entry in column `c`
/// is eliminated against row `k`.
pub open spec fn eliminated<T: Scalar>(g: Seq<Seq<T>>, k: int, c: int) -> Seq<Seq<T>> {
    Seq::new(
        g.len(),
        |i: int|
            if i == k || g[i][c].spec_is_zero() {
                g[i]
            } else {
                eliminate_row(g[i], g[k], c)
            },
    )
}

/// Rows `a` and `b` exchanged.
pub open spec fn swapped<T>(g: Seq<Seq<T>>, a: int, b: int) -> Seq<Seq<T>> {
    g.update(a, g[b]).update(b, g[a])
}

/// One pass of the reduction from row `row` and column pointer `col` on:
/// for each row, find the pivot row of the current column; if there is
/// none, go on to the next row with the same column; otherwise scale it,
/// eliminate the column, move the pivot row to the current row, and go on
/// with the next column.
pub open spec fn reduce_from<T: Scalar>(g: Seq<Seq<T>>, row: nat, col: nat) -> Result<
    Seq<Seq<T>>,
    MatrixError,
>
    decreases g.len() - row,
{
    if row >= g.len() {
        Ok(g)
    } else {
        match pivot_of(g, col as int) {
            None => reduce_from(g, row + 1, col),
            Some(k) => match scaled(g, k, col as int) {
                Err(e) => Err(e),
                Ok(g1) => reduce_from(
                    swapped(eliminated(g1, k, col as int), k, row as int),
                    row + 1,
                    col + 1,
                ),
            },
        }
    }
}

/// The result of reducing `g` to reduced row echelon form.
pub open spec fn reduced<T: Scalar>(g: Seq<Seq<T>>) -> Result<Seq<Seq<T>>, MatrixError> {
    reduce_from(g, 0, 0)
}

/// The `n` by `n` identity grid.
pub open spec fn identity<T: Scalar>(n: nat) -> Seq<Seq<T>> {
    Seq::new(
        n,
        |i: int| Seq::new(n, |j: int| if i == j { T::spec_one() } else { T::spec_zero() }),
    )
}

/// The grids `a` and `b` side by side: row `i` is `a[i]` followed by `b[i]`.
pub open spec fn augmented<T>(a: Seq<Seq<T>>, b: Seq<Seq<T>>) -> Seq<Seq<T>> {
    Seq::new(a.len(), |i: int| a[i] + b[i])
}

/// Each row of `g` with its first `n` entries dropped.
pub open spec fn drop_cols<T>(g: Seq<Seq<T>>, n: nat) -> Seq<Seq<T>> {
    Seq::new(g.len(), |i: int| g[i].subrange(n as int, g[i].len() as int))
}

/// The first `n` columns of `g` form the `n` by `n` identity: ones on the
/// diagonal and zeros elsewhere.
pub open spec fn left_block_is_identity<T: Scalar>(g: Seq<Seq<T>>, n: nat) -> bool {
    &&& g.len() == n
    &&& forall|i: int, j: int|
        0 <= i < n && 0 <= j < n ==> if i == j {
            (#[trigger] g[i][j]).spec_is_one()
        } else {
            g[i][j].spec_is_zero()
        }
}

/// `g` is in reduced row echelon form: zero rows stand below the others,
/// each other row leads with a one, the leading columns increase from row
/// to row, and a leading column is zero in every other row.
pub open spec fn is_rref<T: Scalar>(g: Seq<Seq<T>>) -> bool {
    &&& forall|i: int, k: int|
        0 <= i < k < g.len() && is_zero_row(#[trigger] g[i]) ==> is_zero_row(#[trigger] g[k])
    &&& forall|i: int, c: int| 0 <= i < g.len() && #[trigger] leads_at(g[i], c) ==> g[i][c].spec_is_one()
    &&& forall|i: int, k: int, a: int, b: int|
        0 <= i < k < g.len() && #[trigger] leads_at(g[i], a) && #[trigger] leads_at(g[k], b) ==> a < b
    &&& forall|i: int, k: int, c: int|
        0 <= i < g.len() && 0 <= k < g.len() && i != k && #[trigger] leads_at(g[i], c) ==> (#[trigger] g[k][c]).spec_is_zero()
}

/// Every entry of `g` is zero.
pub open spec fn is_zero_grid<T: Scalar>(g: Seq<Seq<T>>) -> bool {
    forall|i: int| 0 <= i < g.len() ==> is_zero_row(#[trigger] g[i])
}

} // verus!
