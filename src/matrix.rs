use vstd::prelude::*;

use crate::grid::{
    augmented, cols_of, drop_cols, eliminated, identity, is_first_leading,
    is_rectangular, is_zero_row, leads_at, left_block_is_identity, pivot_of, reduce_from, reduced,
    scale_row, scaled, sub_row, swapped, MatrixError,
};
use crate::scalar::Scalar;

verus! {

/// A dense matrix, stored as a vector of rows.
pub struct Matrix<T> {
    pub matrix: Vec<Vec<T>>,
}

impl<T> View for Matrix<T> {
    type V = Seq<Seq<T>>;

    open spec fn view(&self) -> Seq<Seq<T>> {
        self.matrix@.map_values(|r: Vec<T>| r@)
    }
}

/// At most one row is the topmost to lead in a given column.
proof fn lemma_first_leading_unique<T: Scalar>(g: Seq<Seq<T>>, c: int, k1: int, k2: int)
    requires
        is_first_leading(g, c, k1),
        is_first_leading(g, c, k2),
    ensures
        k1 == k2,
{
    if k1 < k2 {
        assert(!leads_at(g[k1], c));
    } else if k2 < k1 {
        assert(!leads_at(g[k2], c));
    }
}

/// `[A | I]` of a square `A` is rectangular, with twice as many columns.
proof fn lemma_augmented_rectangular<T: Scalar>(a: Seq<Seq<T>>, b: Seq<Seq<T>>)
    requires
        is_rectangular(a),
        a.len() == cols_of(a),
        b == identity::<T>(a.len()),
    ensures
        is_rectangular(augmented(a, b)),
        cols_of(augmented(a, b)) == 2 * a.len(),
{
    let h = augmented(a, b);
    assert forall|i: int| 0 <= i < h.len() implies #[trigger] h[i].len() == cols_of(h) by {
        assert(a[i].len() == a.len());
        assert(a[0].len() == a.len());
    }
}

impl<T: Scalar> Matrix<T> {
    /// Wraps `initial_matrix`, whose inner vectors are the rows.
    pub fn from(initial_matrix: Vec<Vec<T>>) -> (m: Self)
        ensures
            m.matrix == initial_matrix,
    {
        Matrix { matrix: initial_matrix }
    }

    /// Number of columns: the length of the first row, or zero without rows.
    fn col_count(&self) -> (r: usize)
        ensures
            r == cols_of(self@),
    {
        if self.matrix.len() > 0 {
            self.matrix[0].len()
        } else {
            0
        }
    }

    /// Index of the first non-zero entry of row `starting_row`, or
    /// `usize::MAX` when the row is all zeros.
    pub fn get_leftmost_nonzero_in_a_row(&self, starting_row: usize) -> (r: usize)
        requires
            is_rectangular(self@),
            starting_row < self@.len(),
        ensures
            r == usize::MAX <==> is_zero_row(self@[starting_row as int]),
            r != usize::MAX ==> leads_at(self@[starting_row as int], r as int),
    {
        let cols = self.col_count();
        let ghost row = self@[starting_row as int];
        assert(row.len() == cols);
        let mut i: usize = 0;
        while i < cols
            invariant
                i <= cols,
                cols == row.len(),
                row == self@[starting_row as int],
                starting_row < self.matrix@.len(),
                forall|j: int| 0 <= j < i ==> (#[trigger] row[j]).spec_is_zero(),
            decreases cols - i,
        {
            if !self.matrix[starting_row][i].is_zero() {
                return i;
            }
            i += 1;
        }
        usize::MAX
    }

    /// The topmost row whose first non-zero entry stands in column `col`, or
    /// `usize::MAX` when there is none.
    pub fn get_leftmost_nonzero_in_a_col(&self, col: usize) -> (r: usize)
        requires
            is_rectangular(self@),
        ensures
            r == match pivot_of(self@, col as int) {
                Some(k) => k as usize,
                None => usize::MAX,
            },
            r != usize::MAX ==> r < self@.len(),
    {
        let ghost g = self@;
        let mut i: usize = 0;
        while i < self.matrix.len()
            invariant
                i <= self@.len(),
                g == self@,
                is_rectangular(g),
                forall|j: int| 0 <= j < i ==> !#[trigger] leads_at(g[j], col as int),
            decreases self@.len() - i,
        {
            let lead = self.get_leftmost_nonzero_in_a_row(i);
            if lead != usize::MAX && lead == col {
                proof {
                    assert(is_first_leading(g, col as int, i as int));
                    let k = choose|k: int| is_first_leading(g, col as int, k);
                    lemma_first_leading_unique(g, col as int, i as int, k);
                }
                return i;
            }
            proof {
                if leads_at(g[i as int], col as int) {
                    if lead == usize::MAX {
                        assert(!g[i as int][col as int].spec_is_zero());
                    } else if (lead as int) < col {
                        assert(g[i as int][lead as int].spec_is_zero());
                    } else {
                        assert(g[i as int][col as int].spec_is_zero());
                    }
                }
            }
            i += 1;
        }
        usize::MAX
    }

    /// The reciprocal of a pivot, or `InvalidPivot` when it is not finite.
    pub fn calc_inverse_pivot_point(pivot_point: T) -> (r: Result<T, MatrixError>)
        ensures
            r == match pivot_point.spec_recip() {
                Some(v) => Ok(v),
                None => Err(MatrixError::InvalidPivot),
            },
    {
        match pivot_point.recip() {
            Some(v) => Ok(v),
            None => Err(MatrixError::InvalidPivot),
        }
    }

    /// Divides row `row_to_scale` by its entry in `pivot_column`, from that
    /// column on; the pivot entry becomes exactly one. On error the matrix is
    /// left as it was.
    pub fn scale_row_to_one(&mut self, pivot_column: usize, row_to_scale: usize) -> (r: Result<
        (),
        MatrixError,
    >)
        requires
            is_rectangular(old(self)@),
            row_to_scale < old(self)@.len(),
            pivot_column < cols_of(old(self)@),
        ensures
            match scaled(old(self)@, row_to_scale as int, pivot_column as int) {
                Ok(g) => r is Ok && final(self)@ == g,
                Err(e) => r == Err::<(), MatrixError>(e) && final(self)@ == old(self)@,
            },
            r is Ok ==> final(self)@[row_to_scale as int][pivot_column as int].spec_is_one(),
            final(self)@.len() == old(self)@.len(),
            is_rectangular(final(self)@),
            cols_of(final(self)@) == cols_of(old(self)@),
    {
        let ghost g = self@;
        let ghost row = g[row_to_scale as int];
        let pivot = self.matrix[row_to_scale][pivot_column];
        if pivot.is_one() {
            return Ok(());
        }
        let inv = match Self::calc_inverse_pivot_point(pivot) {
            Ok(v) => v,
            Err(e) => {
                return Err(e);
            },
        };
        let ghost target = scale_row(row, pivot_column as int, inv);
        let cols = self.matrix[row_to_scale].len();
        self.matrix[row_to_scale][pivot_column] = T::one();
        let mut i: usize = pivot_column + 1;
        while i < cols
            invariant
                pivot_column < i <= cols,
                cols == row.len(),
                row == g[row_to_scale as int],
                target == scale_row(row, pivot_column as int, inv),
                row_to_scale < g.len(),
                self@.len() == g.len(),
                forall|k: int| 0 <= k < g.len() && k != row_to_scale ==> self@[k] == g[k],
                self@[row_to_scale as int].len() == cols,
                forall|j: int|
                    0 <= j < cols ==> #[trigger] self@[row_to_scale as int][j] == if j < i {
                        target[j]
                    } else {
                        row[j]
                    },
            decreases cols - i,
        {
            let v = self.matrix[row_to_scale][i].mul(&inv);
            let ghost before = self@;
            self.matrix[row_to_scale][i] = v;
            assert(self@[row_to_scale as int] == before[row_to_scale as int].update(i as int, v));
            i += 1;
        }
        proof {
            assert(self@[row_to_scale as int] =~= target);
            assert(self@ =~= g.update(row_to_scale as int, target));
            assert(cols_of(self@) == cols_of(g));
            assert forall|k: int| 0 <= k < self@.len() implies #[trigger] self@[k].len() == cols_of(self@) by {
                assert(g[k].len() == cols_of(g));
            }
        }
        Ok(())
    }

    /// Subtracts from row `row_to_scale` its entry in `starting_col` times
    /// row `row_source`, entry by entry across all columns.
    pub fn replacement_addition(&mut self, row_to_scale: usize, row_source: usize, starting_col: usize)
        requires
            is_rectangular(old(self)@),
            row_to_scale < old(self)@.len(),
            row_source < old(self)@.len(),
            starting_col < cols_of(old(self)@),
        ensures
            final(self)@ == old(self)@.update(
                row_to_scale as int,
                sub_row(
                    old(self)@[row_to_scale as int],
                    old(self)@[row_source as int],
                    starting_col as int,
                ),
            ),
            final(self).matrix@.len() == old(self).matrix@.len(),
    {
        let ghost g = self@;
        let ghost target = sub_row(g[row_to_scale as int], g[row_source as int], starting_col as int);
        let row_scalar = self.matrix[row_to_scale][starting_col];
        let cols = self.col_count();
        assert(g[row_to_scale as int].len() == cols && g[row_source as int].len() == cols);
        let mut i: usize = 0;
        while i < cols
            invariant
                i <= cols,
                cols == g[row_to_scale as int].len(),
                cols == g[row_source as int].len(),
                row_to_scale < g.len(),
                row_source < g.len(),
                starting_col < cols,
                row_scalar == g[row_to_scale as int][starting_col as int],
                target == sub_row(g[row_to_scale as int], g[row_source as int], starting_col as int),
                self@.len() == g.len(),
                forall|k: int| 0 <= k < g.len() && k != row_to_scale ==> self@[k] == g[k],
                self@[row_to_scale as int].len() == cols,
                forall|j: int|
                    0 <= j < cols ==> #[trigger] self@[row_to_scale as int][j] == if j < i {
                        target[j]
                    } else {
                        g[row_to_scale as int][j]
                    },
            decreases cols - i,
        {
            let s = self.matrix[row_source][i];
            let v = self.matrix[row_to_scale][i].sub(&row_scalar.mul(&s));
            let ghost before = self@;
            self.matrix[row_to_scale][i] = v;
            assert(self@[row_to_scale as int] == before[row_to_scale as int].update(i as int, v));
            assert(forall|k: int| 0 <= k < g.len() && k != row_to_scale ==> self@[k] == before[k]);
            i += 1;
        }
        proof {
            assert(self@[row_to_scale as int] =~= target);
            assert(self@ =~= g.update(row_to_scale as int, target));
        }
    }

    /// Eliminates column `target_column` against row `pivot_position`: every
    /// other row with a non-zero entry there has that entry times the pivot
    /// row subtracted from it, and its entry in the column set to exactly
    /// zero.
    pub fn zero_a_column(&mut self, target_column: usize, pivot_position: usize)
        requires
            is_rectangular(old(self)@),
            pivot_position < old(self)@.len(),
            target_column < cols_of(old(self)@),
        ensures
            final(self)@ == eliminated(old(self)@, pivot_position as int, target_column as int),
            final(self)@[pivot_position as int] == old(self)@[pivot_position as int],
            forall|i: int|
                0 <= i < final(self)@.len() && i != pivot_position
                    ==> (#[trigger] final(self)@[i][target_column as int]).spec_is_zero(),
            is_rectangular(final(self)@),
    {
        let ghost g = self@;
        let ghost target = eliminated(g, pivot_position as int, target_column as int);
        let zero = T::zero();
        let mut r: usize = 0;
        while r < self.matrix.len()
            invariant
                r <= g.len(),
                self@.len() == g.len(),
                is_rectangular(g),
                g.len() > 0,
                pivot_position < g.len(),
                target_column < cols_of(g),
                target == eliminated(g, pivot_position as int, target_column as int),
                zero == T::spec_zero(),
                zero.spec_is_zero(),
                forall|k: int| 0 <= k < r ==> #[trigger] self@[k] == target[k],
                forall|k: int| r <= k < g.len() ==> #[trigger] self@[k] == g[k],
            decreases g.len() - r,
        {
            assert(self@[r as int] == g[r as int]);
            assert(self@[pivot_position as int] == g[pivot_position as int]);
            let ghost before = self@;
            if !self.matrix[r][target_column].is_zero() && r != pivot_position {
                proof {
                    assert(is_rectangular(self@));
                }
                self.replacement_addition(r, pivot_position, target_column);
                assert(self@[r as int].len() == cols_of(g));
                let ghost mid = self.matrix@;
                self.matrix[r][target_column] = zero;
                proof {
                    assert(self@[r as int] =~= target[r as int]);
                    assert forall|k: int| 0 <= k < g.len() && k != r implies #[trigger] self@[k] == before[k] by {
                        assert(self.matrix@[k] == mid[k]);
                        assert(self@[k] == self.matrix@[k]@);
                        assert(mid.map_values(|v: Vec<T>| v@)[k] == before[k]);
                    }
                }
            }
            r += 1;
        }
        proof {
            assert(self@ =~= target);
            assert forall|i: int| 0 <= i < self@.len() && i != pivot_position implies (#[trigger] self@[i][target_column as int]).spec_is_zero() by {
                assert(self@[i] == target[i]);
            }
            assert forall|i: int| 0 <= i < self@.len() implies #[trigger] self@[i].len() == cols_of(self@) by {
                assert(self@[i].len() == g[i].len());
            }
        }
    }

    /// The `size` by `size` identity matrix.
    pub fn get_identity_matrix(size: usize) -> (r: Vec<Vec<T>>)
        ensures
            r@.map_values(|v: Vec<T>| v@) == identity::<T>(size as nat),
    {
        let zero = T::zero();
        let one = T::one();
        let ghost id = identity::<T>(size as nat);
        let mut out: Vec<Vec<T>> = Vec::new();
        let mut i: usize = 0;
        while i < size
            invariant
                i <= size,
                zero == T::spec_zero(),
                one == T::spec_one(),
                id == identity::<T>(size as nat),
                out@.len() == i,
                forall|k: int| 0 <= k < i ==> #[trigger] out@[k]@ == id[k],
            decreases size - i,
        {
            let mut row: Vec<T> = Vec::new();
            let mut j: usize = 0;
            while j < size
                invariant
                    i < size,
                    j <= size,
                    zero == T::spec_zero(),
                    one == T::spec_one(),
                    id == identity::<T>(size as nat),
                    row@ == id[i as int].subrange(0, j as int),
                decreases size - j,
            {
                if i == j {
                    row.push(one);
                } else {
                    row.push(zero);
                }
                j += 1;
                assert(row@ =~= id[i as int].subrange(0, j as int));
            }
            assert(row@ =~= id[i as int]);
            out.push(row);
            i += 1;
        }
        assert(out@.map_values(|v: Vec<T>| v@) =~= id);
        out
    }

    /// Appends the identity matrix to the right of a square matrix, giving
    /// `[A | I]`. A matrix that is not square gives `NonSquareMatrix` and is
    /// left as it was.
    pub fn create_invertible_matrix_form(&mut self) -> (r: Result<(), MatrixError>)
        requires
            is_rectangular(old(self)@),
        ensures
            old(self)@.len() == cols_of(old(self)@) ==> r is Ok && final(self)@ == augmented(
                old(self)@,
                identity::<T>(old(self)@.len()),
            ),
            old(self)@.len() != cols_of(old(self)@) ==> r == Err::<(), MatrixError>(
                MatrixError::NonSquareMatrix,
            ) && final(self)@ == old(self)@,
    {
        let size = self.matrix.len();
        if self.col_count() != size {
            return Err(MatrixError::NonSquareMatrix);
        }
        let ghost g = self@;
        let ghost target = augmented(g, identity::<T>(size as nat));
        let mut identity_matrix = Self::get_identity_matrix(size);
        proof {
            let idv = identity_matrix@.map_values(|v: Vec<T>| v@);
            assert(idv.len() == identity_matrix@.len());
            assert forall|k: int| 0 <= k < size implies #[trigger] identity_matrix@[k]@ == identity::<T>(size as nat)[k] by {
                assert(idv[k] == identity_matrix@[k]@);
            }
        }
        let mut i: usize = 0;
        while i < size
            invariant
                i <= size,
                size == g.len(),
                self@.len() == size,
                identity_matrix@.len() == size,
                target == augmented(g, identity::<T>(size as nat)),
                forall|k: int| i <= k < size ==> #[trigger] identity_matrix@[k]@ == identity::<T>(size as nat)[k],
                forall|k: int| 0 <= k < i ==> #[trigger] self@[k] == target[k],
                forall|k: int| i <= k < size ==> #[trigger] self@[k] == g[k],
            decreases size - i,
        {
            let ghost before = self@;
            let ghost id_before = identity_matrix@;
            let ghost mid = self.matrix@;
            self.matrix[i].append(&mut identity_matrix[i]);
            proof {
                assert(self.matrix@[i as int]@ == mid[i as int]@ + id_before[i as int]@);
                assert(mid[i as int]@ == before[i as int]);
                assert(before[i as int] == g[i as int]);
                assert(id_before[i as int]@ == identity::<T>(size as nat)[i as int]);
                assert(self@[i as int] == self.matrix@[i as int]@);
                assert(self@[i as int] =~= target[i as int]);
                assert forall|k: int| 0 <= k < size && k != i implies #[trigger] self@[k] == before[k] by {
                    assert(self.matrix@[k] == mid[k]);
                }
                assert forall|k: int| i < k < size implies #[trigger] identity_matrix@[k] == id_before[k] by {}
            }
            i += 1;
        }
        assert(self@ =~= target);
        Ok(())
    }

    /// The first `n` columns form the `n` by `n` identity.
    fn left_block_is_identity_exec(&self, n: usize) -> (r: bool)
        requires
            is_rectangular(self@),
            n <= cols_of(self@),
        ensures
            r == left_block_is_identity(self@, n as nat),
    {
        if self.matrix.len() != n {
            return false;
        }
        let ghost g = self@;
        let mut i: usize = 0;
        while i < n
            invariant
                i <= n,
                g == self@,
                g.len() == n,
                is_rectangular(g),
                n <= cols_of(g),
                forall|a: int, b: int|
                    0 <= a < i && 0 <= b < n ==> if a == b {
                        (#[trigger] g[a][b]).spec_is_one()
                    } else {
                        g[a][b].spec_is_zero()
                    },
            decreases n - i,
        {
            assert(g[i as int].len() == cols_of(g));
            let mut j: usize = 0;
            while j < n
                invariant
                    i < n,
                    j <= n,
                    g == self@,
                    g.len() == n,
                    g[i as int].len() >= n,
                    forall|a: int, b: int|
                        0 <= a < i && 0 <= b < n ==> if a == b {
                            (#[trigger] g[a][b]).spec_is_one()
                        } else {
                            g[a][b].spec_is_zero()
                        },
                    forall|b: int|
                        0 <= b < j ==> if i == b {
                            (#[trigger] g[i as int][b]).spec_is_one()
                        } else {
                            g[i as int][b].spec_is_zero()
                        },
                decreases n - j,
            {
                let ok = if i == j {
                    self.matrix[i][j].is_one()
                } else {
                    self.matrix[i][j].is_zero()
                };
                if !ok {
                    return false;
                }
                j += 1;
            }
            i += 1;
        }
        true
    }

    /// Each row with its first `n` entries dropped.
    fn drop_leading_cols(&self, n: usize) -> (r: Vec<Vec<T>>)
        requires
            is_rectangular(self@),
            n <= cols_of(self@),
        ensures
            r@.map_values(|v: Vec<T>| v@) == drop_cols(self@, n as nat),
    {
        let ghost target = drop_cols(self@, n as nat);
        let mut out: Vec<Vec<T>> = Vec::new();
        let mut i: usize = 0;
        while i < self.matrix.len()
            invariant
                i <= self@.len(),
                is_rectangular(self@),
                n <= cols_of(self@),
                target == drop_cols(self@, n as nat),
                out@.len() == i,
                forall|k: int| 0 <= k < i ==> #[trigger] out@[k]@ == target[k],
            decreases self@.len() - i,
        {
            assert(self@[i as int].len() == cols_of(self@));
            let mut row: Vec<T> = Vec::new();
            let mut j: usize = n;
            while j < self.matrix[i].len()
                invariant
                    i < self@.len(),
                    n <= j <= self@[i as int].len(),
                    row@ == self@[i as int].subrange(n as int, j as int),
                decreases self@[i as int].len() - j,
            {
                row.push(self.matrix[i][j]);
                j += 1;
                assert(row@ =~= self@[i as int].subrange(n as int, j as int));
            }
            assert(row@ =~= target[i as int]);
            out.push(row);
            i += 1;
        }
        assert(out@.map_values(|v: Vec<T>| v@) =~= target);
        out
    }

    /// The inverse of a square matrix, by reducing `[A | I]` and keeping the
    /// right block. The matrix itself is not changed. A matrix that is not
    /// square gives `NonSquareMatrix`; one whose left block does not reduce
    /// to the identity gives `SingularMatrix`.
    pub fn calc_inverse(&self) -> (r: Result<Matrix<T>, MatrixError>)
        requires
            is_rectangular(self@),
        ensures
            self@.len() != cols_of(self@) ==> r == Err::<Matrix<T>, MatrixError>(
                MatrixError::NonSquareMatrix,
            ),
            self@.len() == cols_of(self@) ==> match reduced(
                augmented(self@, identity::<T>(self@.len())),
            ) {
                Err(e) => r == Err::<Matrix<T>, MatrixError>(e),
                Ok(h) => if left_block_is_identity(h, self@.len()) {
                    r is Ok && r.unwrap()@ == drop_cols(h, self@.len())
                } else {
                    r == Err::<Matrix<T>, MatrixError>(MatrixError::SingularMatrix)
                },
            },
    {
        let size = self.matrix.len();
        let mut inverse_matrix = Matrix::from(self.copy_rows());
        assert(inverse_matrix@ == self@);
        match inverse_matrix.create_invertible_matrix_form() {
            Ok(()) => {},
            Err(e) => {
                return Err(e);
            },
        }
        proof {
            lemma_augmented_rectangular(self@, identity::<T>(size as nat));
        }
        match inverse_matrix.calc_reduced_row_echelon_form() {
            Ok(()) => {},
            Err(e) => {
                return Err(e);
            },
        }
        if !inverse_matrix.left_block_is_identity_exec(size) {
            return Err(MatrixError::SingularMatrix);
        }
        Ok(Matrix::from(inverse_matrix.drop_leading_cols(size)))
    }

    /// Exchanges rows `from_row` and `to_row`.
    pub fn swap_rows(&mut self, from_row: usize, to_row: usize)
        requires
            from_row < old(self)@.len(),
            to_row < old(self)@.len(),
        ensures
            final(self)@ == swapped(old(self)@, from_row as int, to_row as int),
            from_row == to_row ==> final(self)@ == old(self)@,
            is_rectangular(old(self)@) ==> is_rectangular(final(self)@) && cols_of(final(self)@) == cols_of(old(self)@),
    {
        if from_row == to_row {
            proof {
                assert(swapped(old(self)@, from_row as int, to_row as int) =~= old(self)@);
            }
            return;
        }
        let mut row: Vec<T> = Vec::new();
        std::mem::swap(&mut row, &mut self.matrix[from_row]);
        std::mem::swap(&mut row, &mut self.matrix[to_row]);
        std::mem::swap(&mut row, &mut self.matrix[from_row]);
        proof {
            let g = old(self)@;
            assert(self@ =~= swapped(g, from_row as int, to_row as int));
            if is_rectangular(g) {
                assert(g[from_row as int].len() == cols_of(g));
                assert(g[to_row as int].len() == cols_of(g));
                assert(cols_of(self@) == cols_of(g));
                assert forall|k: int| 0 <= k < self@.len() implies #[trigger] self@[k].len() == cols_of(self@) by {
                    assert(g[k].len() == cols_of(g));
                }
            }
        }
    }

    /// A copy of the rows, entry by entry.
    fn copy_rows(&self) -> (r: Vec<Vec<T>>)
        ensures
            r@.map_values(|v: Vec<T>| v@) == self@,
    {
        let mut out: Vec<Vec<T>> = Vec::new();
        let mut i: usize = 0;
        while i < self.matrix.len()
            invariant
                i <= self@.len(),
                out@.len() == i,
                forall|k: int| 0 <= k < i ==> #[trigger] out@[k]@ == self@[k],
            decreases self@.len() - i,
        {
            let mut row: Vec<T> = Vec::new();
            let mut j: usize = 0;
            while j < self.matrix[i].len()
                invariant
                    i < self@.len(),
                    j <= self@[i as int].len(),
                    row@ == self@[i as int].subrange(0, j as int),
                decreases self@[i as int].len() - j,
            {
                row.push(self.matrix[i][j]);
                j += 1;
                assert(row@ =~= self@[i as int].subrange(0, j as int));
            }
            assert(row@ =~= self@[i as int]);
            out.push(row);
            i += 1;
        }
        assert(out@.map_values(|v: Vec<T>| v@) =~= self@);
        out
    }

    /// Brings the matrix to reduced row echelon form in place (see
    /// `reduced`). On error the matrix is left as it was.
    pub fn calc_reduced_row_echelon_form(&mut self) -> (r: Result<(), MatrixError>)
        requires
            is_rectangular(old(self)@),
        ensures
            match reduced(old(self)@) {
                Ok(g) => r is Ok && final(self)@ == g,
                Err(e) => r == Err::<(), MatrixError>(e) && final(self)@ == old(self)@,
            },
            final(self)@.len() == old(self)@.len(),
            is_rectangular(final(self)@),
            cols_of(final(self)@) == cols_of(old(self)@),
    {
        let saved = self.copy_rows();
        let ghost g = self@;
        let rows = self.matrix.len();
        let mut current_col: usize = 0;
        let mut current_row: usize = 0;
        while current_row < rows
            invariant
                g == old(self)@,
                is_rectangular(g),
                rows == g.len(),
                self@.len() == rows,
                current_col <= current_row <= rows,
                is_rectangular(self@),
                cols_of(self@) == cols_of(g),
                reduce_from(self@, current_row as nat, current_col as nat) == reduced(g),
                saved@.map_values(|v: Vec<T>| v@) == g,
            decreases rows - current_row,
        {
            let pivot_point = self.get_leftmost_nonzero_in_a_col(current_col);
            if pivot_point != usize::MAX {
                let ghost before = self@;
                proof {
                    assert(is_first_leading(before, current_col as int, pivot_point as int)) by {
                        let k = choose|k: int| is_first_leading(before, current_col as int, k);
                        assert(is_first_leading(before, current_col as int, k));
                    }
                    assert(before[pivot_point as int].len() == cols_of(before));
                }
                match self.scale_row_to_one(current_col, pivot_point) {
                    Ok(()) => {},
                    Err(e) => {
                        proof {
                            assert(pivot_of(before, current_col as int) == Some(pivot_point as int));
                            assert(scaled(before, pivot_point as int, current_col as int) == Err::<Seq<Seq<T>>, MatrixError>(e));
                            assert(reduce_from(before, current_row as nat, current_col as nat) == Err::<Seq<Seq<T>>, MatrixError>(e));
                        }
                        self.matrix = saved;
                        assert(self@ == g);
                        return Err(e);
                    },
                }
                self.zero_a_column(current_col, pivot_point);
                if pivot_point != current_row {
                    self.swap_rows(pivot_point, current_row);
                } else {
                    proof {
                        assert(swapped(self@, current_row as int, current_row as int) =~= self@);
                    }
                }
                current_col += 1;
            }
            current_row += 1;
        }
        Ok(())
    }

    /// Consumes the matrix and returns its reduced row echelon form.
    pub fn to_reduced_row_echelon_form(self) -> (r: Result<Self, MatrixError>)
        requires
            is_rectangular(self@),
        ensures
            match reduced(self@) {
                Ok(g) => r is Ok && r.unwrap()@ == g,
                Err(e) => r == Err::<Self, MatrixError>(e),
            },
            r is Ok ==> r.unwrap()@.len() == self@.len() && is_rectangular(r.unwrap()@) && cols_of(
                r.unwrap()@,
            ) == cols_of(self@),
    {
        let mut m = self;
        match m.calc_reduced_row_echelon_form() {
            Ok(()) => Ok(m),
            Err(e) => Err(e),
        }
    }
}

} // verus!
