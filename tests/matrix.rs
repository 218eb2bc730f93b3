use reduced_row_echelon_form::{Matrix, MatrixError, Scalar};

/// A double-precision entry.
#[derive(Clone, Copy, Debug, PartialEq)]
struct Real(f64);

impl Scalar for Real {
    fn spec_is_zero(&self) -> bool {
        self.is_zero()
    }

    fn spec_is_one(&self) -> bool {
        self.is_one()
    }

    fn spec_zero() -> Self {
        Self::zero()
    }

    fn spec_one() -> Self {
        Self::one()
    }

    fn spec_mul(&self, other: Self) -> Self {
        self.mul(&other)
    }

    fn spec_sub(&self, other: Self) -> Self {
        self.sub(&other)
    }

    fn spec_recip(&self) -> Option<Self> {
        self.recip()
    }

    fn is_zero(&self) -> bool {
        self.0 == 0.0
    }

    fn is_one(&self) -> bool {
        self.0 == 1.0
    }

    fn zero() -> Self {
        Real(0.0)
    }

    fn one() -> Self {
        Real(1.0)
    }

    fn mul(&self, other: &Self) -> Self {
        Real(self.0 * other.0)
    }

    fn sub(&self, other: &Self) -> Self {
        Real(self.0 - other.0)
    }

    fn recip(&self) -> Option<Self> {
        let r = 1.0 / self.0;
        if r.is_finite() {
            Some(Real(r))
        } else {
            None
        }
    }
}

fn matrix_of(rows: Vec<Vec<f64>>) -> Matrix<Real> {
    Matrix::from(rows.into_iter().map(|r| r.into_iter().map(Real).collect()).collect())
}

fn rows_of(m: &Matrix<Real>) -> Vec<Vec<f64>> {
    m.matrix.iter().map(|r| r.iter().map(|x| x.0).collect()).collect()
}

fn reduce(rows: Vec<Vec<f64>>) -> Vec<Vec<f64>> {
    rows_of(&matrix_of(rows).to_reduced_row_echelon_form().unwrap())
}

fn product(a: &[Vec<f64>], b: &[Vec<f64>]) -> Vec<Vec<f64>> {
    let n = a.len();
    let m = b[0].len();
    (0..n)
        .map(|i| (0..m).map(|j| (0..b.len()).map(|k| a[i][k] * b[k][j]).sum()).collect())
        .collect()
}

fn close(a: &[Vec<f64>], b: &[Vec<f64>]) -> bool {
    a.len() == b.len()
        && a.iter().zip(b).all(|(x, y)| {
            x.len() == y.len() && x.iter().zip(y).all(|(p, q)| (p - q).abs() < 1e-9)
        })
}

#[test]
fn reduced_row_echelon_form() {
    let matrix = matrix_of(vec![
        vec![0.0, 10.0, 0.0],
        vec![0.0, 5.0, 2.5],
        vec![2.0, 0.0, 0.0],
    ]);
    let in_form_matrix = vec![
        vec![1.0, 0.0, 0.0],
        vec![0.0, 1.0, 0.0],
        vec![0.0, 0.0, 1.0],
    ];
    assert_eq!(rows_of(&matrix.to_reduced_row_echelon_form().unwrap()), in_form_matrix);
}

#[test]
fn rref_non_square_matrix() {
    let matrix = matrix_of(vec![vec![2.0, 2.0, 0.0], vec![0.0, 0.0, 1.0]]);
    let in_form_matrix = vec![vec![1.0, 1.0, 0.0], vec![0.0, 0.0, 1.0]];
    assert_eq!(rows_of(&matrix.to_reduced_row_echelon_form().unwrap()), in_form_matrix);
}

#[test]
fn rref_zero_matrix() {
    let matrix = matrix_of(vec![vec![0.0, 0.0], vec![0.0, 0.0]]);
    let in_form_matrix = vec![vec![0.0, 0.0], vec![0.0, 0.0]];
    assert_eq!(rows_of(&matrix.to_reduced_row_echelon_form().unwrap()), in_form_matrix);
}

#[test]
fn zero_first_column() {
    let mut matrix = matrix_of(vec![vec![2.0, 1.0], vec![1.0, 2.0]]);
    matrix.zero_a_column(0, 1);
    let target_matrix = vec![vec![0.0, -3.0], vec![1.0, 2.0]];
    assert_eq!(rows_of(&matrix), target_matrix);
}

#[test]
fn test_replacement_addition() {
    let mut matrix = matrix_of(vec![vec![2.0, 1.0], vec![1.0, 2.0]]);
    matrix.replacement_addition(0, 1, 0);
    let expected_matrix = vec![vec![0.0, -3.0], vec![1.0, 2.0]];
    assert_eq!(rows_of(&matrix), expected_matrix);
}

#[test]
fn calculate_row_scalar() {
    assert_eq!(
        Matrix::<Real>::calc_inverse_pivot_point(Real(5.0)),
        Ok(Real(1.0 / 5.0))
    );
}

#[test]
fn calculate_invalid_row_scalar() {
    assert_eq!(
        Matrix::<Real>::calc_inverse_pivot_point(Real(0.0)),
        Err(MatrixError::InvalidPivot)
    );
}

#[test]
fn test_get_leftmost_zero() {
    let matrix = matrix_of(vec![
        vec![0.0, 5.0, 0.0],
        vec![0.0, 4.0, 0.0],
        vec![10.0, 0.0, 0.0],
    ]);
    assert_eq!(matrix.get_leftmost_nonzero_in_a_col(0), 2);
    assert_eq!(matrix.get_leftmost_nonzero_in_a_col(1), 0);
    assert_eq!(matrix.get_leftmost_nonzero_in_a_col(2), usize::MAX);
}

#[test]
fn scale_row_to_one_test() {
    let mut matrix = matrix_of(vec![vec![0.0, 5.0, 0.0], vec![10.0, 0.0, 2.0]]);
    for i in 0..matrix.matrix.len() {
        let leftmost_nonzero = matrix.get_leftmost_nonzero_in_a_col(i);
        if leftmost_nonzero != i {
            matrix.scale_row_to_one(leftmost_nonzero, i).unwrap();
        }
    }
    assert_eq!(rows_of(&matrix), vec![vec![0.0, 1.0, 0.0], vec![1.0, 0.0, 0.2]]);
}

#[test]
fn swap_rows_test() {
    let mut matrix = matrix_of(vec![vec![0.0, 5.0], vec![10.0, 0.0]]);
    matrix.swap_rows(0, 1);
    let swapped_matrix = vec![vec![10.0, 0.0], vec![0.0, 5.0]];
    assert_eq!(rows_of(&matrix), swapped_matrix);
}

#[test]
fn already_in_row_echelon() {
    let matrix = matrix_of(vec![
        vec![1.0, 0.0, 0.0],
        vec![0.0, 1.0, 0.0],
        vec![0.0, 0.0, 1.0],
    ]);
    let expected = vec![
        vec![1.0, 0.0, 0.0],
        vec![0.0, 1.0, 0.0],
        vec![0.0, 0.0, 1.0],
    ];
    assert_eq!(rows_of(&matrix.to_reduced_row_echelon_form().unwrap()), expected);
}

#[test]
fn identity_matrix() {
    let identity_matrix = vec![
        vec![1.0, 0.0, 0.0],
        vec![0.0, 1.0, 0.0],
        vec![0.0, 0.0, 1.0],
    ];
    let test_identity_matrix = rows_of(&Matrix::from(Matrix::<Real>::get_identity_matrix(3)));
    assert_eq!(identity_matrix, test_identity_matrix);
}

#[test]
fn invertible_form_matrix() {
    let starting_matrix = vec![
        vec![2.0, 3.0, 5.0],
        vec![1.0, 4.0, 2.0],
        vec![1.0, 6.0, 3.0],
    ];
    let invertible_form_matrix = vec![
        vec![2.0, 3.0, 5.0, 1.0, 0.0, 0.0],
        vec![1.0, 4.0, 2.0, 0.0, 1.0, 0.0],
        vec![1.0, 6.0, 3.0, 0.0, 0.0, 1.0],
    ];
    let mut matrix = matrix_of(starting_matrix);
    assert_eq!(matrix.create_invertible_matrix_form(), Ok(()));
    assert_eq!(invertible_form_matrix, rows_of(&matrix));
}

#[test]
fn to_invertible_matrix() {
    let starting_matrix = matrix_of(vec![
        vec![2.0, 0.0, -1.0],
        vec![5.0, 1.0, 0.0],
        vec![0.0, 1.0, 3.0],
    ]);
    let expected_matrix = vec![
        vec![3.0, -1.0, 1.0],
        vec![-15.0, 6.0, -5.0],
        vec![5.0, -2.0, 2.0],
    ];
    assert_eq!(rows_of(&starting_matrix.calc_inverse().unwrap()), expected_matrix);
}

#[test]
fn retain_original_matrix() {
    let starting_matrix = matrix_of(vec![
        vec![2.0, 0.0, -1.0],
        vec![5.0, 1.0, 0.0],
        vec![0.0, 1.0, 3.0],
    ]);
    let starting_matrix_copy = rows_of(&starting_matrix);
    let _inverse = starting_matrix.calc_inverse();
    assert_eq!(starting_matrix_copy, rows_of(&starting_matrix));
}

#[test]
fn singular_matrix() {
    let starting_matrix = matrix_of(vec![vec![1.0, 2.0], vec![2.0, 4.0]]);
    assert!(matches!(
        starting_matrix.calc_inverse(),
        Err(MatrixError::SingularMatrix)
    ));
    assert_eq!(rows_of(&starting_matrix), vec![vec![1.0, 2.0], vec![2.0, 4.0]]);
}

#[test]
fn reduced_row_echelon() {
    let matrix = vec![vec![1.0, 3.0], vec![2.0, 1.5], vec![-2.0, -1.5]];
    let matrix_in_form = vec![vec![1.0, 0.0], vec![0.0, 1.0], vec![0.0, 0.0]];
    assert_eq!(reduce(matrix), matrix_in_form);
}

#[test]
fn reducing_rref_again_changes_nothing() {
    let rref = reduce(vec![vec![0.0, 10.0, 0.0], vec![0.0, 5.0, 2.5], vec![2.0, 0.0, 0.0]]);
    assert_eq!(reduce(rref.clone()), rref);
    let wide = vec![vec![1.0, 2.0, 0.0, 3.0], vec![0.0, 0.0, 1.0, 4.0], vec![0.0, 0.0, 0.0, 0.0]];
    assert_eq!(reduce(wide.clone()), wide);
}

#[test]
fn zero_matrix_of_any_shape_is_unchanged() {
    let tall = vec![vec![0.0, 0.0], vec![0.0, 0.0], vec![0.0, 0.0]];
    assert_eq!(reduce(tall.clone()), tall);
    let wide = vec![vec![0.0, 0.0, 0.0, 0.0]];
    assert_eq!(reduce(wide.clone()), wide);
    let empty: Vec<Vec<f64>> = vec![];
    assert_eq!(reduce(empty.clone()), empty);
}

#[test]
fn inverse_times_matrix_is_identity() {
    let a = vec![vec![2.0, 3.0, 5.0], vec![1.0, 4.0, 2.0], vec![1.0, 6.0, 3.0]];
    let inverse = rows_of(&matrix_of(a.clone()).calc_inverse().unwrap());
    let identity = rows_of(&Matrix::from(Matrix::<Real>::get_identity_matrix(3)));
    assert!(close(&product(&a, &inverse), &identity));
    let back = rows_of(&matrix_of(inverse).calc_inverse().unwrap());
    assert!(close(&back, &a));
}

#[test]
fn reduction_keeps_shape() {
    let tall = vec![vec![1.0, 2.0], vec![3.0, 4.0], vec![5.0, 6.0], vec![7.0, 8.0]];
    let out = reduce(tall);
    assert_eq!(out.len(), 4);
    assert!(out.iter().all(|r| r.len() == 2));
    assert_eq!(out, vec![vec![1.0, 0.0], vec![0.0, 1.0], vec![0.0, 0.0], vec![0.0, 0.0]]);
}

#[test]
fn swapping_a_row_with_itself_changes_nothing() {
    let mut matrix = matrix_of(vec![vec![0.0, 5.0], vec![10.0, 0.0]]);
    matrix.swap_rows(1, 1);
    assert_eq!(rows_of(&matrix), vec![vec![0.0, 5.0], vec![10.0, 0.0]]);
}

#[test]
fn elimination_leaves_unit_column() {
    let mut matrix = matrix_of(vec![vec![3.0, 1.0, 2.0], vec![6.0, 2.0, 1.0], vec![9.0, 0.0, 4.0]]);
    matrix.scale_row_to_one(0, 1).unwrap();
    matrix.zero_a_column(0, 1);
    let out = rows_of(&matrix);
    assert_eq!(out[1][0], 1.0);
    assert_eq!(out[0][0], 0.0);
    assert_eq!(out[2][0], 0.0);
    assert_eq!(out[1], vec![1.0, 2.0 / 6.0, 1.0 / 6.0]);
}

#[test]
fn scenario_inverse_of_three_by_three() {
    let inverse = matrix_of(vec![vec![2.0, 0.0, -1.0], vec![5.0, 1.0, 0.0], vec![0.0, 1.0, 3.0]])
        .calc_inverse()
        .unwrap();
    assert_eq!(
        rows_of(&inverse),
        vec![vec![3.0, -1.0, 1.0], vec![-15.0, 6.0, -5.0], vec![5.0, -2.0, 2.0]]
    );
}

#[test]
fn non_square_matrix_has_no_inverse() {
    let matrix = matrix_of(vec![vec![1.0, 2.0, 3.0], vec![4.0, 5.0, 6.0]]);
    assert!(matches!(matrix.calc_inverse(), Err(MatrixError::NonSquareMatrix)));
    let mut matrix = matrix;
    assert_eq!(matrix.create_invertible_matrix_form(), Err(MatrixError::NonSquareMatrix));
    assert_eq!(rows_of(&matrix), vec![vec![1.0, 2.0, 3.0], vec![4.0, 5.0, 6.0]]);
}

#[test]
fn non_finite_pivot_reports_invalid_pivot() {
    let mut matrix = matrix_of(vec![vec![f64::NAN, 1.0], vec![2.0, 3.0]]);
    assert_eq!(matrix.calc_reduced_row_echelon_form(), Err(MatrixError::InvalidPivot));
    assert!(matrix.matrix[0][0].0.is_nan());
    assert_eq!(matrix.matrix[1], vec![Real(2.0), Real(3.0)]);
    let tiny = matrix_of(vec![vec![5e-324, 1.0]]);
    assert!(matches!(tiny.to_reduced_row_echelon_form(), Err(MatrixError::InvalidPivot)));
}

#[test]
fn leftmost_nonzero_in_a_row() {
    let matrix = matrix_of(vec![vec![0.0, 0.0, 7.0], vec![0.0, 0.0, 0.0]]);
    assert_eq!(matrix.get_leftmost_nonzero_in_a_row(0), 2);
    assert_eq!(matrix.get_leftmost_nonzero_in_a_row(1), usize::MAX);
}

#[test]
fn pivot_already_one_is_left_alone() {
    let mut matrix = matrix_of(vec![vec![1.0, 0.1]]);
    matrix.scale_row_to_one(0, 0).unwrap();
    assert_eq!(rows_of(&matrix), vec![vec![1.0, 0.1]]);
}
