use linear_algebra_rs::linnum::LinNum;
use linear_algebra_rs::matrix::{LinMatrix, MatrixError};

fn lnum(x: f64) -> LinNum {
    LinNum::new_real(x.to_bits())
}

fn matrix(rows: &[&[f64]]) -> LinMatrix {
    let cells: Vec<Vec<LinNum>> = rows.iter().map(|r| r.iter().map(|&x| lnum(x)).collect()).collect();
    let slices: Vec<&[LinNum]> = cells.iter().map(|r| r.as_slice()).collect();
    LinMatrix::from(&slices)
}

fn int_matrix(rows: &[&[i128]]) -> LinMatrix {
    let cells: Vec<Vec<LinNum>> =
        rows.iter().map(|r| r.iter().map(|&x| LinNum::from_int(x)).collect()).collect();
    let slices: Vec<&[LinNum]> = cells.iter().map(|r| r.as_slice()).collect();
    LinMatrix::from(&slices)
}

#[test]
fn it_works() {
    let matrix = matrix(&[&[1.0, 2.0, 3.0], &[4.0, 5.0, 6.0]]);
    assert_eq!(matrix.dim(), (2, 3));
    assert_eq!(matrix.get(0, 0), lnum(1.0));
    assert_eq!(matrix.get(1, 2), lnum(6.0));
    assert_eq!(
        matrix.transpose(),
        self::matrix(&[&[1.0, 4.0], &[2.0, 5.0], &[3.0, 6.0]])
    );
}

#[test]
fn matrix_test_add() {
    let matrix1 = matrix(&[&[1.0, 2.0], &[3.0, 4.0]]);
    let matrix2 = matrix(&[&[5.0, 6.0], &[7.0, 8.0]]);
    let result = matrix1.add(matrix2);
    assert_eq!(result, Ok(matrix(&[&[6.0, 8.0], &[10.0, 12.0]])));
}

#[test]
fn matrix_test_sub() {
    let matrix1 = matrix(&[&[1.0, 2.0], &[3.0, 4.0]]);
    let matrix2 = matrix(&[&[5.0, 6.0], &[7.0, 8.0]]);
    let result = matrix1.sub(matrix2);
    assert_eq!(result, Ok(matrix(&[&[-4.0, -4.0], &[-4.0, -4.0]])));
}

#[test]
fn matrix_test_mul() {
    let m = matrix(&[&[1.0, 2.0], &[3.0, 4.0]]);
    let result = m.mul_scalar(lnum(2.0));
    assert_eq!(result, matrix(&[&[2.0, 4.0], &[6.0, 8.0]]));
}

#[test]
fn matrix_test_div() {
    let m = matrix(&[&[2.0, 4.0], &[6.0, 8.0]]);
    let result = m.div_scalar(lnum(2.0));
    assert_eq!(result, matrix(&[&[1.0, 2.0], &[3.0, 4.0]]));
}

#[test]
fn test_mul_matrix() {
    let matrix1 = matrix(&[&[1.0, 2.0], &[3.0, 4.0]]);
    let matrix2 = matrix(&[&[5.0, 6.0], &[7.0, 8.0]]);
    let result = matrix1.mul(matrix2).unwrap();
    assert_eq!(result, matrix(&[&[19.0, 22.0], &[43.0, 50.0]]));
}

#[test]
fn test_mul_matrix_error() {
    let matrix1 = matrix(&[&[1.0, 2.0], &[3.0, 4.0]]);
    let matrix2 = matrix(&[&[5.0, 6.0]]);
    let result = matrix1.mul(matrix2);
    assert_eq!(result, Err(MatrixError::DimensionMismatch));
}

#[test]
fn matrix_test_index() {
    let m = matrix(&[&[1.0, 2.0], &[3.0, 4.0]]);
    assert_eq!(m.get(0, 0), lnum(1.0));
    assert_eq!(m.get(1, 1), lnum(4.0));
}

#[test]
fn matrix_test_index_mut() {
    let mut m = matrix(&[&[1.0, 2.0], &[3.0, 4.0]]);
    m.set(0, 0, lnum(5.0));
    assert_eq!(m.get(0, 0), lnum(5.0));
}

#[test]
fn new_is_all_real_zeros() {
    let m = LinMatrix::new(2, 3);
    assert_eq!(m.dim(), (2, 3));
    assert_eq!(m, matrix(&[&[0.0, 0.0, 0.0], &[0.0, 0.0, 0.0]]));
}

#[test]
fn transpose_twice_is_identity() {
    let m = matrix(&[&[1.0, 2.0, 3.0], &[4.0, 5.0, 6.0]]);
    let t = m.transpose();
    assert_eq!(t.dim(), (3, 2));
    assert_eq!(t.get(2, 1), lnum(6.0));
    assert_eq!(t.transpose(), m);
}

#[test]
fn determinant_of_two_by_two() {
    let m = matrix(&[&[1.0, 2.0], &[3.0, 4.0]]);
    assert_eq!(m.determinant(), Ok(lnum(-2.0)));
    let m = int_matrix(&[&[1, 2], &[3, 4]]);
    assert_eq!(m.determinant(), Ok(LinNum::from_int(-2)));
}

#[test]
fn determinant_of_three_by_three() {
    let m = matrix(&[&[1.0, 2.0, 3.0], &[4.0, 5.0, 6.0], &[7.0, 8.0, 9.0]]);
    assert_eq!(m.determinant(), Ok(lnum(0.0)));
    let m = int_matrix(&[&[1, 2, 3], &[4, 5, 6], &[7, 8, 9]]);
    assert_eq!(m.determinant(), Ok(LinNum::from_int(0)));
    let m = int_matrix(&[&[2, 0, 1], &[1, 3, 2], &[1, 1, 2]]);
    assert_eq!(m.determinant(), Ok(LinNum::from_int(6)));
}

#[test]
fn determinant_of_one_by_one_and_four_by_four() {
    assert_eq!(int_matrix(&[&[7]]).determinant(), Ok(LinNum::from_int(7)));
    let m = int_matrix(&[&[1, 0, 2, -1], &[3, 0, 0, 5], &[2, 1, 4, -3], &[1, 0, 5, 0]]);
    assert_eq!(m.determinant(), Ok(LinNum::from_int(30)));
}

#[test]
fn determinant_stays_exact_for_fractions() {
    let half = LinNum::new_rational(1, 2);
    let third = LinNum::new_rational(1, 3);
    let one = LinNum::from_int(1);
    let rows: [&[LinNum]; 3] = [&[half, third, one], &[one, half, third], &[third, one, half]];
    let m = LinMatrix::from(&rows);
    let det = m.determinant().unwrap();
    assert!(det.is_rational());
    assert_eq!(det, LinNum::new_rational(143, 216));
}

#[test]
fn determinant_of_non_square_fails() {
    let m = matrix(&[&[1.0, 2.0, 3.0], &[4.0, 5.0, 6.0]]);
    assert_eq!(m.determinant(), Err(MatrixError::DimensionMismatch));
}

#[test]
fn add_and_sub_of_mismatched_shapes_fail() {
    let a = matrix(&[&[1.0, 2.0], &[3.0, 4.0]]);
    let b = matrix(&[&[5.0, 6.0]]);
    assert_eq!(a.add(b), Err(MatrixError::DimensionMismatch));
    let a = matrix(&[&[1.0, 2.0], &[3.0, 4.0]]);
    let b = matrix(&[&[5.0, 6.0]]);
    assert_eq!(a.sub(b), Err(MatrixError::DimensionMismatch));
}

#[test]
fn matrix_product_is_associative_on_small_integers() {
    let a = matrix(&[&[1.0, 2.0], &[3.0, 4.0]]);
    let b = matrix(&[&[0.0, 1.0, 2.0], &[1.0, 0.0, -1.0]]);
    let c = matrix(&[&[2.0], &[1.0], &[3.0]]);
    let left = a.mul(b).unwrap().mul(c).unwrap();
    let a = matrix(&[&[1.0, 2.0], &[3.0, 4.0]]);
    let b = matrix(&[&[0.0, 1.0, 2.0], &[1.0, 0.0, -1.0]]);
    let c = matrix(&[&[2.0], &[1.0], &[3.0]]);
    let right = a.mul(b.mul(c).unwrap()).unwrap();
    assert_eq!(left, right);
    assert_eq!(left, matrix(&[&[5.0], &[17.0]]));
}

#[test]
fn matrix_product_of_fractions_is_real() {
    let a = int_matrix(&[&[1, 2]]);
    let b = int_matrix(&[&[3], &[4]]);
    assert_eq!(a.mul(b).unwrap().get(0, 0), lnum(11.0));
}

#[test]
fn scalar_division_of_integers_stays_exact() {
    let m = int_matrix(&[&[1, 2], &[3, 4]]);
    let r = m.div_scalar(LinNum::from_int(3));
    assert_eq!(r.get(0, 0), LinNum::new_rational(1, 3));
    assert_eq!(r.get(1, 0), LinNum::from_int(1));
    assert!(r.get(1, 1).is_rational());
}

#[test]
fn scalar_times_matrix() {
    let m = int_matrix(&[&[1, 2], &[3, 4]]);
    let r = LinNum::new_rational(1, 2).mul_matrix(m);
    assert_eq!(r, int_matrix(&[&[1, 2], &[3, 4]]).div_scalar(LinNum::from_int(2)));
    assert_eq!(r.get(0, 1), LinNum::from_int(1));
}

#[test]
fn compound_assignments_on_matrices() {
    let mut m = matrix(&[&[1.0, 2.0], &[3.0, 4.0]]);
    m.add_assign(matrix(&[&[1.0, 1.0], &[1.0, 1.0]]));
    assert_eq!(m, matrix(&[&[2.0, 3.0], &[4.0, 5.0]]));
    m.sub_assign(matrix(&[&[2.0, 2.0], &[2.0, 2.0]]));
    assert_eq!(m, matrix(&[&[0.0, 1.0], &[2.0, 3.0]]));
    m.mul_scalar_assign(lnum(3.0));
    assert_eq!(m, matrix(&[&[0.0, 3.0], &[6.0, 9.0]]));
    m.div_scalar_assign(lnum(3.0));
    assert_eq!(m, matrix(&[&[0.0, 1.0], &[2.0, 3.0]]));
}
