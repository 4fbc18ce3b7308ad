use linear_algebra_rs::linnum::LinNum;
use linear_algebra_rs::vector::LinVector;

fn linvector(values: &[i128]) -> LinVector {
    LinVector::new(values.iter().map(|&x| LinNum::from_int(x)).collect())
}

fn dbl(x: f64) -> LinNum {
    LinNum::new_real(x.to_bits())
}

#[test]
fn test_dim() {
    let vec = linvector(&[1, 2, 3]);
    assert_eq!(vec.dim(), 3);
}

#[test]
fn test_dot_product() {
    let vec1 = linvector(&[1, 2, 3]);
    let vec2 = linvector(&[4, 5, 6]);
    assert_eq!(vec1.dot_product(&vec2), dbl(32.0));
}

#[test]
fn test_cross_product() {
    let vec1 = linvector(&[1, 2, 3]);
    let vec2 = linvector(&[4, 5, 6]);
    let result = vec1.cross_product(&vec2).unwrap();
    assert_eq!(result, linvector(&[-3, 6, -3]));
}

#[test]
fn cross_product_needs_three_entries() {
    let vec1 = linvector(&[1, 2]);
    let vec2 = linvector(&[4, 5, 6]);
    assert!(vec1.cross_product(&vec2).is_none());
}

#[test]
fn vector_test_add() {
    let result = linvector(&[1, 2, 3]).add(linvector(&[4, 5, 6]));
    assert_eq!(result, linvector(&[5, 7, 9]));
}

#[test]
fn vector_test_sub() {
    let result = linvector(&[1, 2, 3]).sub(linvector(&[4, 5, 6]));
    assert_eq!(result, linvector(&[-3, -3, -3]));
}

#[test]
fn vector_test_mul() {
    let result = linvector(&[1, 2, 3]).mul(dbl(2.0));
    assert_eq!(result, linvector(&[2, 4, 6]));
}

#[test]
fn vector_test_div() {
    let result = linvector(&[2, 4, 6]).div(dbl(2.0));
    assert_eq!(result, linvector(&[1, 2, 3]));
}

#[test]
fn test_mul_assign() {
    let mut vec = linvector(&[1, 2, 3]);
    vec.mul_assign(dbl(2.0));
    assert_eq!(vec, linvector(&[2, 4, 6]));
}

#[test]
fn test_div_assign() {
    let mut vec = linvector(&[2, 4, 6]);
    vec.div_assign(dbl(2.0));
    assert_eq!(vec, linvector(&[1, 2, 3]));
}

#[test]
fn test_add_assign() {
    let mut vec1 = linvector(&[1, 2, 3]);
    let vec2 = linvector(&[4, 5, 6]);
    vec1.add_assign(vec2);
    assert_eq!(vec1, linvector(&[5, 7, 9]));
}

#[test]
fn test_sub_assign() {
    let mut vec1 = linvector(&[1, 2, 3]);
    let vec2 = linvector(&[4, 5, 6]);
    vec1.sub_assign(vec2);
    assert_eq!(vec1, linvector(&[-3, -3, -3]));
}

#[test]
fn vector_test_index() {
    let vec = linvector(&[1, 2, 3]);
    assert_eq!(vec.get(0), dbl(1.0));
    assert_eq!(vec.get(1), dbl(2.0));
    assert_eq!(vec.get(2), dbl(3.0));
}

#[test]
fn vector_test_index_mut() {
    let mut vec = linvector(&[1, 2, 3]);
    vec.set(0, dbl(4.0));
    vec.set(1, dbl(5.0));
    vec.set(2, dbl(6.0));
    assert_eq!(vec, linvector(&[4, 5, 6]));
}

#[test]
fn test_iterator() {
    let vec = linvector(&[1, 2, 3]);
    let mut iter = vec.into_numbers().into_iter();
    assert_eq!(iter.next(), Some(dbl(1.0)));
    assert_eq!(iter.next(), Some(dbl(2.0)));
    assert_eq!(iter.next(), Some(dbl(3.0)));
    assert_eq!(iter.next(), None);
}

#[test]
fn rational_numbers_turn_doubles_into_fractions() {
    let vec = linvector(&[1, 2, 3]).rational_numbers();
    assert_eq!(vec.get(1), LinNum::from_int(2));
    let vec = vec.real_numbers();
    assert_eq!(vec.get(2), dbl(3.0));
}
