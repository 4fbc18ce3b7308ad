use linear_algebra_rs::linnum::LinNum;

fn dbl(x: f64) -> LinNum {
    LinNum::new_real(x.to_bits())
}

fn real_value(n: &LinNum) -> f64 {
    f64::from_bits(n.real_parts().expect("Expected Real value"))
}

#[test]
fn test_new_rational() {
    let linnum = LinNum::new_rational(2, 4);
    assert!(linnum.is_rational());
    assert!(!linnum.is_real());
}

#[test]
fn test_new_real() {
    let linnum = dbl(2.0);
    assert!(!linnum.is_rational());
    assert!(linnum.is_real());
}

#[test]
fn test_add_rational() {
    let linnum1 = LinNum::new_rational(2, 4);
    let linnum2 = LinNum::new_rational(1, 4);
    let result = linnum1.add(linnum2);
    assert!(result.is_rational());
    match result.rational_parts() {
        Some((num, den)) => {
            assert_eq!(num, 3);
            assert_eq!(den, 4);
        }
        None => panic!("Expected Rational value"),
    }
}

#[test]
fn test_add_real() {
    let result = dbl(2.0).add(dbl(1.0));
    assert!(result.is_real());
    assert_eq!(real_value(&result), 3.0);
}

#[test]
fn test_sub_rational() {
    let result = LinNum::new_rational(2, 4).sub(LinNum::new_rational(1, 4));
    assert!(result.is_rational());
    match result.rational_parts() {
        Some((num, den)) => {
            assert_eq!(num, 1);
            assert_eq!(den, 4);
        }
        None => panic!("Expected Rational value"),
    }
}

#[test]
fn test_sub_real() {
    let result = dbl(2.0).sub(dbl(1.0));
    assert!(result.is_real());
    assert_eq!(real_value(&result), 1.0);
}

#[test]
fn test_mul_rational() {
    let result = LinNum::new_rational(2, 4).mul(LinNum::new_rational(1, 4));
    assert!(result.is_rational());
    match result.rational_parts() {
        Some((num, den)) => {
            assert_eq!(num, 1);
            assert_eq!(den, 8);
        }
        None => panic!("Expected Rational value"),
    }
}

#[test]
fn test_mul_real() {
    let result = dbl(2.0).mul(dbl(1.0));
    assert!(result.is_real());
    assert_eq!(real_value(&result), 2.0);
}

#[test]
fn test_div_rational() {
    let result = LinNum::new_rational(2, 4).div(LinNum::new_rational(1, 4));
    assert!(result.is_rational());
    match result.rational_parts() {
        Some((num, den)) => {
            assert_eq!(num, 2);
            assert_eq!(den, 1);
        }
        None => panic!("Expected Rational value"),
    }
}

#[test]
fn test_div_real() {
    let result = dbl(2.0).div(dbl(1.0));
    assert!(result.is_real());
    assert_eq!(real_value(&result), 2.0);
}

#[test]
fn test_from_i128() {
    let linnum = LinNum::from_int(2);
    assert!(linnum.is_rational());
    assert_eq!(linnum, LinNum::new_rational(2, 1));
}

#[test]
fn test_from_f64() {
    let linnum = dbl(2.0);
    assert!(linnum.is_real());
    assert_eq!(linnum, LinNum::new_real(2.0f64.to_bits()));
}

#[test]
fn test_to_real() {
    let result = LinNum::new_rational(2, 1).to_real();
    assert!(result.is_real());
    assert_eq!(result, dbl(2.0));
}

#[test]
fn test_to_rational() {
    let result = dbl(1.5).to_rational();
    assert!(result.is_rational());
    assert_eq!(result, LinNum::new_rational(3, 2));
}

#[test]
fn rational_is_stored_in_lowest_terms_with_positive_denominator() {
    assert_eq!(LinNum::new_rational(6, -8).rational_parts(), Some((-3, 4)));
    assert_eq!(LinNum::new_rational(-6, -8).rational_parts(), Some((3, 4)));
    assert_eq!(LinNum::new_rational(0, -5).rational_parts(), Some((0, 1)));
    assert_eq!(LinNum::new_rational(7, 1).rational_parts(), Some((7, 1)));
}

#[test]
fn rational_scaling_gives_same_value() {
    for k in [-12i128, -3, -1, 1, 2, 9] {
        assert_eq!(LinNum::new_rational(5 * k, 7 * k), LinNum::new_rational(5, 7));
        assert_eq!(LinNum::new_rational(-4 * k, 6 * k), LinNum::new_rational(-2, 3));
    }
}

#[test]
fn mixed_arithmetic_promotes_to_real() {
    let half = LinNum::new_rational(1, 2);
    let r = half.add(dbl(0.25));
    assert_eq!(real_value(&r), 0.75);
    let r = dbl(3.0).mul(LinNum::new_rational(1, 4));
    assert_eq!(real_value(&r), 0.75);
    let r = dbl(1.0).div(LinNum::new_rational(1, 4));
    assert_eq!(real_value(&r), 4.0);
    let r = LinNum::new_rational(1, 3).sub(dbl(0.0));
    assert_eq!(real_value(&r), 1.0 / 3.0);
}

#[test]
fn real_division_by_zero_follows_ieee() {
    let r = dbl(1.0).div(dbl(0.0));
    assert_eq!(real_value(&r), f64::INFINITY);
    let r = dbl(0.0).div(dbl(0.0));
    assert!(real_value(&r).is_nan());
}

#[test]
fn rational_round_trip_through_real() {
    for (n, d) in [(3i128, 7i128), (-5, 12), (99, 100), (1, 97), (22, 7)] {
        let x = LinNum::new_rational(n, d);
        assert_eq!(x.to_real().to_rational(), x);
    }
}

#[test]
fn to_rational_picks_nearest_fraction() {
    assert_eq!(dbl(1.0 / 3.0).to_rational(), LinNum::new_rational(1, 3));
    assert_eq!(dbl(-2.0).to_rational(), LinNum::new_rational(-2, 1));
    assert_eq!(dbl(2.5).to_rational(), LinNum::new_rational(5, 2));
    assert_eq!(dbl(0.29).to_rational(), LinNum::new_rational(29, 100));
    assert_eq!(dbl(std::f64::consts::PI).to_rational(), LinNum::new_rational(311, 99));
}

#[test]
fn equality_is_variant_sensitive() {
    assert_ne!(LinNum::new_rational(2, 1), dbl(2.0));
    assert_eq!(LinNum::new_rational(2, 1).to_real(), dbl(2.0));
}

#[test]
fn conversion_to_integer_truncates() {
    assert_eq!(LinNum::new_rational(7, 2).to_int(), 3);
    assert_eq!(LinNum::new_rational(-7, 2).to_int(), -3);
    assert_eq!(dbl(-2.9).to_int(), -2);
    assert_eq!(dbl(f64::NAN).to_int(), 0);
}

#[test]
fn real_bits_of_rational() {
    assert_eq!(f64::from_bits(LinNum::new_rational(3, 4).real_bits()), 0.75);
}

#[test]
fn compound_assignment_replaces_value() {
    let mut x = LinNum::new_rational(1, 2);
    x.add_assign(LinNum::new_rational(1, 3));
    assert_eq!(x, LinNum::new_rational(5, 6));
    x.sub_assign(LinNum::new_rational(1, 6));
    assert_eq!(x, LinNum::new_rational(2, 3));
    x.mul_assign(LinNum::new_rational(3, 4));
    assert_eq!(x, LinNum::new_rational(1, 2));
    x.div_assign(dbl(0.5));
    assert_eq!(x, dbl(1.0));
}
