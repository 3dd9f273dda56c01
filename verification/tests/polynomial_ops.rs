//! Checks of the polynomial container and the naive reference routines:
//! exact Horner values, exact convolutions, and pointwise products.

use ecfft::field::Field;
use ecfft::fp::Fp;
use ecfft::fr::Scalar;
use ecfft::polynomial::PointValue;
use ecfft::{Coefficients, Polynomial};

fn fp(x: u64) -> Fp {
    Fp::from_raw([x, 0, 0, 0])
}

fn fr(x: u64) -> Scalar {
    Scalar::from_raw([x, 0, 0, 0])
}

#[test]
fn test_polynomial_evaluation_exact() {
    // p(x) = 1 + 2x + 3x^2 at x = 5: 1 + 10 + 75 = 86
    let poly = Polynomial::<Fp, Coefficients>::new(vec![fp(1), fp(2), fp(3)]);
    assert_eq!(poly.polynomial_evaluation(fp(5)), fp(86));
}

#[test]
fn test_polynomial_evaluation_empty_is_zero() {
    let poly = Polynomial::<Fp, Coefficients>::new(Vec::new());
    assert_eq!(poly.polynomial_evaluation(fp(7)), <Fp as Field>::zero());
}

#[test]
fn test_naive_multiply_exact_convolution() {
    // (1 + 2x) * (3 + 4x) = 3 + 10x + 8x^2, padded to length 4
    let a = Polynomial::<Fp, Coefficients>::new(vec![fp(1), fp(2)]);
    let b = Polynomial::<Fp, Coefficients>::new(vec![fp(3), fp(4)]);
    let c = a.naive_multiply(b);
    assert_eq!(
        c.get_values(),
        vec![fp(3), fp(10), fp(8), fp(0)],
    );
}

#[test]
fn test_naive_multiply_fr_and_fq_agree_with_hand_convolution() {
    let a = vec![fr(2), fr(0), fr(5)];
    let b = vec![fr(7), fr(1)];
    // (2 + 5x^2)(7 + x) = 14 + 2x + 35x^2 + 5x^3, padded to length 5
    let c = ecfft::naive::naive_multiply_fr(a, b);
    assert_eq!(c, vec![fr(14), fr(2), fr(35), fr(5), fr(0)]);

    let a = vec![fp(2), fp(0), fp(5)];
    let b = vec![fp(7), fp(1)];
    let c = ecfft::naive::naive_multiply_fq(a, b);
    assert_eq!(c, vec![fp(14), fp(2), fp(35), fp(5), fp(0)]);
}

#[test]
fn test_point_multiply_elementwise() {
    let a = Polynomial::<Fp, Coefficients>::new(vec![fp(2), fp(3), fp(4)]);
    let a: Polynomial<Fp, PointValue> = a.to_point_value(&vec![fp(0), fp(1), fp(2)]);
    // a evaluated: [2, 9, 24]
    let b = Polynomial::<Fp, Coefficients>::new(vec![fp(1), fp(1), fp(1)]);
    let b = b.to_point_value(&vec![fp(0), fp(1), fp(2)]);
    // b evaluated: [1, 3, 7]
    let c = a.point_multiply(b);
    assert_eq!(c.get_values(), vec![fp(2), fp(27), fp(168)]);
}

#[test]
fn test_free_point_multiply_functions() {
    let a = vec![fr(2), fr(3)];
    let b = vec![fr(5), fr(7), fr(11)];
    assert_eq!(
        ecfft::common::point_multiply_fr(a.clone(), b.clone()),
        vec![fr(10), fr(21)],
    );
    assert_eq!(
        ecfft::polynomial::point_multiply_fr(a, b),
        vec![fr(10), fr(21)],
    );
    let c = vec![fp(2), fp(3)];
    let d = vec![fp(5), fp(7)];
    assert_eq!(ecfft::common::point_multiply_fq(c, d), vec![fp(10), fp(21)]);
}

#[test]
fn test_common_polynomial_evaluation_matches_naive() {
    let coeffs = vec![fp(9), fp(8), fp(7), fp(6)];
    let x = fp(3);
    let direct = ecfft::common::polynomial_evaluation(coeffs.clone(), x);
    let through_naive = ecfft::naive::evaluate(&coeffs, &x);
    // 9 + 24 + 63 + 162 = 258
    assert_eq!(direct, fp(258));
    assert_eq!(through_naive, fp(258));
}

#[test]
fn test_to_point_value_matches_horner() {
    let poly = Polynomial::<Fp, Coefficients>::new(vec![fp(1), fp(0), fp(1)]);
    let domain = vec![fp(0), fp(3), fp(10)];
    let values = poly.to_point_value(&domain);
    // 1 + x^2 at 0, 3, 10
    assert_eq!(values.get_values(), vec![fp(1), fp(10), fp(101)]);
}
