//! Checks that the two field types compute real modular arithmetic: exact
//! small values, inverses, subtraction wrap-around, and powers.

use ecfft::field::Field;
use ecfft::fp::Fp;
use ecfft::fr::Scalar;

#[test]
fn test_fp_small_arithmetic() {
    let two = Fp::from_raw([2, 0, 0, 0]);
    let three = Fp::from_raw([3, 0, 0, 0]);
    let six = Fp::from_raw([6, 0, 0, 0]);
    let five = Fp::from_raw([5, 0, 0, 0]);

    assert_eq!(Fp::mul(&two, &three), six);
    assert_eq!(Fp::add(&two, &three), five);
    assert_eq!(six.sub(&three), three);
    assert_eq!(three.square(), Fp::from_raw([9, 0, 0, 0]));
    assert_eq!(two.pow_u64(10), Fp::from_raw([1024, 0, 0, 0]));
}

#[test]
fn test_fp_subtraction_wraps_modulo_p() {
    // 0 - 1 must be p - 1, the largest residue: adding 1 gives 0 again
    let zero = <Fp as Field>::zero();
    let one = <Fp as Field>::one();
    let minus_one = zero.sub(&one);
    assert!(minus_one != zero);
    assert_eq!(minus_one.add(&one), zero);
}

#[test]
fn test_fp_inverse() {
    let x = Fp::from_raw([0xdeadbeef, 0x12345678, 0, 1]);
    let xi = x.invert_or_zero();
    assert_eq!(x.mul(&xi), <Fp as Field>::one());
    let zero = <Fp as Field>::zero();
    assert_eq!(zero.invert_or_zero(), zero);
}

#[test]
fn test_fp_to_bytes_is_canonical_little_endian() {
    let x = Fp::from_raw([0x0102, 0, 0, 0]);
    let bytes = x.to_bytes();
    assert_eq!(bytes[0], 0x02);
    assert_eq!(bytes[1], 0x01);
    for t in 2..32 {
        assert_eq!(bytes[t], 0);
    }
}

#[test]
fn test_scalar_small_arithmetic() {
    let two = Scalar::from_raw([2, 0, 0, 0]);
    let three = Scalar::from_raw([3, 0, 0, 0]);
    assert_eq!(Scalar::mul(&two, &three), Scalar::from_raw([6, 0, 0, 0]));
    assert_eq!(two.sub(&three).add(&three), two);
    let ti = three.invert_or_zero();
    assert_eq!(three.mul(&ti), <Scalar as Field>::one());
}

#[test]
fn test_scalar_root_of_unity_order() {
    // the canonical root generates the order-2^28 subgroup: its 2^27-th
    // power is -1 and its 2^28-th power is 1
    let mut x = Scalar::root_of_unity();
    for _ in 0..27 {
        x = x.mul(&x);
    }
    let one = <Scalar as Field>::one();
    let zero = <Scalar as Field>::zero();
    assert_eq!(x, zero.sub(&one));
    assert_eq!(x.mul(&x), one);
}
