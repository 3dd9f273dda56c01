//! Checks of the parameter curve: the fixed points lie on it, and the group
//! operations keep points on it.

use ecfft::ecfft::curve::{Ep, EpAffine};
use ecfft::fp::Fp;

fn next_rand(state: &mut u64) -> u64 {
    let mut x = *state;
    x ^= x << 13;
    x ^= x >> 7;
    x ^= x << 17;
    *state = x;
    x
}

fn rand_fp(state: &mut u64) -> Fp {
    Fp::from_raw([
        next_rand(state),
        next_rand(state),
        next_rand(state),
        next_rand(state),
    ])
}

#[test]
fn test_const_points_is_on_curve() {
    let affine_generator = EpAffine::generator();
    let projective_generator = Ep::generator();

    assert!(affine_generator.is_on_curve());
    assert!(projective_generator.is_on_curve());
}

#[test]
fn test_add_points() {
    let projective_representative = Ep::representative();
    let projective_generator = Ep::generator();

    let add = projective_generator.add_point(&projective_representative);
    assert!(add.is_on_curve());
}

#[test]
fn test_double_point() {
    let projective_representative = Ep::representative();

    let double = projective_representative.double();
    assert!(double.is_on_curve());
}

#[test]
fn test_subgroup_order() {
    let projective_generator = Ep::generator();
    let order: u64 = 1 << 14;
    let identity = projective_generator.mul(&Fp::from_raw([order, 0, 0, 0]));

    assert!(identity.is_identity());
}

#[test]
fn test_to_affine() {
    let projective_generator = Ep::generator();
    let mut state: u64 = 0x1234_5678_9abc_def1;
    let random_point = projective_generator.mul(&rand_fp(&mut state));
    let affine_point = random_point.to_affine();

    assert!(affine_point.is_on_curve());
}

#[test]
fn test_affine_representative_round_trip() {
    let affine = EpAffine::representative();
    assert!(affine.is_on_curve());
    let projective = affine.to_curve();
    assert!(projective.is_on_curve());
    assert!(!projective.is_identity());
}
