//! Checks of the classical radix-2 FFT reference: agreement with Horner
//! evaluation at the roots of unity, the forward/inverse round trip, and
//! polynomial multiplication against the naive convolution.

use ecfft::field::Field;
use ecfft::fr::Scalar;
use ecfft::ClassicFft;

fn next_rand(state: &mut u64) -> u64 {
    let mut x = *state;
    x ^= x << 13;
    x ^= x >> 7;
    x ^= x << 17;
    *state = x;
    x
}

fn rand_scalar(state: &mut u64) -> Scalar {
    Scalar::from_raw([
        next_rand(state),
        next_rand(state),
        next_rand(state),
        next_rand(state),
    ])
}

fn rand_poly(state: &mut u64, n: usize) -> Vec<Scalar> {
    let mut out = Vec::new();
    for _ in 0..n {
        out.push(rand_scalar(state));
    }
    out
}

/// An order-`2^k` root of unity: the canonical root squared `28 - k` times.
fn omega(k: u32) -> Scalar {
    let mut w = Scalar::root_of_unity();
    for _ in 0..(28 - k) {
        w = w.mul(&w);
    }
    w
}

#[test]
fn test_dft_agrees_with_horner_on_roots_of_unity() {
    let k = 3u32;
    let n = 1usize << k;
    let mut state: u64 = 0x4242_4242_0dd5_eed5;
    let poly = rand_poly(&mut state, n);
    let mut values = poly.clone();
    ClassicFft::new(k).dft(&mut values);

    let w = omega(k);
    let mut x = <Scalar as Field>::one();
    for i in 0..n {
        assert_eq!(values[i], ecfft::naive::evaluate(&poly, &x), "output {i}");
        x = x.mul(&w);
    }
}

#[test]
fn test_classic_fft_round_trip() {
    let k = 8u32;
    let n = 1usize << k;
    let mut state: u64 = 0x1357_9bdf_2468_ace0;
    let poly_a = rand_poly(&mut state, n);
    let mut poly_b = poly_a.clone();
    let classic_fft = ClassicFft::new(k);

    classic_fft.dft(&mut poly_b);
    classic_fft.idft(&mut poly_b);

    assert_eq!(poly_a, poly_b);
}

#[test]
fn test_fft_multiplication_matches_naive_convolution() {
    let k = 4u32;
    let n = 1usize << k;
    let mut state: u64 = 0xfeed_f00d_dead_beef;
    let poly_a = rand_poly(&mut state, n / 2);
    let poly_b = rand_poly(&mut state, n / 2);

    // order(n^2) convolution, already padded to length n
    let expected = ecfft::naive::naive_multiply_fr(poly_a.clone(), poly_b.clone());

    // order(n log n) multiplication through the transform
    let classic_fft = ClassicFft::new(k);
    let mut pa = poly_a;
    let mut pb = poly_b;
    pa.resize(n, <Scalar as Field>::zero());
    pb.resize(n, <Scalar as Field>::zero());
    classic_fft.dft(&mut pa);
    classic_fft.dft(&mut pb);
    let mut prod = ecfft::common::point_multiply_fr(pa, pb);
    classic_fft.idft(&mut prod);

    assert_eq!(expected, prod);
}
