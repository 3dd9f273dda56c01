//! Small helpers shared by the transforms: pointwise products and Horner
//! evaluation on raw vectors of the two concrete fields.

use vstd::prelude::*;

use crate::fp::Fp;
use crate::fr::Scalar;
use crate::polynomial::{poly_eval, seq_views};

verus! {

/// An elementwise copy of a vector.
pub(crate) fn copy_vec<T: Copy>(v: &Vec<T>) -> (r: Vec<T>)
    ensures
        r@ == v@,
{
    let mut out: Vec<T> = Vec::new();
    let mut i: usize = 0;
    while i < v.len()
        invariant
            i <= v@.len(),
            out@ == v@.take(i as int),
        decreases v@.len() - i,
    {
        out.push(v[i]);
        proof {
            assert(out@ =~= v@.take(i as int + 1));
        }
        i += 1;
    }
    proof {
        assert(v@.take(v@.len() as int) =~= v@);
    }
    out
}

/// The first `at` elements and the rest, as two vectors.
pub(crate) fn split_vec<T: Copy>(v: Vec<T>, at: usize) -> (r: (Vec<T>, Vec<T>))
    requires
        at <= v@.len(),
    ensures
        r.0@ == v@.take(at as int),
        r.1@ == v@.skip(at as int),
{
    let mut left: Vec<T> = Vec::new();
    let mut i: usize = 0;
    while i < at
        invariant
            i <= at,
            at <= v@.len(),
            left@ == v@.take(i as int),
        decreases at - i,
    {
        left.push(v[i]);
        proof {
            assert(left@ =~= v@.take(i as int + 1));
        }
        i += 1;
    }
    let mut right: Vec<T> = Vec::new();
    let mut i: usize = at;
    while i < v.len()
        invariant
            at <= i <= v@.len(),
            right@ == v@.subrange(at as int, i as int),
        decreases v@.len() - i,
    {
        right.push(v[i]);
        proof {
            assert(right@ =~= v@.subrange(at as int, i as int + 1));
        }
        i += 1;
    }
    proof {
        assert(right@ =~= v@.skip(at as int));
    }
    (left, right)
}

/// The two vectors, one after the other.
pub(crate) fn concat_vec<T: Copy>(mut a: Vec<T>, b: Vec<T>) -> (r: Vec<T>)
    requires
        a@.len() + b@.len() <= usize::MAX,
    ensures
        r@ == a@ + b@,
{
    let ghost a0 = a@;
    let mut i: usize = 0;
    while i < b.len()
        invariant
            i <= b@.len(),
            a0.len() + b@.len() <= usize::MAX,
            a@ == a0 + b@.take(i as int),
        decreases b@.len() - i,
    {
        a.push(b[i]);
        proof {
            assert(a@ =~= a0 + b@.take(i as int + 1));
        }
        i += 1;
    }
    proof {
        assert(a0 + b@.take(b@.len() as int) =~= a0 + b@);
    }
    a
}

/// Pointwise product of two scalar-field vectors, over the positions both hold.
pub fn point_multiply_fr(a: Vec<Scalar>, b: Vec<Scalar>) -> (r: Vec<Scalar>)
    ensures
        r@.len() == if a@.len() <= b@.len() {
            a@.len()
        } else {
            b@.len()
        },
        forall|i: int| 0 <= i < r@.len() ==> r@[i]@ == (a@[i]@ * b@[i]@) % crate::fr::r_mod(),
{
    let n = if a.len() <= b.len() {
        a.len()
    } else {
        b.len()
    };
    let mut values: Vec<Scalar> = Vec::new();
    let mut i: usize = 0;
    while i < n
        invariant
            i <= n,
            n <= a@.len() && n <= b@.len(),
            n == if a@.len() <= b@.len() {
                a@.len()
            } else {
                b@.len()
            },
            values@.len() == i,
            forall|j: int| 0 <= j < i ==> values@[j]@ == (a@[j]@ * b@[j]@) % crate::fr::r_mod(),
        decreases n - i,
    {
        values.push(a[i].mul(&b[i]));
        i += 1;
    }
    values
}

/// Pointwise product of two base-field vectors, over the positions both hold.
pub fn point_multiply_fq(a: Vec<Fp>, b: Vec<Fp>) -> (r: Vec<Fp>)
    ensures
        r@.len() == if a@.len() <= b@.len() {
            a@.len()
        } else {
            b@.len()
        },
        forall|i: int| 0 <= i < r@.len() ==> r@[i]@ == (a@[i]@ * b@[i]@) % crate::fp::p_mod(),
{
    let n = if a.len() <= b.len() {
        a.len()
    } else {
        b.len()
    };
    let mut values: Vec<Fp> = Vec::new();
    let mut i: usize = 0;
    while i < n
        invariant
            i <= n,
            n <= a@.len() && n <= b@.len(),
            n == if a@.len() <= b@.len() {
                a@.len()
            } else {
                b@.len()
            },
            values@.len() == i,
            forall|j: int| 0 <= j < i ==> values@[j]@ == (a@[j]@ * b@[j]@) % crate::fp::p_mod(),
        decreases n - i,
    {
        values.push(a[i].mul(&b[i]));
        i += 1;
    }
    values
}

/// Horner evaluation of a base-field coefficient vector at `x`.
pub fn polynomial_evaluation(coeffs: Vec<Fp>, x: Fp) -> (r: Fp)
    ensures
        r@ == poly_eval(seq_views(coeffs@), x@, crate::fp::p_mod()),
{
    crate::naive::evaluate(&coeffs, &x)
}

} // verus!
