//! The basis-tagged polynomial container, with naive reference routines:
//! Horner evaluation, pointwise product, and O(n^2) convolution.

use vstd::prelude::*;

use crate::field::Field;

verus! {

/// The sequence of residues a vector of field elements stands for.
pub open spec fn seq_views<F: View>(s: Seq<F>) -> Seq<F::V> {
    Seq::new(s.len(), |i: int| s[i]@)
}

pub proof fn lemma_seq_views_push<F: View>(s: Seq<F>, x: F)
    ensures
        seq_views(s.push(x)) =~= seq_views(s).push(x@),
{
}

pub proof fn lemma_seq_views_update<F: View>(s: Seq<F>, i: int, x: F)
    requires
        0 <= i < s.len(),
    ensures
        seq_views(s.update(i, x)) =~= seq_views(s).update(i, x@),
{
}

/// Horner evaluation of a coefficient sequence (index `i` holds the
/// coefficient of `x^i`) at a point, mod `m`.
pub open spec fn poly_eval(s: Seq<nat>, x: nat, m: nat) -> nat
    decreases s.len(),
{
    if s.len() == 0 {
        0
    } else {
        (s[0] + x * poly_eval(s.drop_first(), x, m)) % m
    }
}

/// A reduced evaluation is a residue.
pub proof fn lemma_poly_eval_bound(s: Seq<nat>, x: nat, m: nat)
    requires
        m > 1,
    ensures
        poly_eval(s, x, m) < m,
{
    if s.len() == 0 {
    } else {
        vstd::arithmetic::div_mod::lemma_mod_bound(
            (s[0] + x * poly_eval(s.drop_first(), x, m)) as int,
            m as int,
        );
    }
}

/// An all-zero coefficient sequence evaluates to zero.
pub proof fn lemma_poly_eval_zeros(s: Seq<nat>, x: nat, m: nat)
    requires
        m > 1,
        forall|i: int| 0 <= i < s.len() ==> s[i] == 0,
    ensures
        poly_eval(s, x, m) == 0,
    decreases s.len(),
{
    if s.len() > 0 {
        lemma_poly_eval_zeros(s.drop_first(), x, m);
        vstd::arithmetic::mul::lemma_mul_basics(x as int);
        vstd::arithmetic::div_mod::lemma_small_mod(0nat, m);
    }
}

/// The constant-one polynomial evaluates to one everywhere.
pub proof fn lemma_poly_eval_constant_one(s: Seq<nat>, x: nat, m: nat)
    requires
        m > 1,
        s.len() >= 1,
        s[0] == 1,
        forall|i: int| 1 <= i < s.len() ==> s[i] == 0,
    ensures
        poly_eval(s, x, m) == 1,
{
    lemma_poly_eval_zeros(s.drop_first(), x, m);
    vstd::arithmetic::mul::lemma_mul_basics(x as int);
    vstd::arithmetic::div_mod::lemma_small_mod(1nat, m);
}

/// Splitting a coefficient sequence at `mid` splits its evaluation:
/// `p(x) = p_low(x) + x^mid * p_high(x)` mod `m`.
pub proof fn lemma_poly_eval_split(s: Seq<nat>, mid: int, x: nat, m: nat)
    requires
        m > 1,
        0 <= mid <= s.len(),
    ensures
        poly_eval(s, x, m) == (poly_eval(s.take(mid), x, m) + crate::field::pow_mod(
            x,
            mid as nat,
            m,
        ) * poly_eval(s.skip(mid), x, m)) % m,
    decreases mid,
{
    let mi = m as int;
    if mid == 0 {
        assert(s.take(0) =~= Seq::<nat>::empty());
        assert(s.skip(0) =~= s);
        assert(crate::field::pow_mod(x, 0, m) == 1nat % m);
        vstd::arithmetic::div_mod::lemma_small_mod(1nat, m);
        vstd::arithmetic::mul::lemma_mul_basics(poly_eval(s, x, m) as int);
        lemma_poly_eval_bound(s, x, m);
        vstd::arithmetic::div_mod::lemma_small_mod(poly_eval(s, x, m), m);
    } else {
        let tail = s.drop_first();
        lemma_poly_eval_split(tail, mid - 1, x, m);
        assert(tail.take(mid - 1) =~= s.take(mid).drop_first());
        assert(tail.skip(mid - 1) =~= s.skip(mid));
        let a = poly_eval(s.take(mid).drop_first(), x, m) as int;
        let b = poly_eval(s.skip(mid), x, m) as int;
        let p1 = crate::field::pow_mod(x, (mid - 1) as nat, m) as int;
        let pm = crate::field::pow_mod(x, mid as nat, m) as int;
        let s0 = s[0] as int;
        let xi = x as int;
        assert(pm == (xi * p1) % mi);
        // the whole evaluation, with the tail's split pushed through the mod
        assert(poly_eval(s, x, m) as int == (s0 + xi * ((a + p1 * b) % mi)) % mi);
        vstd::arithmetic::div_mod::lemma_mul_mod_noop_right(xi, a + p1 * b, mi);
        vstd::arithmetic::div_mod::lemma_add_mod_noop_right(s0, xi * ((a + p1 * b) % mi), mi);
        vstd::arithmetic::div_mod::lemma_add_mod_noop_right(s0, xi * (a + p1 * b), mi);
        assert(poly_eval(s, x, m) as int == (s0 + xi * (a + p1 * b)) % mi);
        assert(xi * (a + p1 * b) == xi * a + xi * p1 * b) by (nonlinear_arith);
        // the target, unreduced the same way
        assert(poly_eval(s.take(mid), x, m) as int == (s0 + xi * a) % mi) by {
            assert(s.take(mid)[0] == s[0]);
        }
        assert((((s0 + xi * a) % mi) + pm * b) % mi == (s0 + xi * a + xi * p1 * b) % mi) by {
            assert(pm * b == ((xi * p1) % mi) * b);
            vstd::arithmetic::div_mod::lemma_mul_mod_noop_left(xi * p1, b, mi);
            vstd::arithmetic::div_mod::lemma_add_mod_noop_right((s0 + xi * a) % mi, pm * b, mi);
            vstd::arithmetic::div_mod::lemma_add_mod_noop_right(
                (s0 + xi * a) % mi,
                (xi * p1) * b,
                mi,
            );
            assert((xi * p1) * b == xi * p1 * b) by (nonlinear_arith);
            vstd::arithmetic::div_mod::lemma_add_mod_noop((s0 + xi * a), xi * p1 * b, mi);
            vstd::arithmetic::div_mod::lemma_add_mod_noop((s0 + xi * a) % mi, xi * p1 * b, mi);
            vstd::arithmetic::div_mod::lemma_mod_twice(xi * p1 * b, mi);
        }
    }
}

/// The term of `convolution(a, b)` at output position `t` contributed by
/// `a[i]`, as an unreduced integer.
pub open spec fn conv_term(a: Seq<nat>, b: Seq<nat>, t: int, i: int) -> int {
    if 0 <= i < a.len() && 0 <= t - i < b.len() {
        (a[i] * b[t - i]) as int
    } else {
        0
    }
}

/// The sum of the convolution terms at position `t` over `a[0], …, a[k-1]`,
/// as an unreduced integer.
pub open spec fn conv_prefix(a: Seq<nat>, b: Seq<nat>, t: int, k: int) -> int
    decreases k,
{
    if k <= 0 {
        0
    } else {
        conv_prefix(a, b, t, k - 1) + conv_term(a, b, t, k - 1)
    }
}

/// Coefficient `t` of the product polynomial `a * b`, before reduction mod the
/// field's modulus.
pub open spec fn convolution(a: Seq<nat>, b: Seq<nat>, t: int) -> int {
    conv_prefix(a, b, t, a.len() as int)
}

/// The basis over which a polynomial is described.
pub trait Basis: Copy {

}

/// The polynomial coefficient representation.
#[derive(Clone, Copy, Debug)]
pub struct Coefficients;

impl Basis for Coefficients {

}

/// The polynomial point-value representation.
#[derive(Clone, Copy, Debug)]
pub struct PointValue;

impl Basis for PointValue {

}

/// An ordered sequence of field elements, tagged with the basis that gives
/// them meaning: coefficients in degree order, or values on a domain.
#[derive(Debug)]
pub struct Polynomial<F, B> {
    values: Vec<F>,
    _marker: core::marker::PhantomData<B>,
}

impl<F: Field, B: Basis> View for Polynomial<F, B> {
    type V = Seq<nat>;

    closed spec fn view(&self) -> Seq<nat> {
        seq_views(self.values@)
    }
}

impl<F: Field, B: Basis> Polynomial<F, B> {
    pub fn new(coeffs: Vec<F>) -> (r: Polynomial<F, Coefficients>)
        ensures
            r@ == seq_views(coeffs@),
    {
        Polynomial { values: coeffs, _marker: core::marker::PhantomData }
    }

    /// A vector of field elements read as values on a domain.
    pub(crate) fn from_point_values(values: Vec<F>) -> (r: Polynomial<F, PointValue>)
        ensures
            r@ == seq_views(values@),
    {
        Polynomial { values, _marker: core::marker::PhantomData }
    }

    pub fn get_values(self) -> (r: Vec<F>)
        ensures
            seq_views(r@) == self@,
    {
        self.values
    }

    /// The number of stored elements.
    pub fn len(&self) -> (r: usize)
        ensures
            r == self@.len(),
    {
        self.values.len()
    }

}

impl<F: Field> Polynomial<F, PointValue> {
    /// Pointwise product of two polynomials in point-value form, over the
    /// positions both hold.
    pub fn point_multiply(self, b: Polynomial<F, PointValue>) -> (r: Polynomial<F, PointValue>)
        ensures
            r@.len() == if self@.len() <= b@.len() {
                self@.len()
            } else {
                b@.len()
            },
            forall|i: int|
                0 <= i < r@.len() ==> r@[i] == (self@[i] * b@[i]) % F::modulus(),
    {
        let n = if self.values.len() <= b.values.len() {
            self.values.len()
        } else {
            b.values.len()
        };
        let mut values: Vec<F> = Vec::new();
        let mut i: usize = 0;
        while i < n
            invariant
                i <= n,
                n == if self@.len() <= b@.len() {
                    self@.len()
                } else {
                    b@.len()
                },
                n <= self.values@.len() && n <= b.values@.len(),
                self@ == seq_views(self.values@),
                b@ == seq_views(b.values@),
                values@.len() == i,
                forall|j: int|
                    0 <= j < i ==> seq_views(values@)[j] == (self@[j] * b@[j]) % F::modulus(),
            decreases n - i,
        {
            let prod = self.values[i].mul(&b.values[i]);
            proof {
                lemma_seq_views_push(values@, prod);
            }
            values.push(prod);
            i += 1;
        }
        let r = Polynomial::<F, PointValue>::from_point_values(values);
        r
    }
}

impl<F: Field, B: Basis> Polynomial<F, B> {
    /// O(n^2) coefficient multiplication: the result holds the convolution of
    /// the two coefficient vectors, reduced mod the field's modulus, at every
    /// position below `self.len() + b.len()`.
    pub fn naive_multiply(self, b: Polynomial<F, Coefficients>) -> (r: Polynomial<F, PointValue>)
        requires
            self@.len() + b@.len() <= usize::MAX,
        ensures
            r@.len() == self@.len() + b@.len(),
            forall|t: int|
                0 <= t < r@.len() ==> r@[t] == convolution(self@, b@, t) % (F::modulus() as int),
    {
        let values = crate::naive::convolution_multiply(&self.values, &b.values);
        Polynomial::<F, PointValue>::from_point_values(values)
    }

    /// Horner evaluation of a coefficient polynomial at `x`.
    pub fn polynomial_evaluation(self, x: F) -> (r: F)
        ensures
            r@ == poly_eval(self@, x@, F::modulus()),
    {
        crate::naive::evaluate(&self.values, &x)
    }

    /// O(n * |domain|) conversion to point-value form by Horner evaluation at
    /// every domain point: the reference oracle for the transforms.
    pub fn to_point_value(self, domain: &Vec<F>) -> (r: Polynomial<F, PointValue>)
        ensures
            r@.len() == domain@.len(),
            forall|j: int|
                0 <= j < domain@.len() ==> r@[j] == poly_eval(self@, domain@[j]@, F::modulus()),
    {
        let mut values: Vec<F> = Vec::new();
        let mut j: usize = 0;
        while j < domain.len()
            invariant
                j <= domain@.len(),
                self@ == seq_views(self.values@),
                values@.len() == j,
                forall|t: int|
                    0 <= t < j ==> seq_views(values@)[t] == poly_eval(
                        self@,
                        domain@[t]@,
                        F::modulus(),
                    ),
            decreases domain@.len() - j,
        {
            let v = crate::naive::evaluate(&self.values, &domain[j]);
            proof {
                lemma_seq_views_push(values@, v);
            }
            values.push(v);
            j += 1;
        }
        Polynomial::<F, PointValue>::from_point_values(values)
    }
}

impl<F: Field, B: Basis> Clone for Polynomial<F, B> {
    fn clone(&self) -> (r: Self)
        ensures
            r@ == self@,
    {
        let mut values: Vec<F> = Vec::new();
        let mut i: usize = 0;
        while i < self.values.len()
            invariant
                i <= self.values@.len(),
                values@.len() == i,
                forall|j: int| 0 <= j < i ==> values@[j] == self.values@[j],
            decreases self.values@.len() - i,
        {
            values.push(self.values[i]);
            i += 1;
        }
        proof {
            assert(values@ =~= self.values@);
        }
        Polynomial { values, _marker: core::marker::PhantomData }
    }
}

impl<F: Field, B: Basis> PartialEq for Polynomial<F, B> {
    fn eq(&self, rhs: &Polynomial<F, B>) -> (r: bool) {
        if self.values.len() != rhs.values.len() {
            proof {
                assert(self@.len() != rhs@.len());
            }
            return false;
        }
        let mut i: usize = 0;
        while i < self.values.len()
            invariant
                i <= self.values@.len(),
                self.values@.len() == rhs.values@.len(),
                self@ == seq_views(self.values@),
                rhs@ == seq_views(rhs.values@),
                forall|j: int| 0 <= j < i ==> self@[j] == rhs@[j],
            decreases self.values@.len() - i,
        {
            if !self.values[i].eq_el(&rhs.values[i]) {
                proof {
                    assert(self@[i as int] != rhs@[i as int]);
                }
                return false;
            }
            i += 1;
        }
        proof {
            assert(self@ =~= rhs@);
        }
        true
    }
}

impl<F: Field, B: Basis> vstd::std_specs::cmp::PartialEqSpecImpl for Polynomial<F, B> {
    open spec fn obeys_eq_spec() -> bool {
        true
    }

    open spec fn eq_spec(&self, rhs: &Polynomial<F, B>) -> bool {
        self@ == rhs@
    }
}

/// Pointwise product of two scalar-field vectors, over the positions both hold.
pub fn point_multiply_fr(a: Vec<crate::fr::Scalar>, b: Vec<crate::fr::Scalar>) -> (r: Vec<crate::fr::Scalar>)
    ensures
        r@.len() == if a@.len() <= b@.len() {
            a@.len()
        } else {
            b@.len()
        },
        forall|i: int|
            0 <= i < r@.len() ==> r@[i]@ == (a@[i]@ * b@[i]@) % crate::fr::r_mod(),
{
    crate::common::point_multiply_fr(a, b)
}

} // verus!
