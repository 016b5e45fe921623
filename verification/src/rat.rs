//! Exact rational arithmetic.
//!
//! A `Rational` is a pair `num / den` of `i128` values with `den > 0`; values
//! are never reduced, so every operation pins the exact numerator and
//! denominator it produces. Operations whose intermediate products might not
//! fit in `i128` return `None` exactly when they do not fit.

use vstd::prelude::*;

verus! {

/// An exact rational number `num / den` with `den > 0`.
#[derive(Clone, Copy, Debug, PartialEq, Eq, Structural)]
pub struct Rational {
    num: i128,
    den: i128,
}

impl View for Rational {
    type V = (int, int);

    closed spec fn view(&self) -> (int, int) {
        (self.num as int, self.den as int)
    }
}

/// Does a mathematical integer fit in `i128`?
pub open spec fn fits_i128(x: int) -> bool {
    i128::MIN <= x <= i128::MAX
}

/// Product of two rationals, as unreduced numerator/denominator pairs.
pub open spec fn rat_mul(a: (int, int), b: (int, int)) -> (int, int) {
    (a.0 * b.0, a.1 * b.1)
}

/// Sum of two rationals, as unreduced numerator/denominator pairs.
pub open spec fn rat_add(a: (int, int), b: (int, int)) -> (int, int) {
    (a.0 * b.1 + b.0 * a.1, a.1 * b.1)
}

/// The two pairs denote the same rational value (cross multiplication).
pub open spec fn rat_eq(a: (int, int), b: (int, int)) -> bool {
    a.0 * b.1 == b.0 * a.1
}

/// Both components of `rat_mul(a, b)` fit in `i128`.
pub open spec fn rat_mul_fits(a: (int, int), b: (int, int)) -> bool {
    fits_i128(a.0 * b.0) && fits_i128(a.1 * b.1)
}

/// Every intermediate value of `rat_add(a, b)` fits in `i128`.
pub open spec fn rat_add_fits(a: (int, int), b: (int, int)) -> bool {
    fits_i128(a.0 * b.1) && fits_i128(b.0 * a.1) && fits_i128(a.0 * b.1 + b.0 * a.1)
        && fits_i128(a.1 * b.1)
}

/// `rat_add` respects rational equality in its first argument.
pub proof fn lemma_rat_add_congruence(x: (int, int), y: (int, int), z: (int, int))
    requires
        rat_eq(x, y),
    ensures
        rat_eq(rat_add(x, z), rat_add(y, z)),
{
    assert((x.0 * z.1 + z.0 * x.1) * (y.1 * z.1) == x.0 * z.1 * (y.1 * z.1) + z.0 * x.1 * (y.1
        * z.1)) by (nonlinear_arith);
    assert(x.0 * z.1 * (y.1 * z.1) == (x.0 * y.1) * (z.1 * z.1)) by (nonlinear_arith);
    assert((y.0 * x.1) * (z.1 * z.1) == y.0 * z.1 * (x.1 * z.1)) by (nonlinear_arith);
    assert(z.0 * x.1 * (y.1 * z.1) == z.0 * y.1 * (x.1 * z.1)) by (nonlinear_arith);
    assert((y.0 * z.1 + z.0 * y.1) * (x.1 * z.1) == y.0 * z.1 * (x.1 * z.1) + z.0 * y.1 * (x.1
        * z.1)) by (nonlinear_arith);
}

/// `rat_add` is associative, component for component.
pub proof fn lemma_rat_add_assoc(p: (int, int), q: (int, int), r: (int, int))
    ensures
        rat_add(rat_add(p, q), r) == rat_add(p, rat_add(q, r)),
{
    assert((p.0 * q.1 + q.0 * p.1) * r.1 == p.0 * q.1 * r.1 + q.0 * p.1 * r.1)
        by (nonlinear_arith);
    assert((q.0 * r.1 + r.0 * q.1) * p.1 == q.0 * r.1 * p.1 + r.0 * q.1 * p.1)
        by (nonlinear_arith);
    assert(p.0 * q.1 * r.1 == p.0 * (q.1 * r.1)) by (nonlinear_arith);
    assert(q.0 * p.1 * r.1 == q.0 * r.1 * p.1) by (nonlinear_arith);
    assert(r.0 * (p.1 * q.1) == r.0 * q.1 * p.1) by (nonlinear_arith);
    assert((p.1 * q.1) * r.1 == p.1 * (q.1 * r.1)) by (nonlinear_arith);
}

/// Two rationals with the same numerator and denominator are the same value.
pub proof fn lemma_rational_view_injective(a: Rational, b: Rational)
    requires
        a@ == b@,
    ensures
        a == b,
{
}

impl Rational {
    /// Well-formed: the denominator is positive.
    pub open spec fn wf(self) -> bool {
        self@.1 > 0
    }

    /// Construct `num / den`.
    pub fn new(num: i128, den: i128) -> (r: Rational)
        requires
            den > 0,
        ensures
            r.wf(),
            r@ == (num as int, den as int),
    {
        Rational { num, den }
    }

    /// Construct the integer `n` as a rational.
    pub fn from_integer(n: i128) -> (r: Rational)
        ensures
            r.wf(),
            r@ == (n as int, 1int),
    {
        Rational { num: n, den: 1 }
    }

    /// The numerator.
    pub fn num(&self) -> (r: i128)
        ensures
            r as int == self@.0,
    {
        self.num
    }

    /// The denominator.
    pub fn den(&self) -> (r: i128)
        ensures
            r as int == self@.1,
    {
        self.den
    }

    /// Exact product; `None` exactly when a component does not fit in `i128`.
    pub fn times(&self, other: &Rational) -> (r: Option<Rational>)
        requires
            self.wf(),
            other.wf(),
        ensures
            r is Some <==> rat_mul_fits(self@, other@),
            r matches Some(p) ==> p.wf() && p@ == rat_mul(self@, other@),
    {
        match self.num.checked_mul(other.num) {
            Some(n) => match self.den.checked_mul(other.den) {
                Some(d) => {
                    assert(self.den * other.den > 0) by (nonlinear_arith)
                        requires
                            self.den > 0,
                            other.den > 0,
                    ;
                    Some(Rational { num: n, den: d })
                },
                None => None,
            },
            None => None,
        }
    }

    /// Exact sum; `None` exactly when an intermediate does not fit in `i128`.
    pub fn plus(&self, other: &Rational) -> (r: Option<Rational>)
        requires
            self.wf(),
            other.wf(),
        ensures
            r is Some <==> rat_add_fits(self@, other@),
            r matches Some(p) ==> p.wf() && p@ == rat_add(self@, other@),
    {
        match self.num.checked_mul(other.den) {
            Some(ad) => match other.num.checked_mul(self.den) {
                Some(bc) => match ad.checked_add(bc) {
                    Some(n) => match self.den.checked_mul(other.den) {
                        Some(d) => {
                            assert(self.den * other.den > 0) by (nonlinear_arith)
                                requires
                                    self.den > 0,
                                    other.den > 0,
                            ;
                            Some(Rational { num: n, den: d })
                        },
                        None => None,
                    },
                    None => None,
                },
                None => None,
            },
            None => None,
        }
    }

    /// Exact half (doubles the denominator); `None` exactly when the doubled
    /// denominator does not fit in `i128`.
    pub fn half(&self) -> (r: Option<Rational>)
        requires
            self.wf(),
        ensures
            r is Some <==> 2 * self@.1 <= i128::MAX,
            r matches Some(p) ==> p.wf() && p@ == (self@.0, 2 * self@.1),
    {
        match self.den.checked_mul(2) {
            Some(d) => Some(Rational { num: self.num, den: d }),
            None => None,
        }
    }

    /// Do `self` and `other` denote the same rational value? `None` exactly
    /// when a cross product does not fit in `i128`.
    pub fn same_value(&self, other: &Rational) -> (r: Option<bool>)
        requires
            self.wf(),
            other.wf(),
        ensures
            r is Some <==> fits_i128(self@.0 * other@.1) && fits_i128(other@.0 * self@.1),
            r matches Some(b) ==> b == rat_eq(self@, other@),
    {
        match self.num.checked_mul(other.den) {
            Some(x) => match other.num.checked_mul(self.den) {
                Some(y) => Some(x == y),
                None => None,
            },
            None => None,
        }
    }
}

} // verus!
