//! Hull sections and hulls.
//!
//! A section is a conical frustum given by its two end radii and its height;
//! its volume is `(r1^2 + r1*r2 + r2^2) * d * pi / 3`. A hull is an ordered
//! sequence of sections; its volume is the sum of the sections' volumes.
//! The factor `pi` is kept symbolic: `volume_coeff` returns the exact rational
//! `c` with `volume == c * pi`.

use vstd::prelude::*;

use crate::rat::Rational;
use crate::rat::lemma_rat_add_assoc;
use crate::rat::lemma_rat_add_congruence;
use crate::rat::rat_add;
use crate::rat::rat_eq;
use crate::rat::rat_add_fits;
use crate::rat::rat_mul;
use crate::rat::rat_mul_fits;

verus! {

/// One conical-frustum section: end radii `r1`, `r2` and height `d`.
#[derive(Clone, Copy, Debug, PartialEq, Eq, Structural)]
pub struct HullSection {
    pub r1: Rational,
    pub r2: Rational,
    pub d: Rational,
}

/// `(r1^2 + r1*r2 + r2^2)` of a section, as an unreduced rational pair.
pub open spec fn radii_quad(s: HullSection) -> (int, int) {
    rat_add(rat_add(rat_mul(s.r1@, s.r1@), rat_mul(s.r1@, s.r2@)), rat_mul(s.r2@, s.r2@))
}

/// The volume of a section in units of `pi`: `(r1^2 + r1*r2 + r2^2) * d / 3`,
/// as an unreduced rational pair.
pub open spec fn vol_spec(s: HullSection) -> (int, int) {
    rat_mul(radii_quad(s), rat_mul(s.d@, (1int, 3int)))
}

/// Every intermediate of the volume computation fits in `i128`.
pub open spec fn vol_fits(s: HullSection) -> bool {
    let q11 = rat_mul(s.r1@, s.r1@);
    let q12 = rat_mul(s.r1@, s.r2@);
    let q22 = rat_mul(s.r2@, s.r2@);
    let sum1 = rat_add(q11, q12);
    let sum2 = rat_add(sum1, q22);
    let dt = rat_mul(s.d@, (1int, 3int));
    rat_mul_fits(s.r1@, s.r1@) && rat_mul_fits(s.r1@, s.r2@) && rat_add_fits(q11, q12)
        && rat_mul_fits(s.r2@, s.r2@) && rat_add_fits(sum1, q22)
        && rat_mul_fits(s.d@, (1int, 3int)) && rat_mul_fits(sum2, dt)
}

impl HullSection {
    /// Well-formed: all three rationals are.
    pub open spec fn wf(self) -> bool {
        self.r1.wf() && self.r2.wf() && self.d.wf()
    }

    /// Build a section from two end diameters and a height; the radii are the
    /// halved diameters. `None` exactly when a halved diameter's denominator
    /// does not fit in `i128`.
    pub fn from_diameters(d1: &Rational, d2: &Rational, h: &Rational) -> (r: Option<HullSection>)
        requires
            d1.wf(),
            d2.wf(),
            h.wf(),
        ensures
            r is Some <==> 2 * d1@.1 <= i128::MAX && 2 * d2@.1 <= i128::MAX,
            r matches Some(s) ==> s.wf() && s.r1@ == (d1@.0, 2 * d1@.1) && s.r2@ == (
                d2@.0,
                2 * d2@.1,
            ) && s.d == *h,
    {
        match d1.half() {
            Some(r1) => match d2.half() {
                Some(r2) => Some(HullSection { r1, r2, d: *h }),
                None => None,
            },
            None => None,
        }
    }

    /// The section's volume in units of `pi`, exactly: the result `c` has
    /// `c == (r1^2 + r1*r2 + r2^2) * d / 3`, so the volume is `c * pi`.
    /// `None` exactly when an intermediate does not fit in `i128`.
    pub fn volume_coeff(&self) -> (r: Option<Rational>)
        requires
            self.wf(),
        ensures
            r is Some <==> vol_fits(*self),
            r matches Some(c) ==> c.wf() && c@ == vol_spec(*self),
    {
        let q11 = match self.r1.times(&self.r1) {
            Some(q) => q,
            None => {
                return None;
            },
        };
        let q12 = match self.r1.times(&self.r2) {
            Some(q) => q,
            None => {
                return None;
            },
        };
        let sum1 = match q11.plus(&q12) {
            Some(q) => q,
            None => {
                return None;
            },
        };
        let q22 = match self.r2.times(&self.r2) {
            Some(q) => q,
            None => {
                return None;
            },
        };
        let sum2 = match sum1.plus(&q22) {
            Some(q) => q,
            None => {
                return None;
            },
        };
        let third = Rational::new(1, 3);
        let dt = match self.d.times(&third) {
            Some(q) => q,
            None => {
                return None;
            },
        };
        match sum2.times(&dt) {
            Some(c) => Some(c),
            None => None,
        }
    }
}

/// The total volume of a sequence of sections in units of `pi`: the sum, in
/// order, of each section's own volume, as an unreduced rational pair.
pub open spec fn total_vol_spec(ss: Seq<HullSection>) -> (int, int)
    decreases ss.len(),
{
    if ss.len() == 0 {
        (0int, 1int)
    } else {
        rat_add(total_vol_spec(ss.drop_last()), vol_spec(ss.last()))
    }
}

/// Every intermediate of the total-volume computation fits in `i128`.
pub open spec fn total_vol_fits(ss: Seq<HullSection>) -> bool
    decreases ss.len(),
{
    if ss.len() == 0 {
        true
    } else {
        total_vol_fits(ss.drop_last()) && vol_fits(ss.last()) && rat_add_fits(
            total_vol_spec(ss.drop_last()),
            vol_spec(ss.last()),
        )
    }
}

/// Sections do not interact: the total volume of two hulls laid end to end is
/// the sum, as a rational value, of their total volumes.
pub proof fn lemma_total_vol_concat(a: Seq<HullSection>, b: Seq<HullSection>)
    ensures
        rat_eq(total_vol_spec(a + b), rat_add(total_vol_spec(a), total_vol_spec(b))),
    decreases b.len(),
{
    if b.len() == 0 {
        assert(a + b =~= a);
        let t = total_vol_spec(a);
        assert(rat_add(t, (0int, 1int)) == (t.0 * 1 + 0 * t.1, t.1 * 1));
        assert(t.0 * (t.1 * 1) == (t.0 * 1 + 0 * t.1) * t.1) by (nonlinear_arith);
    } else {
        let b0 = b.drop_last();
        let s = b.last();
        assert((a + b).drop_last() =~= a + b0);
        assert((a + b).last() == s);
        lemma_total_vol_concat(a, b0);
        lemma_rat_add_congruence(
            total_vol_spec(a + b0),
            rat_add(total_vol_spec(a), total_vol_spec(b0)),
            vol_spec(s),
        );
        lemma_rat_add_assoc(total_vol_spec(a), total_vol_spec(b0), vol_spec(s));
    }
}

/// Fitting is inherited by prefixes.
proof fn lemma_total_fits_prefix(ss: Seq<HullSection>, j: int)
    requires
        total_vol_fits(ss),
        0 <= j <= ss.len(),
    ensures
        total_vol_fits(ss.take(j)),
    decreases ss.len(),
{
    if j == ss.len() {
        assert(ss.take(j) =~= ss);
    } else {
        assert(ss.drop_last().take(j) =~= ss.take(j));
        lemma_total_fits_prefix(ss.drop_last(), j);
    }
}

/// An ordered collection of sections; grows only by `add`.
#[derive(Debug)]
pub struct Hull {
    sections: Vec<HullSection>,
}

impl View for Hull {
    type V = Seq<HullSection>;

    closed spec fn view(&self) -> Seq<HullSection> {
        self.sections@
    }
}

impl Hull {
    /// Well-formed: every section is.
    pub open spec fn wf(self) -> bool {
        forall|i: int| 0 <= i < self@.len() ==> (#[trigger] self@[i]).wf()
    }

    /// An empty hull.
    pub fn new() -> (r: Hull)
        ensures
            r@ =~= Seq::<HullSection>::empty(),
            r.wf(),
    {
        Hull { sections: Vec::new() }
    }

    /// Append a section, taking ownership; sections keep insertion order.
    pub fn add(&mut self, hs: HullSection)
        requires
            old(self).wf(),
            hs.wf(),
        ensures
            final(self)@ == old(self)@.push(hs),
            final(self).wf(),
    {
        self.sections.push(hs);
        proof {
            assert forall|i: int| 0 <= i < self@.len() implies (#[trigger] self@[i]).wf() by {
                if i < self@.len() - 1 {
                    assert(self@[i] == old(self)@[i]);
                }
            }
        }
    }

    /// The number of sections.
    pub fn len(&self) -> (r: usize)
        ensures
            r == self@.len(),
    {
        self.sections.len()
    }

    /// The section at index `i` (insertion order).
    pub fn section(&self, i: usize) -> (r: &HullSection)
        requires
            i < self@.len(),
        ensures
            *r == self@[i as int],
    {
        &self.sections[i]
    }

    /// The hull's total volume in units of `pi`, exactly: the result is the
    /// sum, in insertion order, of each section's individually computed
    /// volume; an empty hull has volume `0`. `None` exactly when an
    /// intermediate does not fit in `i128`.
    pub fn volume(&self) -> (r: Option<Rational>)
        requires
            self.wf(),
        ensures
            r is Some <==> total_vol_fits(self@),
            r matches Some(c) ==> c.wf() && c@ == total_vol_spec(self@),
    {
        let n = self.sections.len();
        let mut acc = Rational::from_integer(0);
        let mut i: usize = 0;
        while i < n
            invariant
                i <= n,
                n == self@.len(),
                self.wf(),
                acc.wf(),
                acc@ == total_vol_spec(self@.take(i as int)),
                total_vol_fits(self@.take(i as int)),
            decreases n - i,
        {
            proof {
                assert(self@.take(i + 1).drop_last() =~= self@.take(i as int));
                assert(self@.take(i + 1).last() == self@[i as int]);
            }
            let v = match self.sections[i].volume_coeff() {
                Some(v) => v,
                None => {
                    proof {
                        if total_vol_fits(self@) {
                            lemma_total_fits_prefix(self@, i + 1);
                        }
                    }
                    return None;
                },
            };
            acc = match acc.plus(&v) {
                Some(a) => a,
                None => {
                    proof {
                        if total_vol_fits(self@) {
                            lemma_total_fits_prefix(self@, i + 1);
                        }
                    }
                    return None;
                },
            };
            i = i + 1;
        }
        proof {
            assert(self@.take(n as int) =~= self@);
        }
        Some(acc)
    }
}

} // verus!
