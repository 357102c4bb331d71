//! The scalar ring: exact complex numbers of the form
//! `(c0 + c1*w + c2*w^2 + c3*w^3) * sqrt(2)^pow` with `w = exp(i*pi/4)`,
//! accumulated by the rewrite rules as a global factor of the diagram.
//!
//! All operations are total: a result whose coefficients would leave the
//! representable range is marked invalid (`ok == false`) instead of wrapping
//! or failing, and every contract pins the exact representation whenever the
//! operands are valid and the true result stays in range.

use vstd::prelude::*;
use crate::phase::Phase;

verus! {

use vstd::arithmetic::power2::pow2;

/// Coefficient magnitude bound: `2^62`.
pub const CMAX: i64 = 0x4000_0000_0000_0000;

/// A ring element `(c0 + c1*w + c2*w^2 + c3*w^3) * sqrt(2)^pow`, `w^4 == -1`.
#[derive(Clone, Copy, Debug, PartialEq, Eq, Structural, Hash)]
pub struct Scalar4 {
    pub c0: i64,
    pub c1: i64,
    pub c2: i64,
    pub c3: i64,
    pub pow: i64,
    pub ok: bool,
}

/// An integer small enough to stand as a coefficient.
pub open spec fn coeff_fits(x: int) -> bool {
    -CMAX <= x <= CMAX
}

impl Scalar4 {
    /// Valid scalars keep all coefficients and the power within bounds.
    pub open spec fn wf(self) -> bool {
        self.ok ==> {
            &&& coeff_fits(self.c0 as int)
            &&& coeff_fits(self.c1 as int)
            &&& coeff_fits(self.c2 as int)
            &&& coeff_fits(self.c3 as int)
            &&& coeff_fits(self.pow as int)
        }
    }

    /// The marker for a result that left the representable range.
    pub open spec fn invalid() -> Scalar4 {
        Scalar4 { c0: 0, c1: 0, c2: 0, c3: 0, pow: 0, ok: false }
    }

    pub open spec fn spec_one() -> Scalar4 {
        Scalar4 { c0: 1, c1: 0, c2: 0, c3: 0, pow: 0, ok: true }
    }

    /// The unit `w^j` for `0 <= j < 8`; `w^4 == -1`.
    pub open spec fn spec_eighth_unit(j: int) -> Scalar4 {
        let s: int = if j < 4 { 1 } else { -1 };
        let p: int = if j < 4 { j } else { j - 4 };
        Scalar4 {
            c0: if p == 0 { s as i64 } else { 0 },
            c1: if p == 1 { s as i64 } else { 0 },
            c2: if p == 2 { s as i64 } else { 0 },
            c3: if p == 3 { s as i64 } else { 0 },
            pow: 0,
            ok: true,
        }
    }

    /// The `j` such that a `pi/4`-multiple phase is `j * pi/4`.
    pub open spec fn spec_eighth_of(p: Phase) -> int {
        p.val() / (pow2(59) as int)
    }

    /// Representation-level ring product; invalid when an operand is invalid
    /// or a coefficient leaves the representable range.
    pub open spec fn spec_mul(a: Scalar4, b: Scalar4) -> Scalar4 {
        let d0 = a.c0 * b.c0 - a.c1 * b.c3 - a.c2 * b.c2 - a.c3 * b.c1;
        let d1 = a.c0 * b.c1 + a.c1 * b.c0 - a.c2 * b.c3 - a.c3 * b.c2;
        let d2 = a.c0 * b.c2 + a.c1 * b.c1 + a.c2 * b.c0 - a.c3 * b.c3;
        let d3 = a.c0 * b.c3 + a.c1 * b.c2 + a.c2 * b.c1 + a.c3 * b.c0;
        let p = a.pow + b.pow;
        if a.ok && b.ok && coeff_fits(d0) && coeff_fits(d1) && coeff_fits(d2) && coeff_fits(d3)
            && coeff_fits(p) {
            Scalar4 { c0: d0 as i64, c1: d1 as i64, c2: d2 as i64, c3: d3 as i64, pow: p as i64, ok: true }
        } else {
            Scalar4::invalid()
        }
    }

    /// Representation-level sum, defined on operands of equal power.
    pub open spec fn spec_add(a: Scalar4, b: Scalar4) -> Scalar4 {
        let d0 = a.c0 + b.c0;
        let d1 = a.c1 + b.c1;
        let d2 = a.c2 + b.c2;
        let d3 = a.c3 + b.c3;
        if a.ok && b.ok && a.pow == b.pow && coeff_fits(d0) && coeff_fits(d1) && coeff_fits(d2)
            && coeff_fits(d3) {
            Scalar4 { c0: d0 as i64, c1: d1 as i64, c2: d2 as i64, c3: d3 as i64, pow: a.pow, ok: true }
        } else {
            Scalar4::invalid()
        }
    }

    /// The additive inverse (always representable).
    pub open spec fn spec_neg(a: Scalar4) -> Scalar4 {
        if a.ok {
            Scalar4 {
                c0: (0 - a.c0 as int) as i64,
                c1: (0 - a.c1 as int) as i64,
                c2: (0 - a.c2 as int) as i64,
                c3: (0 - a.c3 as int) as i64,
                pow: a.pow,
                ok: true,
            }
        } else {
            Scalar4::invalid()
        }
    }

    /// The scalar one.
    pub fn one() -> (r: Scalar4)
        ensures
            r == Scalar4::spec_one(),
            r.wf(),
    {
        Scalar4 { c0: 1, c1: 0, c2: 0, c3: 0, pow: 0, ok: true }
    }

    /// The scalar minus one.
    pub fn minus_one() -> (r: Scalar4)
        ensures
            r == Scalar4::spec_eighth_unit(4),
            r.wf(),
    {
        Scalar4 { c0: -1, c1: 0, c2: 0, c3: 0, pow: 0, ok: true }
    }

    /// `sqrt(2)^k`.
    pub fn sqrt2_pow(k: i64) -> (r: Scalar4)
        requires
            coeff_fits(k as int),
        ensures
            r == (Scalar4 { c0: 1, c1: 0, c2: 0, c3: 0, pow: k, ok: true }),
            r.wf(),
    {
        Scalar4 { c0: 1, c1: 0, c2: 0, c3: 0, pow: k, ok: true }
    }

    /// The unit `exp(i * pi * p)`, for a phase that is a multiple of `pi/4`.
    ///
    /// Relies on nothing outside the crate; phases with finer denominators
    /// are not representable in this ring and are excluded by `requires`.
    pub fn from_phase(p: Phase) -> (r: Scalar4)
        requires
            p.wf(),
            p.exp <= 2,
        ensures
            r == Scalar4::spec_eighth_unit(Scalar4::spec_eighth_of(p)),
            r.wf(),
    {
        let j = p.eighths();
        proof {
            vstd::arithmetic::power2::lemma_pow2_pos(59);
            assert(j as int * pow2(59) == pow2(59) as int * j) by (nonlinear_arith);
            vstd::arithmetic::div_mod::lemma_div_multiples_vanish(
                j as int,
                pow2(59) as int,
            );
            assert(Scalar4::spec_eighth_of(p) == j);
        }
        match j {
            0 => Scalar4 { c0: 1, c1: 0, c2: 0, c3: 0, pow: 0, ok: true },
            1 => Scalar4 { c0: 0, c1: 1, c2: 0, c3: 0, pow: 0, ok: true },
            2 => Scalar4 { c0: 0, c1: 0, c2: 1, c3: 0, pow: 0, ok: true },
            3 => Scalar4 { c0: 0, c1: 0, c2: 0, c3: 1, pow: 0, ok: true },
            4 => Scalar4 { c0: -1, c1: 0, c2: 0, c3: 0, pow: 0, ok: true },
            5 => Scalar4 { c0: 0, c1: -1, c2: 0, c3: 0, pow: 0, ok: true },
            6 => Scalar4 { c0: 0, c1: 0, c2: -1, c3: 0, pow: 0, ok: true },
            _ => Scalar4 { c0: 0, c1: 0, c2: 0, c3: -1, pow: 0, ok: true },
        }
    }

    /// `1 + exp(i * pi * p)`, for a phase that is a multiple of `pi/4`.
    pub fn one_plus_phase(p: Phase) -> (r: Scalar4)
        requires
            p.wf(),
            p.exp <= 2,
        ensures
            r == Scalar4::spec_add(
                Scalar4::spec_one(),
                Scalar4::spec_eighth_unit(Scalar4::spec_eighth_of(p)),
            ),
            r.wf(),
    {
        let u = Scalar4::from_phase(p);
        Scalar4::one().plus(u)
    }

    /// Ring product.
    pub fn times(self, o: Scalar4) -> (r: Scalar4)
        requires
            self.wf(),
            o.wf(),
        ensures
            r == Scalar4::spec_mul(self, o),
            r.wf(),
    {
        if !self.ok || !o.ok {
            return Scalar4 { c0: 0, c1: 0, c2: 0, c3: 0, pow: 0, ok: false };
        }
        let a0 = self.c0 as i128;
        let a1 = self.c1 as i128;
        let a2 = self.c2 as i128;
        let a3 = self.c3 as i128;
        let b0 = o.c0 as i128;
        let b1 = o.c1 as i128;
        let b2 = o.c2 as i128;
        let b3 = o.c3 as i128;
        proof {
            lemma_coeff_prod_bound(a0 as int, b0 as int);
            lemma_coeff_prod_bound(a0 as int, b1 as int);
            lemma_coeff_prod_bound(a0 as int, b2 as int);
            lemma_coeff_prod_bound(a0 as int, b3 as int);
            lemma_coeff_prod_bound(a1 as int, b0 as int);
            lemma_coeff_prod_bound(a1 as int, b1 as int);
            lemma_coeff_prod_bound(a1 as int, b2 as int);
            lemma_coeff_prod_bound(a1 as int, b3 as int);
            lemma_coeff_prod_bound(a2 as int, b0 as int);
            lemma_coeff_prod_bound(a2 as int, b1 as int);
            lemma_coeff_prod_bound(a2 as int, b2 as int);
            lemma_coeff_prod_bound(a2 as int, b3 as int);
            lemma_coeff_prod_bound(a3 as int, b0 as int);
            lemma_coeff_prod_bound(a3 as int, b1 as int);
            lemma_coeff_prod_bound(a3 as int, b2 as int);
            lemma_coeff_prod_bound(a3 as int, b3 as int);
        }
        let d0: i128 = a0 * b0 - a1 * b3 - a2 * b2 - a3 * b1;
        let d1: i128 = a0 * b1 + a1 * b0 - a2 * b3 - a3 * b2;
        let d2: i128 = a0 * b2 + a1 * b1 + a2 * b0 - a3 * b3;
        let d3: i128 = a0 * b3 + a1 * b2 + a2 * b1 + a3 * b0;
        let psum: i128 = (self.pow as i128) + (o.pow as i128);
        let lim: i128 = CMAX as i128;
        if -lim <= d0 && d0 <= lim && -lim <= d1 && d1 <= lim && -lim <= d2 && d2 <= lim
            && -lim <= d3 && d3 <= lim && -lim <= psum && psum <= lim {
            Scalar4 {
                c0: d0 as i64,
                c1: d1 as i64,
                c2: d2 as i64,
                c3: d3 as i64,
                pow: psum as i64,
                ok: true,
            }
        } else {
            Scalar4 { c0: 0, c1: 0, c2: 0, c3: 0, pow: 0, ok: false }
        }
    }

    /// Ring sum of two scalars carrying the same power of `sqrt(2)`.
    pub fn plus(self, o: Scalar4) -> (r: Scalar4)
        requires
            self.wf(),
            o.wf(),
        ensures
            r == Scalar4::spec_add(self, o),
            r.wf(),
    {
        if !self.ok || !o.ok || self.pow != o.pow {
            return Scalar4 { c0: 0, c1: 0, c2: 0, c3: 0, pow: 0, ok: false };
        }
        let d0: i128 = (self.c0 as i128) + (o.c0 as i128);
        let d1: i128 = (self.c1 as i128) + (o.c1 as i128);
        let d2: i128 = (self.c2 as i128) + (o.c2 as i128);
        let d3: i128 = (self.c3 as i128) + (o.c3 as i128);
        let lim: i128 = CMAX as i128;
        if -lim <= d0 && d0 <= lim && -lim <= d1 && d1 <= lim && -lim <= d2 && d2 <= lim
            && -lim <= d3 && d3 <= lim {
            Scalar4 {
                c0: d0 as i64,
                c1: d1 as i64,
                c2: d2 as i64,
                c3: d3 as i64,
                pow: self.pow,
                ok: true,
            }
        } else {
            Scalar4 { c0: 0, c1: 0, c2: 0, c3: 0, pow: 0, ok: false }
        }
    }

    /// Ring difference: `self + (-o)`.
    pub fn minus(self, o: Scalar4) -> (r: Scalar4)
        requires
            self.wf(),
            o.wf(),
        ensures
            r == Scalar4::spec_add(self, Scalar4::spec_neg(o)),
            r.wf(),
    {
        self.plus(o.negate())
    }

    /// The additive inverse.
    pub fn negate(self) -> (r: Scalar4)
        requires
            self.wf(),
        ensures
            r == Scalar4::spec_neg(self),
            r.wf(),
    {
        if !self.ok {
            return Scalar4 { c0: 0, c1: 0, c2: 0, c3: 0, pow: 0, ok: false };
        }
        Scalar4 { c0: -self.c0, c1: -self.c1, c2: -self.c2, c3: -self.c3, pow: self.pow, ok: true }
    }

    /// True when this is the scalar one (in this exact representation).
    pub fn is_one(self) -> (r: bool)
        ensures
            r == (self == Scalar4::spec_one()),
    {
        self.ok && self.c0 == 1 && self.c1 == 0 && self.c2 == 0 && self.c3 == 0 && self.pow == 0
    }
}


/// The unit `sqrt(2)^k`.
pub open spec fn sq_unit(k: int) -> Scalar4 {
    Scalar4 { c0: 1, c1: 0, c2: 0, c3: 0, pow: k as i64, ok: true }
}

/// Multiplying by two nonpositive powers of `sqrt(2)` is multiplying by
/// their sum: with the power only decreasing, no intermediate result can
/// leave the representable range unless the final one does.
pub proof fn lemma_sqrt2_chain(s: Scalar4, a: int, b: int)
    requires
        s.wf(),
        -CMAX <= a <= 0,
        -CMAX <= b <= 0,
        -CMAX <= a + b,
    ensures
        Scalar4::spec_mul(Scalar4::spec_mul(s, sq_unit(a)), sq_unit(b)) == Scalar4::spec_mul(
            s,
            sq_unit(a + b),
        ),
{
    if s.ok {
        let mid = Scalar4::spec_mul(s, sq_unit(a));
        assert(s.c0 * 1 == s.c0 && s.c1 * 1 == s.c1 && s.c2 * 1 == s.c2 && s.c3 * 1 == s.c3)
            by (nonlinear_arith);
        assert(s.c0 * 0 == 0 && s.c1 * 0 == 0 && s.c2 * 0 == 0 && s.c3 * 0 == 0)
            by (nonlinear_arith);
    }
}

/// The product of two bounded coefficients stays well inside `i128`.
proof fn lemma_coeff_prod_bound(x: int, y: int)
    requires
        -CMAX <= x <= CMAX,
        -CMAX <= y <= CMAX,
    ensures
        -(CMAX as int * CMAX as int) <= x * y <= CMAX as int * CMAX as int,
{
    assert(-(0x4000_0000_0000_0000 * 0x4000_0000_0000_0000) <= x * y
        <= 0x4000_0000_0000_0000 * 0x4000_0000_0000_0000) by (nonlinear_arith)
        requires
            -0x4000_0000_0000_0000 <= x <= 0x4000_0000_0000_0000,
            -0x4000_0000_0000_0000 <= y <= 0x4000_0000_0000_0000,
    ;
}

} // verus!
