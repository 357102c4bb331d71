//! Symbolic boolean parameters.
//!
//! A vertex carries a set of boolean variables (a `u64` bitmask) XORed into
//! its phase.  When rules fold such vertices into the global scalar, the
//! contribution becomes a case split over the parities of those variable
//! sets: a `Parity` is the XOR of a set of variables, possibly negated, and
//! an `Expr` is a product of one or two parities.  A factor `(e, s)` attached
//! to the diagram multiplies the scalar by `s` exactly on the assignments
//! where `e` evaluates to true.

use vstd::prelude::*;
use crate::scalar::Scalar4;

verus! {

/// The XOR of the variables in `mask`, negated when `neg` is set.
#[derive(Clone, Copy, Debug, PartialEq, Eq, Hash)]
pub struct Parity {
    pub mask: u64,
    pub neg: bool,
}

/// Whether an integer has an odd number of one bits.
pub open spec fn odd_bits(x: u64) -> bool
    decreases x,
{
    if x == 0 {
        false
    } else {
        (x % 2 == 1) != odd_bits(x / 2)
    }
}

impl Parity {
    /// The plain (unnegated) parity of a variable set.
    pub fn of(mask: u64) -> (r: Parity)
        ensures
            r == (Parity { mask, neg: false }),
    {
        Parity { mask, neg: false }
    }

    /// The complemented parity.
    pub fn negated(self) -> (r: Parity)
        ensures
            r == (Parity { mask: self.mask, neg: !self.neg }),
    {
        Parity { mask: self.mask, neg: !self.neg }
    }

    /// The value of the parity under an assignment of the variables.
    pub open spec fn eval(self, assign: u64) -> bool {
        odd_bits(self.mask & assign) != self.neg
    }
}

/// A product of parities multiplying a scalar factor into the diagram.
#[derive(Clone, Copy, Debug, PartialEq, Eq, Hash)]
pub enum Expr {
    Linear(Parity),
    Quadratic(Parity, Parity),
}

impl Expr {
    /// A single-parity factor condition.
    pub fn linear(p: Parity) -> (r: Expr)
        ensures
            r == Expr::Linear(p),
    {
        Expr::Linear(p)
    }

    /// A product of two parities.
    pub fn quadratic(p: Parity, q: Parity) -> (r: Expr)
        ensures
            r == Expr::Quadratic(p, q),
    {
        Expr::Quadratic(p, q)
    }

    /// The value of the condition under an assignment of the variables.
    pub open spec fn eval(self, assign: u64) -> bool {
        match self {
            Expr::Linear(p) => p.eval(assign),
            Expr::Quadratic(p, q) => p.eval(assign) && q.eval(assign),
        }
    }
}

/// The scalar contributed by a list of factors under one assignment: the
/// product of the factors whose condition holds.
pub open spec fn factors_value(fs: Seq<(Expr, Scalar4)>, assign: u64) -> Scalar4
    decreases fs.len(),
{
    if fs.len() == 0 {
        Scalar4::spec_one()
    } else {
        let head = fs[0];
        let rest = factors_value(fs.subrange(1, fs.len() as int), assign);
        if head.0.eval(assign) {
            Scalar4::spec_mul(head.1, rest)
        } else {
            rest
        }
    }
}

/// Parity distributes over symmetric difference: the XOR of two variable
/// sets has the XOR of their parities.
pub proof fn lemma_odd_bits_xor(a: u64, b: u64)
    ensures
        odd_bits(a ^ b) == (odd_bits(a) != odd_bits(b)),
    decreases (a + b),
{
    if a == 0 && b == 0 {
        assert(a ^ b == 0) by (bit_vector)
            requires
                a == 0u64,
                b == 0u64,
        ;
    } else {
        assert((a ^ b) % 2 == 1 <==> ((a % 2 == 1) != (b % 2 == 1))) by (bit_vector);
        assert((a ^ b) / 2 == (a / 2) ^ (b / 2)) by (bit_vector);
        assert(a / 2 <= a && b / 2 <= b) by (bit_vector);
        assert(a > 0 ==> a / 2 < a) by (bit_vector);
        assert(b > 0 ==> b / 2 < b) by (bit_vector);
        lemma_odd_bits_xor(a / 2, b / 2);
        assert(a ^ b != 0 ==> odd_bits(a ^ b)
            == (((a ^ b) % 2 == 1) != odd_bits((a ^ b) / 2)));
        if a ^ b == 0 {
            assert(a == b) by (bit_vector)
                requires
                    a ^ b == 0u64,
            ;
        }
        if a != 0 {
            assert(odd_bits(a) == ((a % 2 == 1) != odd_bits(a / 2)));
        }
        if b != 0 {
            assert(odd_bits(b) == ((b % 2 == 1) != odd_bits(b / 2)));
        }
    }
}

/// Masking distributes over symmetric difference.
pub proof fn lemma_mask_xor(a: u64, b: u64, m: u64)
    ensures
        (a ^ b) & m == (a & m) ^ (b & m),
{
    assert((a ^ b) & m == (a & m) ^ (b & m)) by (bit_vector);
}

} // verus!
