//! Phases: dyadic rational multiples of pi, kept normalized modulo 2*pi.
//!
//! A phase `num / 2^exp * pi` is stored with `0 <= num < 2^(exp+1)` and in
//! lowest terms (`num` odd unless `exp == 0`), so equal phases have equal
//! representations.  The spec-level value of a phase is measured in units of
//! `pi / 2^61`, so every phase is an integer in `[0, 2^62)` and all phase
//! arithmetic is exact integer arithmetic modulo `2^62`.

use vstd::prelude::*;

verus! {

use vstd::arithmetic::power2::pow2;
use vstd::arithmetic::power2::lemma2_to64;
use vstd::arithmetic::power2::lemma2_to64_rest;
use vstd::arithmetic::div_mod::lemma_fundamental_div_mod_converse;

broadcast use vstd::arithmetic::power2::lemma_pow2_pos,
    vstd::arithmetic::mul::group_mul_basics;

use vstd::arithmetic::power2::lemma_pow2_adds;
use vstd::arithmetic::power2::lemma_pow2_strictly_increases;

/// The largest denominator exponent a phase may carry.
pub const MAX_EXP: u32 = 61;

/// A phase `num / 2^exp * pi`, normalized modulo `2 * pi` and in lowest terms.
#[derive(Clone, Copy, Debug, PartialEq, Eq, Structural, Hash)]
pub struct Phase {
    pub num: u64,
    pub exp: u32,
}

impl Phase {
    /// Well-formedness: normalized modulo 2*pi and in lowest terms.
    pub open spec fn wf(self) -> bool {
        &&& self.exp <= MAX_EXP
        &&& (self.num as nat) < pow2((self.exp + 1) as nat)
        &&& (self.num % 2 == 1 || self.exp == 0)
    }

    /// The value of the phase in units of `pi / 2^61`; always in `[0, 2^62)`.
    pub open spec fn val(self) -> int {
        self.num * pow2((MAX_EXP - self.exp) as nat)
    }

    pub proof fn lemma_val_bounds(self)
        requires
            self.wf(),
        ensures
            0 <= self.val() < pow2(62),
            self.val() % (pow2((MAX_EXP - self.exp) as nat) as int) == 0,
    {
        let u = pow2((MAX_EXP - self.exp) as nat);
        lemma_pow2_adds((MAX_EXP - self.exp) as nat, (self.exp + 1) as nat);
        assert(pow2((MAX_EXP - self.exp) as nat) * pow2((self.exp + 1) as nat) == pow2(62));
        vstd::arithmetic::mul::lemma_mul_strict_inequality(
            self.num as int,
            pow2((self.exp + 1) as nat) as int,
            u as int,
        );
        vstd::arithmetic::div_mod::lemma_mod_multiples_basic(self.num as int, u as int);
    }

    /// The zero phase.
    pub fn zero() -> (r: Phase)
        ensures
            r.wf(),
            r.val() == 0,
    {
        proof {
            lemma2_to64();
        }
        Phase { num: 0, exp: 0 }
    }

    /// The phase pi.
    pub fn pi() -> (r: Phase)
        ensures
            r.wf(),
            r.val() == pow2(61),
    {
        proof {
            lemma2_to64();
        }
        Phase { num: 1, exp: 0 }
    }

    /// Builds the phase `num / den * pi`, reduced modulo `2 * pi`.
    ///
    /// The denominator must be a power of two no larger than `2^61`.
    pub fn new(num: i64, den: u64) -> (r: Phase)
        requires
            exists|k: nat| k <= 61 && den == pow2(k),
        ensures
            r.wf(),
            r.val() * den == (num as int % (2 * den as int)) * pow2(61),
    {
        let k = log2_of_pow2(den);
        proof {
            lemma2_to64();
            lemma2_to64_rest();
            lemma_pow2_adds(1, k as nat);
            assert(pow2(1) * pow2(k as nat) == pow2((k + 1) as nat));
            if k + 1 < 62 {
                lemma_pow2_strictly_increases((k + 1) as nat, 62);
            }
            assert(pow2((k + 1) as nat) <= pow2(62));
        }
        let modulus: i128 = 2 * (den as i128);
        let big: i128 = modulus * 0x4000_0000_0000_0000;
        let x: i128 = (num as i128) + big;
        let m: i128 = x % modulus;
        proof {
            vstd::arithmetic::div_mod::lemma_mod_bound(x as int, modulus as int);
            vstd::arithmetic::div_mod::lemma_mod_multiples_vanish(
                0x4000_0000_0000_0000,
                num as int,
                modulus as int,
            );
        }
        let mu: u64 = m as u64;
        let r = reduce(mu, k);
        proof {
            lemma_pow2_adds((61 - k) as nat, k as nat);
            assert(pow2((61 - k) as nat) * pow2(k as nat) == pow2(61));
            assert((mu as int * pow2((61 - k) as nat)) * pow2(k as nat)
                == mu as int * (pow2((61 - k) as nat) * pow2(k as nat))) by (nonlinear_arith);
            assert(r.val() * den == (mu as int * pow2((61 - k) as nat)) * pow2(k as nat));
        }
        r
    }

    /// Adds two phases modulo `2 * pi`.
    pub fn add(self, other: Phase) -> (r: Phase)
        requires
            self.wf(),
            other.wf(),
        ensures
            r.wf(),
            r.val() == (self.val() + other.val()) % (pow2(62) as int),
    {
        let e: u32 = if self.exp >= other.exp { self.exp } else { other.exp };
        proof {
            lemma_shift_bound(self.num, (self.exp + 1) as nat, (e - self.exp) as nat);
            lemma_shift_bound(other.num, (other.exp + 1) as nat, (e - other.exp) as nat);
            lemma2_to64();
            lemma2_to64_rest();
            if e + 1 < 62 {
                lemma_pow2_strictly_increases((e + 1) as nat, 62);
            }
            assert(pow2((e + 1) as nat) <= pow2(62));
        }
        let a: u64 = self.num * pow2_u64(e - self.exp);
        let b: u64 = other.num * pow2_u64(e - other.exp);
        let modulus: u64 = pow2_u64(e + 1);
        let s: u64 = (a + b) % modulus;
        let r = reduce(s, e);
        proof {
            let sh = pow2((61 - e) as nat) as int;
            lemma_pow2_adds((e - self.exp) as nat, (61 - e) as nat);
            assert(pow2((e - self.exp) as nat) * pow2((61 - e) as nat)
                == pow2((61 - self.exp) as nat));
            lemma_pow2_adds((e - other.exp) as nat, (61 - e) as nat);
            assert(pow2((e - other.exp) as nat) * pow2((61 - e) as nat)
                == pow2((61 - other.exp) as nat));
            assert((self.num as int * pow2((e - self.exp) as nat)) * sh
                == self.num as int * (pow2((e - self.exp) as nat) * sh)) by (nonlinear_arith);
            assert(a as int * sh == self.val());
            assert((other.num as int * pow2((e - other.exp) as nat)) * sh
                == other.num as int * (pow2((e - other.exp) as nat) * sh)) by (nonlinear_arith);
            assert(b as int * sh == other.val());
            lemma_mod_mul_shift((a + b) as int, (e + 1) as nat, (61 - e) as nat);
            lemma_pow2_adds((e + 1) as nat, (61 - e) as nat);
            assert(pow2((e + 1) as nat) * pow2((61 - e) as nat) == pow2(62));
            assert(r.val() == ((a + b) as int * sh) % (pow2(62) as int));
            assert((a + b) as int * sh == a as int * sh + b as int * sh) by (nonlinear_arith);
        }
        r
    }

    /// Negates a phase modulo `2 * pi`.
    pub fn neg(self) -> (r: Phase)
        requires
            self.wf(),
        ensures
            r.wf(),
            r.exp <= self.exp,
            r.val() == (0 - self.val()) % (pow2(62) as int),
    {
        proof {
            self.lemma_val_bounds();
            lemma2_to64();
            if self.num != 0 {
                vstd::arithmetic::mul::lemma_mul_strictly_positive(
                    self.num as int,
                    pow2((MAX_EXP - self.exp) as nat) as int,
                );
            }
        }
        if self.num == 0 {
            proof {
                vstd::arithmetic::div_mod::lemma_mod_self_0(pow2(62) as int);
            }
            Phase { num: 0, exp: 0 }
        } else {
            let m: u64 = pow2_u64(self.exp + 1);
            let r = Phase { num: m - self.num, exp: self.exp };
            proof {
                lemma_pow2_adds(1, self.exp as nat);
                assert(pow2(1) * pow2(self.exp as nat) == pow2((self.exp + 1) as nat));
                assert(m % 2 == 0) by {
                    vstd::arithmetic::div_mod::lemma_mod_multiples_basic(
                        pow2(self.exp as nat) as int,
                        2,
                    );
                };
                lemma_pow2_adds((self.exp + 1) as nat, (61 - self.exp) as nat);
                assert(pow2((self.exp + 1) as nat) * pow2((61 - self.exp) as nat) == pow2(62));
                assert((m as int - self.num as int) * pow2((61 - self.exp) as nat)
                    == m as int * pow2((61 - self.exp) as nat)
                        - self.num as int * pow2((61 - self.exp) as nat)) by (nonlinear_arith);
                assert(r.val() == m as int * pow2((61 - self.exp) as nat) - self.val());
                assert(self.val() > 0);
                vstd::arithmetic::div_mod::lemma_small_mod(
                    (pow2(62) - self.val()) as nat,
                    pow2(62),
                );
                lemma_fundamental_div_mod_converse(
                    0 - self.val(),
                    pow2(62) as int,
                    -1,
                    pow2(62) - self.val(),
                );
            }
            r
        }
    }

    /// True exactly when the phase is zero.
    pub fn is_zero(self) -> (r: bool)
        requires
            self.wf(),
        ensures
            r == (self.val() == 0),
    {
        proof {
            if self.num != 0 {
                vstd::arithmetic::mul::lemma_mul_strictly_positive(
                    self.num as int,
                    pow2((MAX_EXP - self.exp) as nat) as int,
                );
                assert(self.val() > 0);
            }
        }
        self.num == 0
    }

    /// True exactly when the phase is Pauli, i.e. 0 or pi.
    pub fn is_pauli(self) -> (r: bool)
        requires
            self.wf(),
        ensures
            r == (self.val() == 0 || self.val() == pow2(61)),
    {
        proof {
            lemma2_to64();
            if self.exp == 0 {
                assert(self.num < 2);
                if self.num == 0 {
                    assert(self.val() == 0);
                } else {
                    assert(self.val() == 1 * pow2(61));
                }
            } else {
                lemma_odd_val_not_pauli(self);
            }
        }
        self.exp == 0
    }

    /// True exactly when the phase is proper Clifford, i.e. pi/2 or -pi/2.
    pub fn is_proper_clifford(self) -> (r: bool)
        requires
            self.wf(),
        ensures
            r == (self.val() == pow2(60) || self.val() == 3 * pow2(60)),
    {
        proof {
            lemma_clifford_cases(self);
        }
        self.exp == 1
    }

    /// Halves a phase (interpreting it in `[0, 2)`, so `3/2` halves to `3/4`).
    pub fn half(self) -> (r: Phase)
        requires
            self.wf(),
            self.exp < MAX_EXP,
        ensures
            r.wf(),
            r.exp <= self.exp + 1,
            2 * r.val() == self.val(),
    {
        if self.num == 0 {
            proof {
                lemma2_to64();
            }
            Phase { num: 0, exp: 0 }
        } else {
            let r = Phase { num: self.num, exp: self.exp + 1 };
            proof {
                lemma2_to64();
                lemma_pow2_strictly_increases((self.exp + 1) as nat, (self.exp + 2) as nat);
                assert(self.num % 2 == 1);
                lemma_pow2_adds(1, (61 - self.exp - 1) as nat);
                assert(pow2(1) * pow2((61 - self.exp - 1) as nat) == pow2((61 - self.exp) as nat));
                assert(2 * (self.num as int * pow2((61 - self.exp - 1) as nat))
                    == self.num as int * (2 * pow2((61 - self.exp - 1) as nat))) by (nonlinear_arith);
                assert(2 * (self.num * pow2((61 - self.exp - 1) as nat)) == self.val());
            }
            r
        }
    }

    /// The phase in units of `pi / 4`, defined when the denominator allows it.
    pub fn eighths(self) -> (r: u64)
        requires
            self.wf(),
            self.exp <= 2,
        ensures
            r < 8,
            r * pow2(59) == self.val(),
    {
        proof {
            lemma_shift_bound(self.num, (self.exp + 1) as nat, (2 - self.exp) as nat);
            lemma2_to64();
        }
        let r: u64 = self.num * pow2_u64(2 - self.exp);
        proof {
            lemma_pow2_adds((2 - self.exp) as nat, 59);
            assert(pow2((2 - self.exp) as nat) * pow2(59) == pow2((61 - self.exp) as nat));
            assert((self.num as int * pow2((2 - self.exp) as nat)) * pow2(59)
                == self.num as int * (pow2((2 - self.exp) as nat) * pow2(59))) by (nonlinear_arith);
            assert(r * pow2(59) == self.num * (pow2((2 - self.exp) as nat) * pow2(59)));
        }
        r
    }

    /// True exactly when the phase is a multiple of `pi / 4`.
    pub fn is_eighth(self) -> (r: bool)
        requires
            self.wf(),
        ensures
            r == (self.exp <= 2),
    {
        self.exp <= 2
    }
}

/// `2^k` as a `u64`.
pub fn pow2_u64(k: u32) -> (r: u64)
    requires
        k <= 63,
    ensures
        r == pow2(k as nat),
{
    let mut r: u64 = 1;
    let mut i: u32 = 0;
    proof {
        lemma2_to64();
    }
    while i < k
        invariant
            i <= k <= 63,
            r == pow2(i as nat),
        decreases k - i,
    {
        proof {
            lemma_pow2_adds(1, i as nat);
            lemma2_to64();
            lemma2_to64_rest();
            if (i + 1) as nat != 63 {
                lemma_pow2_strictly_increases((i + 1) as nat, 63);
            }
        }
        r = r * 2;
        i = i + 1;
    }
    r
}

/// The exponent of a power of two.
fn log2_of_pow2(den: u64) -> (r: u32)
    requires
        exists|k: nat| k <= 61 && den == pow2(k),
    ensures
        r <= 61,
        den == pow2(r as nat),
{
    let ghost k0 = choose|k0: nat| k0 <= 61 && den == pow2(k0);
    let mut d: u64 = den;
    let mut r: u32 = 0;
    proof {
        lemma2_to64();
        assert(d * pow2(0) == d);
    }
    while d % 2 == 0 && d > 1
        invariant
            r <= k0 <= 61,
            d * pow2(r as nat) == pow2(k0),
            d >= 1,
            den == pow2(k0),
        decreases d,
    {
        proof {
            lemma_pow2_adds(1, r as nat);
            assert(pow2(1) * pow2(r as nat) == pow2((r + 1) as nat));
            lemma2_to64();
            vstd::arithmetic::mul::lemma_mul_inequality(2, d as int, pow2(r as nat) as int);
            assert(2 * pow2(r as nat) <= d * pow2(r as nat));
            if r + 1 > k0 {
                if (r + 1) as nat != k0 {
                    lemma_pow2_strictly_increases(k0, (r + 1) as nat);
                    assert(pow2(k0) < pow2((r + 1) as nat));
                }
                assert(r + 1 <= k0);
            }
            assert((d / 2) * 2 == d) by {
                vstd::arithmetic::div_mod::lemma_fundamental_div_mod(d as int, 2);
            };
            assert(((d / 2) as int * 2) * pow2(r as nat)
                == (d / 2) as int * (2 * pow2(r as nat))) by (nonlinear_arith);
        }
        d = d / 2;
        r = r + 1;
    }
    proof {
        if d != 1 {
            lemma_odd_factor_of_pow2(d, r as nat, k0);
        }
        assert(1 * pow2(r as nat) == pow2(r as nat));
    }
    r
}

/// Reduces `num / 2^exp` to lowest terms, preserving the value.
fn reduce(num: u64, exp: u32) -> (r: Phase)
    requires
        exp <= MAX_EXP,
        (num as nat) < pow2((exp + 1) as nat),
    ensures
        r.wf(),
        r.val() == num * pow2((MAX_EXP - exp) as nat),
{
    let mut n: u64 = num;
    let mut e: u32 = exp;
    while n % 2 == 0 && e > 0
        invariant
            e <= exp <= MAX_EXP,
            (n as nat) < pow2((e + 1) as nat),
            n * pow2((MAX_EXP - e) as nat) == num * pow2((MAX_EXP - exp) as nat),
        decreases e,
    {
        proof {
            lemma2_to64();
            assert((n / 2) * 2 == n) by {
                vstd::arithmetic::div_mod::lemma_fundamental_div_mod(n as int, 2);
            };
            lemma_pow2_adds(1, (MAX_EXP - e) as nat);
            assert(pow2(1) * pow2((MAX_EXP - e) as nat) == pow2((MAX_EXP - e + 1) as nat));
            assert(((n / 2) as int * 2) * pow2((MAX_EXP - e) as nat)
                == (n / 2) as int * (2 * pow2((MAX_EXP - e) as nat))) by (nonlinear_arith);
            lemma_pow2_adds(1, e as nat);
            assert(pow2(1) * pow2(e as nat) == pow2((e + 1) as nat));
            assert((n as nat) / 2 < pow2(e as nat));
        }
        n = n / 2;
        e = e - 1;
    }
    if n == 0 {
        proof {
            lemma2_to64();
        }
        Phase { num: 0, exp: 0 }
    } else {
        Phase { num: n, exp: e }
    }
}

/// An odd factor of a power of two is one, and the cofactor is the whole power.
proof fn lemma_odd_factor_of_pow2(d: u64, r: nat, k0: nat)
    requires
        d * pow2(r) == pow2(k0),
        d % 2 == 1,
    ensures
        d == 1 && r == k0,
    decreases r,
{
    lemma2_to64();
    if r == 0 {
        assert(d * 1 == d);
        if k0 == 0 {
            assert(d == 1);
        } else {
            lemma_pow2_adds(1, (k0 - 1) as nat);
            assert(pow2(1) * pow2((k0 - 1) as nat) == pow2(k0));
            assert(d == 2 * pow2((k0 - 1) as nat));
            assert(d % 2 == 0) by {
                vstd::arithmetic::div_mod::lemma_mod_multiples_basic(
                    pow2((k0 - 1) as nat) as int,
                    2,
                );
            };
            assert(d == 1 && r == k0);
        }
    } else {
        if k0 == 0 {
            lemma_pow2_adds(1, (r - 1) as nat);
            assert(pow2(1) * pow2((r - 1) as nat) == pow2(r));
            assert(pow2(r) >= 2);
            if d == 0 {
                assert(d * pow2(r) == 0);
            } else {
                vstd::arithmetic::mul::lemma_mul_inequality(1, d as int, pow2(r) as int);
                assert(1 * pow2(r) <= d * pow2(r));
            }
            assert(d == 1 && r == k0);
        } else {
            lemma_pow2_adds(1, (r - 1) as nat);
            assert(pow2(1) * pow2((r - 1) as nat) == pow2(r));
            lemma_pow2_adds(1, (k0 - 1) as nat);
            assert(pow2(1) * pow2((k0 - 1) as nat) == pow2(k0));
            assert(d as int * (2 * pow2((r - 1) as nat))
                == (d as int * pow2((r - 1) as nat)) * 2) by (nonlinear_arith);
            assert(2 * (d as int * pow2((r - 1) as nat) as int)
                == (d as int * pow2((r - 1) as nat) as int) * 2) by (nonlinear_arith);
            assert(2 * pow2((k0 - 1) as nat) as int
                == pow2((k0 - 1) as nat) as int * 2) by (nonlinear_arith);
            vstd::arithmetic::mul::lemma_mul_equality_converse(
                2,
                d as int * pow2((r - 1) as nat) as int,
                pow2((k0 - 1) as nat) as int,
            );
            lemma_odd_factor_of_pow2(d, (r - 1) as nat, (k0 - 1) as nat);
        }
    }
}

/// `(x % 2^a) * 2^b == (x * 2^b) % 2^(a+b)` for `x >= 0`.
proof fn lemma_mod_mul_shift(x: int, a: nat, b: nat)
    requires
        x >= 0,
    ensures
        (x % (pow2(a) as int)) * pow2(b) == (x * pow2(b)) % (pow2((a + b) as nat) as int),
{
    let m = pow2(a) as int;
    let k = pow2(b) as int;
    let q = x / m;
    let rr = x % m;
    vstd::arithmetic::div_mod::lemma_fundamental_div_mod(x, m);
    vstd::arithmetic::div_mod::lemma_mod_bound(x, m);
    assert(x * k == (q * m + rr) * k);
    assert((q * m + rr) * k == (q * m) * k + rr * k) by (nonlinear_arith);
    assert((q * m) * k == q * (m * k)) by (nonlinear_arith);
    lemma_pow2_adds(a, b);
    vstd::arithmetic::mul::lemma_mul_strict_inequality(rr, m, k);
    assert(rr * k < m * k);
    lemma_fundamental_div_mod_converse(x * k, m * k, q, rr * k);
}

/// Shifting a bounded value stays bounded: `n < 2^a` gives `n * 2^b < 2^(a+b)`.
proof fn lemma_shift_bound(n: u64, a: nat, b: nat)
    requires
        (n as nat) < pow2(a),
    ensures
        n * pow2(b) < pow2((a + b) as nat),
{
    lemma_pow2_adds(a, b);
    assert(pow2(a) * pow2(b) == pow2((a + b) as nat));
    vstd::arithmetic::mul::lemma_mul_strict_inequality(
        n as int,
        pow2(a) as int,
        pow2(b) as int,
    );
}


/// A well-formed phase is a multiple of `pi/4` exactly when its value is
/// divisible by `2^59`.
pub proof fn lemma_eighth_val(p: Phase)
    requires
        p.wf(),
    ensures
        (p.exp <= 2) == (p.val() % (pow2(59) as int) == 0),
{
    lemma2_to64();
    if p.exp <= 2 {
        lemma_pow2_adds((61 - p.exp) as nat, 59);
        assert(p.val() == (p.num * pow2((2 - p.exp) as nat)) * pow2(59)) by {
            lemma_pow2_adds((2 - p.exp) as nat, 59);
            assert((p.num as int * pow2((2 - p.exp) as nat)) * pow2(59)
                == p.num as int * (pow2((2 - p.exp) as nat) * pow2(59))) by (nonlinear_arith);
        };
        vstd::arithmetic::div_mod::lemma_mod_multiples_basic(
            p.num as int * pow2((2 - p.exp) as nat),
            pow2(59) as int,
        );
    } else {
        let u = (61 - p.exp) as nat;
        // val = num * 2^u with num odd and u <= 58
        if p.val() % (pow2(59) as int) == 0 {
            let k = p.val() / (pow2(59) as int);
            vstd::arithmetic::div_mod::lemma_fundamental_div_mod(p.val(), pow2(59) as int);
            assert(p.val() == pow2(59) * k);
            lemma_pow2_adds(u, (59 - u) as nat);
            assert(pow2(59) == pow2(u) * pow2((59 - u) as nat));
            assert(p.num as int == pow2((59 - u) as nat) * k) by (nonlinear_arith)
                requires
                    p.num as int * pow2(u) == (pow2(u) * pow2((59 - u) as nat)) * k,
                    pow2(u) >= 1,
            ;
            lemma_pow2_adds(1, (59 - u - 1) as nat);
            assert(p.num as int == 2 * (pow2((59 - u - 1) as nat) * k)) by (nonlinear_arith)
                requires
                    p.num as int == pow2((59 - u) as nat) * k,
                    pow2((59 - u) as nat) == 2 * pow2((59 - u - 1) as nat),
            ;
            assert(p.num % 2 == 0) by {
                vstd::arithmetic::div_mod::lemma_mod_multiples_basic(
                    pow2((59 - u - 1) as nat) * k,
                    2,
                );
            };
        }
    }
}

/// A phase in lowest terms with a positive exponent is not a multiple of pi.
proof fn lemma_odd_val_not_pauli(p: Phase)
    requires
        p.wf(),
        p.exp >= 1,
        p.num % 2 == 1,
    ensures
        p.val() != 0,
        p.val() != pow2(61),
{
    lemma2_to64();
    let u = (MAX_EXP - p.exp) as nat;
    vstd::arithmetic::mul::lemma_mul_strictly_positive(p.num as int, pow2(u) as int);
    assert(p.val() > 0);
    if p.val() == pow2(61) {
        lemma_pow2_adds(u, p.exp as nat);
        assert(pow2(u) * pow2(p.exp as nat) == pow2(61));
        assert(pow2(u) as int * p.num as int == p.num as int * pow2(u)) by (nonlinear_arith);
        assert(pow2(u) as int * pow2(p.exp as nat) as int
            == pow2(p.exp as nat) as int * pow2(u)) by (nonlinear_arith);
        vstd::arithmetic::mul::lemma_mul_equality_converse(
            pow2(u) as int,
            p.num as int,
            pow2(p.exp as nat) as int,
        );
        assert(p.num == pow2(p.exp as nat));
        lemma_pow2_adds(1, (p.exp - 1) as nat);
        assert(pow2(1) * pow2((p.exp - 1) as nat) == pow2(p.exp as nat));
        assert(p.num == 2 * pow2((p.exp - 1) as nat));
        assert(p.num % 2 == 0) by {
            vstd::arithmetic::div_mod::lemma_mod_multiples_basic(
                pow2((p.exp - 1) as nat) as int,
                2,
            );
        };
    }
}

/// The proper Clifford values are exactly the well-formed phases with `exp == 1`.
pub proof fn lemma_clifford_cases(p: Phase)
    requires
        p.wf(),
    ensures
        (p.exp == 1) == (p.val() == pow2(60) || p.val() == 3 * pow2(60)),
{
    lemma2_to64();
    if p.exp == 1 {
        assert(p.num < 4 && p.num % 2 == 1);
        assert(p.num == 1 || p.num == 3);
        if p.num == 1 {
            assert(p.val() == 1 * pow2(60));
        } else {
            assert(p.val() == 3 * pow2(60));
        }
    } else if p.exp == 0 {
        assert(p.num < 2);
        if p.num == 0 {
            assert(p.val() == 0);
        } else {
            assert(p.val() == 1 * pow2(61));
            lemma_pow2_adds(1, 60);
            assert(pow2(1) * pow2(60) == pow2(61));
            assert(pow2(61) != pow2(60));
            assert(pow2(61) != 3 * pow2(60));
        }
    } else {
        let u = (MAX_EXP - p.exp) as nat;
        if p.val() == pow2(60) {
            lemma_pow2_adds(u, (p.exp - 1) as nat);
            assert(pow2(u) * pow2((p.exp - 1) as nat) == pow2(60));
            assert(pow2(u) as int * p.num as int == p.num as int * pow2(u)) by (nonlinear_arith);
            assert(pow2(u) as int * pow2((p.exp - 1) as nat) as int
                == pow2((p.exp - 1) as nat) as int * pow2(u)) by (nonlinear_arith);
            vstd::arithmetic::mul::lemma_mul_equality_converse(
                pow2(u) as int,
                p.num as int,
                pow2((p.exp - 1) as nat) as int,
            );
            lemma_pow2_adds(1, (p.exp - 2) as nat);
            assert(pow2(1) * pow2((p.exp - 2) as nat) == pow2((p.exp - 1) as nat));
            assert(p.num % 2 == 0) by {
                vstd::arithmetic::div_mod::lemma_mod_multiples_basic(
                    pow2((p.exp - 2) as nat) as int,
                    2,
                );
            };
        }
        if p.val() == 3 * pow2(60) {
            lemma_pow2_adds(u, (p.exp - 1) as nat);
            assert(pow2(u) * pow2((p.exp - 1) as nat) == pow2(60));
            assert((3 * pow2((p.exp - 1) as nat)) * pow2(u)
                == 3 * (pow2((p.exp - 1) as nat) * pow2(u))) by (nonlinear_arith);
            assert(p.num as int == 3 * pow2((p.exp - 1) as nat)) by (nonlinear_arith)
                requires
                    p.num as int * pow2(u) == 3 * pow2(60),
                    pow2(u) * pow2((p.exp - 1) as nat) == pow2(60),
                    pow2(u) >= 1,
            ;
            lemma_pow2_adds(1, (p.exp - 2) as nat);
            assert(pow2(1) * pow2((p.exp - 2) as nat) == pow2((p.exp - 1) as nat));
            assert(p.num == 3 * (2 * pow2((p.exp - 2) as nat)));
            assert(3 * (2 * pow2((p.exp - 2) as nat))
                == 2 * (3 * pow2((p.exp - 2) as nat))) by (nonlinear_arith);
            assert(p.num % 2 == 0) by {
                vstd::arithmetic::div_mod::lemma_mod_multiples_basic(
                    3 * pow2((p.exp - 2) as nat) as int,
                    2,
                );
            };
        }
    }
}

} // verus!
