//! Exact rational numbers over `i64`, the number type of the solver.
//!
//! A well-formed `Rat` has a positive denominator and a numerator of
//! magnitude at most `i64::MAX`. Arithmetic goes through `i128`
//! intermediates, reduces by the gcd, and returns `None` when the reduced
//! result does not fit back into `i64`. Each operation's contract gives
//! both the constructive definition (`spec_add` and friends) and the
//! algebraic meaning as a cross-multiplied equation on the exact values.

use vstd::prelude::*;
use vstd::arithmetic::div_mod::*;
use vstd::arithmetic::mul::*;

verus! {

/// An exact rational number: `num / den`.
#[derive(Clone, Copy, Debug, PartialEq, Eq, Structural)]
pub struct Rat {
    pub num: i64,
    pub den: i64,
}

impl Rat {
    /// Well-formedness: positive denominator, numerator magnitude within `i64::MAX`.
    pub open spec fn wf(self) -> bool {
        1 <= self.den && -i64::MAX <= self.num
    }
}

/// The magnitude of an integer.
pub open spec fn mag(n: int) -> nat {
    if n < 0 {
        (-n) as nat
    } else {
        n as nat
    }
}

/// Greatest common divisor of two naturals, by Euclid's rule.
pub open spec fn gcd(a: nat, b: nat) -> nat
    decreases b,
{
    if b == 0 {
        a
    } else {
        gcd(b, a % b)
    }
}

/// The gcd of `a` and `b` divides both, and is positive when either is.
pub proof fn lemma_gcd_divides(a: nat, b: nat)
    ensures
        a > 0 || b > 0 ==> gcd(a, b) >= 1,
        gcd(a, b) >= 1 ==> (a as int) % (gcd(a, b) as int) == 0 && (b as int) % (gcd(a, b) as int)
            == 0,
    decreases b,
{
    if b == 0 {
        if a > 0 {
            lemma_mod_self_0(a as int);
            lemma_small_mod(0, a);
        }
    } else {
        lemma_gcd_divides(b, (a % b) as nat);
        let g = gcd(b, (a % b) as nat) as int;
        if g >= 1 {
            let q = a as int / b as int;
            let k1 = b as int / g;
            let k2 = (a % b) as int / g;
            lemma_fundamental_div_mod(a as int, b as int);
            lemma_fundamental_div_mod(b as int, g);
            lemma_fundamental_div_mod((a % b) as int, g);
            assert(a as int == (g * k1) * q + g * k2);
            assert(a as int == (k1 * q + k2) * g) by (nonlinear_arith)
                requires
                    a as int == (g * k1) * q + g * k2,
            ;
            lemma_mod_multiples_basic(k1 * q + k2, g);
        }
    }
}

/// The reduced form of `n / d` for `d >= 1`, when it fits in `i64`.
pub open spec fn norm(n: int, d: int) -> Option<Rat> {
    let g = gcd(mag(n), d as nat) as int;
    let q = mag(n) as int / g;
    let e = d / g;
    if q <= i64::MAX && e <= i64::MAX {
        Some(
            Rat {
                num: (if n < 0 {
                    -q
                } else {
                    q
                }) as i64,
                den: e as i64,
            },
        )
    } else {
        None
    }
}

/// Reduction preserves the exact value and yields a well-formed rational.
pub proof fn lemma_norm(n: int, d: int)
    requires
        d >= 1,
    ensures
        norm(n, d) matches Some(c) ==> c.wf() && c.num * d == n * c.den,
{
    let g = gcd(mag(n), d as nat) as int;
    lemma_gcd_divides(mag(n), d as nat);
    assert(g >= 1);
    let m = mag(n) as int;
    let q = m / g;
    let e = d / g;
    lemma_fundamental_div_mod(m, g);
    lemma_fundamental_div_mod(d, g);
    assert(m == g * q);
    assert(d == g * e);
    lemma_div_pos_is_pos(m, g);
    lemma_div_pos_is_pos(d, g);
    if e == 0 {
        assert(d == g * 0);
    }
    assert(e >= 1);
    if norm(n, d) is Some {
        let c = norm(n, d).unwrap();
        if n < 0 {
            assert(c.num == -q && c.den == e);
            assert((-q) * (g * e) == (-(g * q)) * e) by (nonlinear_arith);
        } else {
            assert(c.num == q && c.den == e);
            assert(q * (g * e) == (g * q) * e) by (nonlinear_arith);
        }
    }
}

/// A zero numerator reduces to the canonical zero.
pub proof fn lemma_norm_zero(d: int)
    requires
        d >= 1,
    ensures
        norm(0, d) == Some(Rat { num: 0, den: 1 }),
{
    lemma_small_mod(0, d as nat);
    assert(gcd(d as nat, 0) == d as nat);
    assert(gcd(0, d as nat) == d as nat);
    lemma_div_of0(d);
    lemma_div_by_self(d);
}

/// Constructive definitions of the checked operations.
pub open spec fn spec_add(a: Rat, b: Rat) -> Option<Rat> {
    norm(a.num * b.den + b.num * a.den, a.den * b.den)
}

pub open spec fn spec_sub(a: Rat, b: Rat) -> Option<Rat> {
    norm(a.num * b.den - b.num * a.den, a.den * b.den)
}

pub open spec fn spec_mul(a: Rat, b: Rat) -> Option<Rat> {
    norm(a.num * b.num, a.den * b.den)
}

pub open spec fn spec_div(a: Rat, b: Rat) -> Option<Rat> {
    if b.num == 0 {
        None
    } else if b.num < 0 {
        norm(-(a.num * b.den), -(a.den * b.num))
    } else {
        norm(a.num * b.den, a.den * b.num)
    }
}

pub open spec fn spec_neg(a: Rat) -> Rat {
    Rat { num: (-(a.num as int)) as i64, den: a.den }
}

pub open spec fn rat_zero() -> Rat {
    Rat { num: 0, den: 1 }
}

pub open spec fn rat_one() -> Rat {
    Rat { num: 1, den: 1 }
}

/// Value comparisons, by cross-multiplication (denominators are positive).
pub open spec fn eq_val(a: Rat, b: Rat) -> bool {
    a.num * b.den == b.num * a.den
}

pub open spec fn le_val(a: Rat, b: Rat) -> bool {
    a.num * b.den <= b.num * a.den
}

pub open spec fn lt_val(a: Rat, b: Rat) -> bool {
    a.num * b.den < b.num * a.den
}

pub open spec fn is_pos_val(a: Rat) -> bool {
    a.num > 0
}

pub open spec fn is_neg_val(a: Rat) -> bool {
    a.num < 0
}

/// The exact value of a reduced product, cross-multiplied.
pub proof fn lemma_spec_mul_val(a: Rat, b: Rat)
    requires
        a.wf(),
        b.wf(),
    ensures
        spec_mul(a, b) matches Some(c) ==> c.wf() && c.num * (a.den * b.den) == (a.num * b.num)
            * c.den,
{
    lemma_mul_strictly_positive(a.den as int, b.den as int);
    lemma_norm(a.num * b.num, a.den * b.den);
}

/// The exact value of a reduced sum, cross-multiplied.
pub proof fn lemma_spec_add_val(a: Rat, b: Rat)
    requires
        a.wf(),
        b.wf(),
    ensures
        spec_add(a, b) matches Some(c) ==> c.wf() && c.num * (a.den * b.den) == (a.num * b.den
            + b.num * a.den) * c.den,
{
    lemma_mul_strictly_positive(a.den as int, b.den as int);
    lemma_norm(a.num * b.den + b.num * a.den, a.den * b.den);
}

/// The exact value of a reduced difference, cross-multiplied.
pub proof fn lemma_spec_sub_val(a: Rat, b: Rat)
    requires
        a.wf(),
        b.wf(),
    ensures
        spec_sub(a, b) matches Some(c) ==> c.wf() && c.num * (a.den * b.den) == (a.num * b.den
            - b.num * a.den) * c.den,
{
    lemma_mul_strictly_positive(a.den as int, b.den as int);
    lemma_norm(a.num * b.den - b.num * a.den, a.den * b.den);
}

/// The exact value of a reduced quotient, cross-multiplied.
pub proof fn lemma_spec_div_val(a: Rat, b: Rat)
    requires
        a.wf(),
        b.wf(),
        b.num != 0,
    ensures
        spec_div(a, b) matches Some(c) ==> c.wf() && c.num * (a.den * b.num) == (a.num * b.den)
            * c.den,
{
    if b.num > 0 {
        lemma_mul_strictly_positive(a.den as int, b.num as int);
        lemma_norm(a.num * b.den, a.den * b.num);
    } else {
        lemma_mul_strictly_positive(a.den as int, -(b.num as int));
        assert(a.den * (-(b.num as int)) == -(a.den * b.num)) by (nonlinear_arith);
        lemma_norm(-(a.num * b.den), -(a.den * b.num));
        if spec_div(a, b) is Some {
            let c = spec_div(a, b).unwrap();
            assert(c.num * (-(a.den * b.num)) == (-(a.num * b.den)) * c.den);
            assert(c.num * (a.den * b.num) == (a.num * b.den) * c.den) by (nonlinear_arith)
                requires
                    c.num * (-(a.den * b.num)) == (-(a.num * b.den)) * c.den,
            ;
        }
    }
}

/// `<=` on exact values is transitive (denominators are positive).
pub proof fn lemma_le_val_trans(a: Rat, b: Rat, c: Rat)
    requires
        a.wf(),
        b.wf(),
        c.wf(),
        le_val(a, b),
        le_val(b, c),
    ensures
        le_val(a, c),
{
    assert(a.num * c.den <= c.num * a.den) by (nonlinear_arith)
        requires
            a.num * b.den <= b.num * a.den,
            b.num * c.den <= c.num * b.den,
            a.den >= 1,
            b.den >= 1,
            c.den >= 1,
    ;
}

/// `|x * y| <= bx * by` for `|x| <= bx`, `|y| <= by`.
proof fn lemma_mul_bound(x: int, y: int, bx: int, by: int)
    by (nonlinear_arith)
    requires
        -bx <= x <= bx,
        -by <= y <= by,
        0 <= bx,
        0 <= by,
    ensures
        -(bx * by) <= x * y <= bx * by,
{
}

/// Euclid's algorithm; the result is the specification-level gcd.
fn gcd_u128(a: u128, b: u128) -> (g: u128)
    ensures
        g as nat == gcd(a as nat, b as nat),
{
    let mut x = a;
    let mut y = b;
    while y != 0
        invariant
            gcd(x as nat, y as nat) == gcd(a as nat, b as nat),
        decreases y,
    {
        let r = x % y;
        x = y;
        y = r;
    }
    x
}

/// Reduces `n / d` (with `d >= 1`) and checks the result fits in `i64`.
fn norm_i128(n: i128, d: i128) -> (r: Option<Rat>)
    requires
        d >= 1,
        -i128::MAX <= n,
    ensures
        r == norm(n as int, d as int),
        r matches Some(c) ==> c.wf() && c.num * d == n * c.den,
{
    proof {
        lemma_norm(n as int, d as int);
        lemma_gcd_divides(mag(n as int), d as nat);
    }
    let negative = n < 0;
    let m: u128 = if negative {
        (-n) as u128
    } else {
        n as u128
    };
    assert(m as nat == mag(n as int));
    let g: u128 = gcd_u128(m, d as u128);
    let q: u128 = m / g;
    let e: u128 = (d as u128) / g;
    if q <= (i64::MAX as u128) && e <= (i64::MAX as u128) {
        let num: i64 = if negative {
            -(q as i64)
        } else {
            q as i64
        };
        Some(Rat { num, den: e as i64 })
    } else {
        None
    }
}

impl Rat {
    /// The rational 0.
    pub fn zero() -> (r: Rat)
        ensures
            r == rat_zero(),
            r.wf(),
    {
        Rat { num: 0, den: 1 }
    }

    /// The rational 1.
    pub fn one() -> (r: Rat)
        ensures
            r == rat_one(),
            r.wf(),
    {
        Rat { num: 1, den: 1 }
    }

    /// The integer `n` as a rational.
    pub fn from_int(n: i64) -> (r: Rat)
        requires
            n > i64::MIN,
        ensures
            r == (Rat { num: n, den: 1 }),
            r.wf(),
    {
        Rat { num: n, den: 1 }
    }

    /// `num / den` in reduced form; `None` for a zero denominator or a
    /// reduced component out of range (possible only at `i64::MIN`).
    pub fn new(num: i64, den: i64) -> (r: Option<Rat>)
        ensures
            r matches Some(c) ==> c.wf() && c.num * den == num * c.den,
            den != 0 && num > i64::MIN && den > i64::MIN ==> r is Some,
    {
        if den == 0 {
            return None;
        }
        let n: i128 = num as i128;
        let d: i128 = den as i128;
        let nn: i128 = if d < 0 {
            -n
        } else {
            n
        };
        let dd: i128 = if d < 0 {
            -d
        } else {
            d
        };
        let r = norm_i128(nn, dd);
        proof {
            if r is Some {
                let c = r.unwrap();
                if d < 0 {
                    assert(c.num * (den as int) == (num as int) * c.den) by (nonlinear_arith)
                        requires
                            c.num * (-(den as int)) == (-(num as int)) * c.den,
                    ;
                }
            }
            if num > i64::MIN && den > i64::MIN {
                let g = gcd(mag(nn as int), dd as nat) as int;
                lemma_gcd_divides(mag(nn as int), dd as nat);
                lemma_div_nonincreasing(mag(nn as int) as int, g);
                lemma_div_nonincreasing(dd as int, g);
            }
        }
        r
    }

    /// Exact negation; never fails.
    pub fn neg(self) -> (r: Rat)
        requires
            self.wf(),
        ensures
            r == spec_neg(self),
            r.wf(),
            r.num == -self.num,
            r.den == self.den,
    {
        Rat { num: -self.num, den: self.den }
    }

    /// Checked addition.
    pub fn add(self, other: Rat) -> (r: Option<Rat>)
        requires
            self.wf(),
            other.wf(),
        ensures
            r == spec_add(self, other),
            r matches Some(c) ==> c.wf() && c.num * (self.den * other.den) == (self.num
                * other.den + other.num * self.den) * c.den,
    {
        proof {
            lemma_mul_bound(self.num as int, other.den as int, i64::MAX as int, i64::MAX as int);
            lemma_mul_bound(other.num as int, self.den as int, i64::MAX as int, i64::MAX as int);
            lemma_mul_bound(self.den as int, other.den as int, i64::MAX as int, i64::MAX as int);
            lemma_mul_strictly_positive(self.den as int, other.den as int);
        }
        let n: i128 = self.num as i128 * other.den as i128 + other.num as i128 * self.den as i128;
        let d: i128 = self.den as i128 * other.den as i128;
        norm_i128(n, d)
    }

    /// Checked subtraction.
    pub fn sub(self, other: Rat) -> (r: Option<Rat>)
        requires
            self.wf(),
            other.wf(),
        ensures
            r == spec_sub(self, other),
            r matches Some(c) ==> c.wf() && c.num * (self.den * other.den) == (self.num
                * other.den - other.num * self.den) * c.den,
    {
        proof {
            lemma_mul_bound(self.num as int, other.den as int, i64::MAX as int, i64::MAX as int);
            lemma_mul_bound(other.num as int, self.den as int, i64::MAX as int, i64::MAX as int);
            lemma_mul_bound(self.den as int, other.den as int, i64::MAX as int, i64::MAX as int);
            lemma_mul_strictly_positive(self.den as int, other.den as int);
        }
        let n: i128 = self.num as i128 * other.den as i128 - other.num as i128 * self.den as i128;
        let d: i128 = self.den as i128 * other.den as i128;
        norm_i128(n, d)
    }

    /// Checked multiplication.
    pub fn mul(self, other: Rat) -> (r: Option<Rat>)
        requires
            self.wf(),
            other.wf(),
        ensures
            r == spec_mul(self, other),
            r matches Some(c) ==> c.wf() && c.num * (self.den * other.den) == (self.num
                * other.num) * c.den,
    {
        proof {
            lemma_mul_bound(self.num as int, other.num as int, i64::MAX as int, i64::MAX as int);
            lemma_mul_bound(self.den as int, other.den as int, i64::MAX as int, i64::MAX as int);
            lemma_mul_strictly_positive(self.den as int, other.den as int);
        }
        let n: i128 = self.num as i128 * other.num as i128;
        let d: i128 = self.den as i128 * other.den as i128;
        norm_i128(n, d)
    }

    /// Checked division by a nonzero rational.
    pub fn div(self, other: Rat) -> (r: Option<Rat>)
        requires
            self.wf(),
            other.wf(),
            other.num != 0,
        ensures
            r == spec_div(self, other),
            r matches Some(c) ==> c.wf() && c.num * (self.den * other.num) == (self.num
                * other.den) * c.den,
    {
        proof {
            lemma_mul_bound(self.num as int, other.den as int, i64::MAX as int, i64::MAX as int);
            lemma_mul_bound(self.den as int, other.num as int, i64::MAX as int, i64::MAX as int);
        }
        let n: i128 = self.num as i128 * other.den as i128;
        let d: i128 = self.den as i128 * other.num as i128;
        if other.num < 0 {
            proof {
                lemma_mul_strictly_positive(self.den as int, -(other.num as int));
                assert(self.den as int * (-(other.num as int)) == -(d as int))
                    by (nonlinear_arith)
                    requires
                        d as int == self.den as int * other.num as int,
                ;
            }
            let r = norm_i128(-n, -d);
            proof {
                if r is Some {
                    let c = r.unwrap();
                    assert(c.num * (d as int) == (n as int) * c.den) by (nonlinear_arith)
                        requires
                            c.num * (-(d as int)) == (-(n as int)) * c.den,
                    ;
                }
            }
            r
        } else {
            proof {
                lemma_mul_strictly_positive(self.den as int, other.num as int);
            }
            norm_i128(n, d)
        }
    }

    /// `self <= other` on the exact values.
    pub fn le(self, other: Rat) -> (r: bool)
        requires
            self.wf(),
            other.wf(),
        ensures
            r == le_val(self, other),
    {
        proof {
            lemma_mul_bound(self.num as int, other.den as int, i64::MAX as int, i64::MAX as int);
            lemma_mul_bound(other.num as int, self.den as int, i64::MAX as int, i64::MAX as int);
        }
        self.num as i128 * other.den as i128 <= other.num as i128 * self.den as i128
    }

    /// `self < other` on the exact values.
    pub fn lt(self, other: Rat) -> (r: bool)
        requires
            self.wf(),
            other.wf(),
        ensures
            r == lt_val(self, other),
    {
        proof {
            lemma_mul_bound(self.num as int, other.den as int, i64::MAX as int, i64::MAX as int);
            lemma_mul_bound(other.num as int, self.den as int, i64::MAX as int, i64::MAX as int);
        }
        (self.num as i128 * other.den as i128) < (other.num as i128 * self.den as i128)
    }

    /// Value equality (independent of representation).
    pub fn eq_value(self, other: Rat) -> (r: bool)
        requires
            self.wf(),
            other.wf(),
        ensures
            r == eq_val(self, other),
    {
        proof {
            lemma_mul_bound(self.num as int, other.den as int, i64::MAX as int, i64::MAX as int);
            lemma_mul_bound(other.num as int, self.den as int, i64::MAX as int, i64::MAX as int);
        }
        self.num as i128 * other.den as i128 == other.num as i128 * self.den as i128
    }

    /// Strictly positive value.
    pub fn is_pos(self) -> (r: bool)
        ensures
            r == is_pos_val(self),
    {
        self.num > 0
    }

    /// Strictly negative value.
    pub fn is_neg(self) -> (r: bool)
        ensures
            r == is_neg_val(self),
    {
        self.num < 0
    }

    /// Zero value.
    pub fn is_zero(self) -> (r: bool)
        ensures
            r == (self.num == 0),
    {
        self.num == 0
    }
}

} // verus!
