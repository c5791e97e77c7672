//! Exact rational scalars.
//!
//! Every scalar the contour core works with is a fraction `num / den` of
//! machine integers with `den > 0`.  Each operation divides its raw result by
//! the greatest common divisor of numerator and denominator, so the same
//! computation on the same operands always yields the same representation,
//! and `==` (plain field equality) is the exact-match test that segment
//! stitching relies on.

use vstd::prelude::*;

verus! {

use vstd::math::abs;
use vstd::arithmetic::div_mod::{
    lemma_fundamental_div_mod, lemma_mod_multiples_vanish, lemma_mod_self_0, lemma_small_mod,
    lemma_div_is_ordered, lemma_div_nonincreasing, lemma_div_multiples_vanish,
};

/// An exact rational number `num / den`, kept with `den > 0` and with the
/// numerator and denominator divided by their greatest common divisor.
#[derive(Clone, Copy, PartialEq, Eq, Structural, Debug)]
pub struct Frac {
    pub num: i128,
    pub den: i128,
}

/// Greatest common divisor by Euclid's recursion.
pub open spec fn gcd(a: nat, b: nat) -> nat
    decreases b,
{
    if b == 0 {
        a
    } else {
        gcd(b, a % b)
    }
}

/// The normalized numerator of the fraction `n / d`: `n` divided by
/// `gcd(|n|, |d|)`.
pub open spec fn norm_num(n: int, d: int) -> int {
    let g = gcd(abs(n), abs(d)) as int;
    if g == 0 {
        0
    } else {
        n / g
    }
}

/// The normalized denominator of the fraction `n / d`.
pub open spec fn norm_den(n: int, d: int) -> int {
    let g = gcd(abs(n), abs(d)) as int;
    if g == 0 {
        1
    } else {
        d / g
    }
}

/// The canonical representative of the fraction `n / d` (for `d > 0`).
pub open spec fn spec_norm(n: int, d: int) -> Frac {
    Frac { num: norm_num(n, d) as i128, den: norm_den(n, d) as i128 }
}

impl Frac {
    /// A well-formed fraction has a positive denominator.
    pub open spec fn wf(self) -> bool {
        0 < self.den
    }

    /// Both parts are bounded: `|num| <= bn` and `den <= bd`.
    pub open spec fn bounded(self, bn: int, bd: int) -> bool {
        &&& self.wf()
        &&& -bn <= self.num <= bn
        &&& self.den <= bd
    }
}

/// `a > b` as rational numbers (cross-multiplied; both well-formed).
pub open spec fn spec_gt(a: Frac, b: Frac) -> bool {
    a.num * b.den > b.num * a.den
}

/// `a >= b` as rational numbers.
pub open spec fn spec_ge(a: Frac, b: Frac) -> bool {
    a.num * b.den >= b.num * a.den
}

/// `a < b` as rational numbers.
pub open spec fn spec_lt(a: Frac, b: Frac) -> bool {
    a.num * b.den < b.num * a.den
}

/// `a <= b` as rational numbers.
pub open spec fn spec_le(a: Frac, b: Frac) -> bool {
    a.num * b.den <= b.num * a.den
}

/// `a == b` as rational numbers (equal values, not necessarily equal fields).
pub open spec fn spec_eq_val(a: Frac, b: Frac) -> bool {
    a.num * b.den == b.num * a.den
}

/// The largest magnitude the comparison operations accept for either part of
/// either operand (so that cross products fit in an `i128`).
pub const CMP_BOUND: i128 = 0x7fff_ffff_ffff_ffff;

/// The raw parts of `a + b` and `a - b` fit in an `i128`.
pub open spec fn sum_fits(a: Frac, b: Frac) -> bool {
    &&& a.wf()
    &&& b.wf()
    &&& abs(a.num as int) * b.den + abs(b.num as int) * a.den <= i128::MAX
    &&& a.den * b.den <= i128::MAX
}

/// The raw parts of `a * b` fit in an `i128`.
pub open spec fn mul_fits(a: Frac, b: Frac) -> bool {
    &&& a.wf()
    &&& b.wf()
    &&& abs(a.num as int) * abs(b.num as int) <= i128::MAX
    &&& a.den * b.den <= i128::MAX
}

/// The raw parts of `a / b` fit in an `i128`.
pub open spec fn div_fits(a: Frac, b: Frac) -> bool {
    &&& a.wf()
    &&& b.wf()
    &&& abs(a.num as int) * b.den <= i128::MAX
    &&& a.den * abs(b.num as int) <= i128::MAX
}

/// If `|x| <= bx` and `0 <= y <= ub` then `|x * y| <= bx * ub`.
pub proof fn lemma_mul_abs_bound(x: int, y: int, bx: int, ub: int)
    by (nonlinear_arith)
    requires
        -bx <= x <= bx,
        0 <= y <= ub,
        0 <= bx,
    ensures
        -(bx * ub) <= x * y <= bx * ub,
{
}

/// If `|x| <= bx` and `|y| <= ub` then `|x * y| <= bx * ub`.
pub proof fn lemma_mul_abs_bound2(x: int, y: int, bx: int, ub: int)
    by (nonlinear_arith)
    requires
        -bx <= x <= bx,
        -ub <= y <= ub,
        0 <= bx,
        0 <= ub,
    ensures
        -(bx * ub) <= x * y <= bx * ub,
{
}

/// Two products with positive factors have the same sign:
/// if `big_p * p == big_q * q` with `p, q > 0`, the signs of `big_p` and
/// `big_q` agree.
pub proof fn lemma_sign_transfer(big_p: int, big_q: int, p: int, q: int)
    by (nonlinear_arith)
    requires
        0 < p,
        0 < q,
        big_p * p == big_q * q,
    ensures
        (big_p > 0 <==> big_q > 0),
        (big_p >= 0 <==> big_q >= 0),
        (big_p == 0 <==> big_q == 0),
{
}

/// Comparisons of two well-formed fractions transfer to any raw value pairs
/// they are known (by cross-multiplication) to equal.
pub proof fn lemma_cmp_transfer(a: Frac, an: int, ad: int, b: Frac, bn: int, bd: int)
    requires
        a.wf(),
        b.wf(),
        0 < ad,
        0 < bd,
        a.num * ad == an * a.den,
        b.num * bd == bn * b.den,
    ensures
        spec_gt(a, b) <==> an * bd > bn * ad,
        spec_ge(a, b) <==> an * bd >= bn * ad,
        spec_eq_val(a, b) <==> an * bd == bn * ad,
{
    let big_p = a.num * b.den - b.num * a.den;
    let big_q = an * bd - bn * ad;
    assert((a.num * b.den) * (ad * bd) == (a.num * ad) * (b.den * bd)) by (nonlinear_arith);
    assert((a.num * ad) * (b.den * bd) == (an * a.den) * (b.den * bd)) by (nonlinear_arith)
        requires a.num * ad == an * a.den,
    ;
    assert((an * a.den) * (b.den * bd) == (an * bd) * (a.den * b.den)) by (nonlinear_arith);
    assert((b.num * a.den) * (ad * bd) == (b.num * bd) * (a.den * ad)) by (nonlinear_arith);
    assert((b.num * bd) * (a.den * ad) == (bn * b.den) * (a.den * ad)) by (nonlinear_arith)
        requires b.num * bd == bn * b.den,
    ;
    assert((bn * b.den) * (a.den * ad) == (bn * ad) * (a.den * b.den)) by (nonlinear_arith);
    assert(big_p * (ad * bd) == (a.num * b.den) * (ad * bd) - (b.num * a.den) * (ad * bd))
        by (nonlinear_arith)
        requires big_p == a.num * b.den - b.num * a.den,
    ;
    assert(big_q * (a.den * b.den) == (an * bd) * (a.den * b.den) - (bn * ad) * (a.den * b.den))
        by (nonlinear_arith)
        requires big_q == an * bd - bn * ad,
    ;
    assert(big_p * (ad * bd) == big_q * (a.den * b.den));
    assert(ad * bd > 0) by (nonlinear_arith)
        requires 0 < ad, 0 < bd,
    ;
    assert(a.den * b.den > 0) by (nonlinear_arith)
        requires 0 < a.den, 0 < b.den,
    ;
    lemma_sign_transfer(big_p, big_q, ad * bd, a.den * b.den);
}

/// The greatest common divisor of `a` and `b` is positive when either is,
/// and divides both exactly.
pub proof fn lemma_gcd_props(a: nat, b: nat)
    requires
        a + b > 0,
    ensures
        gcd(a, b) > 0,
        a as int % (gcd(a, b) as int) == 0,
        b as int % (gcd(a, b) as int) == 0,
    decreases b,
{
    let g = gcd(a, b) as int;
    if b == 0 {
        lemma_mod_self_0(a as int);
        lemma_small_mod(0, a);
    } else {
        let r = a % b;
        lemma_gcd_props(b, r);
        // gcd(a, b) == gcd(b, a % b) by definition; it divides b and r.
        lemma_fundamental_div_mod(a as int, b as int);
        let q = a as int / b as int;
        lemma_fundamental_div_mod(b as int, g);
        let kb = b as int / g;
        assert(a as int == g * (kb * q) + r) by (nonlinear_arith)
            requires
                a as int == (b as int) * q + r,
                b as int == g * kb,
        ;
        lemma_mod_multiples_vanish(kb * q, r as int, g);
    }
}

/// Exact division: if `g > 0` divides `x` exactly then `g * (x / g) == x`.
pub proof fn lemma_exact_div(x: int, g: int)
    requires
        0 < g,
        x % g == 0,
    ensures
        g * (x / g) == x,
{
    lemma_fundamental_div_mod(x, g);
}

/// `(-x) % g == 0` whenever `x % g == 0` (for positive `g`), and the
/// quotient of the negation is the negated quotient.
pub proof fn lemma_exact_div_neg(x: int, g: int)
    requires
        0 < g,
        x % g == 0,
    ensures
        (-x) % g == 0,
        (-x) / g == -(x / g),
{
    lemma_exact_div(x, g);
    let k = x / g;
    assert(-x == g * (-k)) by (nonlinear_arith)
        requires x == g * k,
    ;
    lemma_div_multiples_vanish(-k, g);
    assert((g * (-k)) % g == 0) by {
        lemma_mod_multiples_vanish(-k, 0, g);
        lemma_small_mod(0, g as nat);
    }
}

/// What normalization guarantees: the canonical form of `n / d` (for
/// `d > 0`) is well-formed, has the value `n / d`, keeps the sign of `n`,
/// and its parts are no larger than the raw parts.
pub proof fn lemma_norm_props(n: int, d: int)
    requires
        0 < d <= i128::MAX,
        i128::MIN < n <= i128::MAX,
    ensures
        spec_norm(n, d).wf(),
        1 <= norm_den(n, d) <= d,
        -abs(n) <= norm_num(n, d) <= abs(n),
        norm_num(n, d) * d == n * norm_den(n, d),
        (norm_num(n, d) > 0 <==> n > 0),
        (norm_num(n, d) < 0 <==> n < 0),
        (n <= d ==> norm_num(n, d) <= norm_den(n, d)),
        spec_norm(n, d).num == norm_num(n, d),
        spec_norm(n, d).den == norm_den(n, d),
{
    let a = abs(n);
    let g = gcd(a, d as nat) as int;
    lemma_gcd_props(a, d as nat);
    let kd = d / g;
    let kn = n / g;
    // g divides |n|; it divides n as well, whatever the sign.
    if n < 0 {
        lemma_exact_div_neg(a as int, g);
        assert(n == -(a as int));
    }
    lemma_exact_div(n, g);
    lemma_exact_div(d, g);
    // d / g >= 1 because g * kd == d > 0.
    assert(kd >= 1) by (nonlinear_arith)
        requires g * kd == d, 0 < d, 0 < g,
    ;
    assert(kd <= d) by {
        assert(d <= d * g) by (nonlinear_arith)
            requires 0 < d, 1 <= g,
        ;
        lemma_div_is_ordered(d, d * g, g);
        lemma_div_multiples_vanish(d, g);
        assert(d * g == g * d);
    }
    // value preservation: kn * d == n * kd.
    assert(kn * d == n * kd) by (nonlinear_arith)
        requires g * kn == n, g * kd == d, 0 < g,
    ;
    // magnitude: |kn| <= |n|.
    assert(-(a as int) <= kn <= a as int) by {
        if n >= 0 {
            lemma_div_nonincreasing(n, g);
            vstd::arithmetic::div_mod::lemma_div_pos_is_pos(n, g);
        } else {
            lemma_exact_div_neg(a as int, g);
            lemma_div_nonincreasing(a as int, g);
            vstd::arithmetic::div_mod::lemma_div_pos_is_pos(a as int, g);
        }
    }
    // sign preservation.
    assert(kn > 0 <==> n > 0) by (nonlinear_arith)
        requires g * kn == n, 0 < g,
    ;
    assert(kn < 0 <==> n < 0) by (nonlinear_arith)
        requires g * kn == n, 0 < g,
    ;
    if n <= d {
        lemma_div_is_ordered(n, d, g);
    }
}

/// `gcd` computed by the executable recursion.
pub fn gcd_exec(a: u128, b: u128) -> (g: u128)
    ensures
        g == gcd(a as nat, b as nat),
    decreases b,
{
    if b == 0 {
        a
    } else {
        gcd_exec(b, a % b)
    }
}

/// Reduce `n / d` (with `d > 0`) to canonical form.
pub fn norm(n: i128, d: i128) -> (r: Frac)
    requires
        0 < d,
        i128::MIN < n,
    ensures
        r == spec_norm(n as int, d as int),
        r.wf(),
        1 <= r.den <= d,
        -abs(n as int) <= r.num <= abs(n as int),
        r.num * d == n * r.den,
        (r.num > 0 <==> n > 0),
        (r.num < 0 <==> n < 0),
        (n <= d ==> r.num <= r.den),
{
    proof {
        lemma_norm_props(n as int, d as int);
    }
    let neg: bool = n < 0;
    let a: u128 = if neg {
        (-n) as u128
    } else {
        n as u128
    };
    let du: u128 = d as u128;
    let g: u128 = gcd_exec(a, du);
    proof {
        lemma_gcd_props(a as nat, du as nat);
        if neg {
            lemma_exact_div_neg(a as int, g as int);
        }
    }
    let na: u128 = a / g;
    let dr: u128 = du / g;
    proof {
        lemma_div_nonincreasing(a as int, g as int);
        lemma_div_nonincreasing(du as int, g as int);
    }
    let num: i128 = if neg {
        -(na as i128)
    } else {
        na as i128
    };
    Frac { num, den: dr as i128 }
}

/// The canonical form of the sum `a + b`.
pub open spec fn spec_add(a: Frac, b: Frac) -> Frac {
    spec_norm(a.num * b.den + b.num * a.den, a.den * b.den)
}

/// The canonical form of the difference `a - b`.
pub open spec fn spec_sub(a: Frac, b: Frac) -> Frac {
    spec_norm(a.num * b.den - b.num * a.den, a.den * b.den)
}

/// The canonical form of the product `a * b`.
pub open spec fn spec_mul(a: Frac, b: Frac) -> Frac {
    spec_norm(a.num * b.num, a.den * b.den)
}

/// The raw numerator of `a / b`, sign-corrected so the raw denominator is
/// positive.
pub open spec fn div_raw_num(a: Frac, b: Frac) -> int {
    if b.num < 0 {
        -(a.num * b.den)
    } else {
        a.num * b.den
    }
}

/// The raw (positive) denominator of `a / b`.
pub open spec fn div_raw_den(a: Frac, b: Frac) -> int {
    if b.num < 0 {
        -(a.den * b.num)
    } else {
        a.den * b.num
    }
}

/// The canonical form of the quotient `a / b` (for `b != 0`).
pub open spec fn spec_div(a: Frac, b: Frac) -> Frac {
    spec_norm(div_raw_num(a, b), div_raw_den(a, b))
}

impl Frac {
    /// Build the canonical fraction `num / den`.  A negative denominator is
    /// allowed and folded into the numerator's sign.
    pub fn new(num: i128, den: i128) -> (r: Frac)
        requires
            den != 0,
            i128::MIN < num,
            i128::MIN < den,
        ensures
            r == (if den > 0 {
                spec_norm(num as int, den as int)
            } else {
                spec_norm(-(num as int), -(den as int))
            }),
            r.wf(),
    {
        if den > 0 {
            norm(num, den)
        } else {
            norm(-num, -den)
        }
    }

    /// The exact zero.
    pub fn zero() -> (r: Frac)
        ensures
            r == (Frac { num: 0, den: 1 }),
            r.wf(),
    {
        Frac { num: 0, den: 1 }
    }

    /// Exact addition.
    pub fn add(self, other: Frac) -> (r: Frac)
        requires
            self.wf(),
            other.wf(),
            abs(self.num as int) * other.den + abs(other.num as int) * self.den <= i128::MAX,
            self.den * other.den <= i128::MAX,
        ensures
            r == spec_add(self, other),
            r.wf(),
            1 <= r.den <= self.den * other.den,
            -(abs(self.num as int) * other.den + abs(other.num as int) * self.den) <= r.num
                <= abs(self.num as int) * other.den + abs(other.num as int) * self.den,
            r.num * (self.den * other.den) == (self.num * other.den + other.num * self.den)
                * r.den,
    {
        proof {
            lemma_mul_abs_bound(self.num as int, other.den as int, abs(self.num as int) as int,
                other.den as int);
            lemma_mul_abs_bound(other.num as int, self.den as int, abs(other.num as int) as int,
                self.den as int);
            assert(0 < self.den * other.den) by (nonlinear_arith)
                requires 0 < self.den, 0 < other.den,
            ;
        }
        let n1: i128 = self.num * other.den;
        let n2: i128 = other.num * self.den;
        let n: i128 = n1 + n2;
        let d: i128 = self.den * other.den;
        let r = norm(n, d);
        proof {
            lemma_norm_props(n as int, d as int);
        }
        r
    }

    /// Exact subtraction.
    pub fn sub(self, other: Frac) -> (r: Frac)
        requires
            self.wf(),
            other.wf(),
            abs(self.num as int) * other.den + abs(other.num as int) * self.den <= i128::MAX,
            self.den * other.den <= i128::MAX,
        ensures
            r == spec_sub(self, other),
            r.wf(),
            1 <= r.den <= self.den * other.den,
            -(abs(self.num as int) * other.den + abs(other.num as int) * self.den) <= r.num
                <= abs(self.num as int) * other.den + abs(other.num as int) * self.den,
            r.num * (self.den * other.den) == (self.num * other.den - other.num * self.den)
                * r.den,
            (r.num == 0 <==> spec_eq_val(self, other)),
    {
        proof {
            lemma_mul_abs_bound(self.num as int, other.den as int, abs(self.num as int) as int,
                other.den as int);
            lemma_mul_abs_bound(other.num as int, self.den as int, abs(other.num as int) as int,
                self.den as int);
            assert(0 < self.den * other.den) by (nonlinear_arith)
                requires 0 < self.den, 0 < other.den,
            ;
        }
        let n1: i128 = self.num * other.den;
        let n2: i128 = other.num * self.den;
        let n: i128 = n1 - n2;
        let d: i128 = self.den * other.den;
        let r = norm(n, d);
        proof {
            lemma_norm_props(n as int, d as int);
        }
        r
    }

    /// Exact multiplication.
    pub fn mul(self, other: Frac) -> (r: Frac)
        requires
            self.wf(),
            other.wf(),
            abs(self.num as int) * abs(other.num as int) <= i128::MAX,
            self.den * other.den <= i128::MAX,
        ensures
            r == spec_mul(self, other),
            r.wf(),
            1 <= r.den <= self.den * other.den,
            -(abs(self.num as int) * abs(other.num as int)) <= r.num
                <= abs(self.num as int) * abs(other.num as int),
            r.num * (self.den * other.den) == (self.num * other.num) * r.den,
    {
        proof {
            lemma_mul_abs_bound2(self.num as int, other.num as int, abs(self.num as int) as int,
                abs(other.num as int) as int);
            assert(0 < self.den * other.den) by (nonlinear_arith)
                requires 0 < self.den, 0 < other.den,
            ;
        }
        let n: i128 = self.num * other.num;
        let d: i128 = self.den * other.den;
        let r = norm(n, d);
        proof {
            lemma_norm_props(n as int, d as int);
        }
        r
    }

    /// Exact division (`other` must be nonzero).
    pub fn div(self, other: Frac) -> (r: Frac)
        requires
            self.wf(),
            other.wf(),
            other.num != 0,
            abs(self.num as int) * other.den <= i128::MAX,
            self.den * abs(other.num as int) <= i128::MAX,
        ensures
            r == spec_div(self, other),
            r.wf(),
            1 <= r.den <= self.den * abs(other.num as int),
            -(abs(self.num as int) * other.den) <= r.num <= abs(self.num as int) * other.den,
            r.num * div_raw_den(self, other) == div_raw_num(self, other) * r.den,
            (r.num > 0 <==> div_raw_num(self, other) > 0),
            (r.num < 0 <==> div_raw_num(self, other) < 0),
            (div_raw_num(self, other) <= div_raw_den(self, other) ==> r.num <= r.den),
    {
        proof {
            lemma_mul_abs_bound(self.num as int, other.den as int, abs(self.num as int) as int,
                other.den as int);
            lemma_mul_abs_bound2(self.den as int, other.num as int, self.den as int,
                abs(other.num as int) as int);
            assert(self.den * other.num != 0) by (nonlinear_arith)
                requires 0 < self.den, other.num != 0,
            ;
            assert(self.den * other.num < 0 <==> other.num < 0) by (nonlinear_arith)
                requires 0 < self.den,
            ;
        }
        let n: i128 = self.num * other.den;
        let d: i128 = self.den * other.num;
        let r = if d < 0 {
            norm(-n, -d)
        } else {
            norm(n, d)
        };
        proof {
            if d < 0 {
                lemma_norm_props(-(n as int), -(d as int));
            } else {
                lemma_norm_props(n as int, d as int);
            }
        }
        r
    }

    /// The absolute value as a spec-level fraction.
    pub open spec fn spec_abs(self) -> Frac {
        Frac { num: abs(self.num as int) as i128, den: self.den }
    }

    /// The absolute value.
    pub fn abs_val(self) -> (r: Frac)
        requires
            self.wf(),
            i128::MIN < self.num,
        ensures
            r == self.spec_abs(),
            r.wf(),
    {
        if self.num < 0 {
            Frac { num: -self.num, den: self.den }
        } else {
            Frac { num: self.num, den: self.den }
        }
    }

    /// `self > other` as rational numbers.
    pub fn gt(self, other: Frac) -> (r: bool)
        requires
            self.bounded(CMP_BOUND as int, CMP_BOUND as int),
            other.bounded(CMP_BOUND as int, CMP_BOUND as int),
        ensures
            r == spec_gt(self, other),
    {
        proof {
            lemma_mul_abs_bound(self.num as int, other.den as int, CMP_BOUND as int,
                CMP_BOUND as int);
            lemma_mul_abs_bound(other.num as int, self.den as int, CMP_BOUND as int,
                CMP_BOUND as int);
        }
        self.num * other.den > other.num * self.den
    }

    /// `self >= other` as rational numbers.
    pub fn ge(self, other: Frac) -> (r: bool)
        requires
            self.bounded(CMP_BOUND as int, CMP_BOUND as int),
            other.bounded(CMP_BOUND as int, CMP_BOUND as int),
        ensures
            r == spec_ge(self, other),
    {
        proof {
            lemma_mul_abs_bound(self.num as int, other.den as int, CMP_BOUND as int,
                CMP_BOUND as int);
            lemma_mul_abs_bound(other.num as int, self.den as int, CMP_BOUND as int,
                CMP_BOUND as int);
        }
        self.num * other.den >= other.num * self.den
    }

    /// `self < other` as rational numbers.
    pub fn lt(self, other: Frac) -> (r: bool)
        requires
            self.bounded(CMP_BOUND as int, CMP_BOUND as int),
            other.bounded(CMP_BOUND as int, CMP_BOUND as int),
        ensures
            r == spec_lt(self, other),
    {
        proof {
            lemma_mul_abs_bound(self.num as int, other.den as int, CMP_BOUND as int,
                CMP_BOUND as int);
            lemma_mul_abs_bound(other.num as int, self.den as int, CMP_BOUND as int,
                CMP_BOUND as int);
        }
        self.num * other.den < other.num * self.den
    }

    /// `self <= other` as rational numbers.
    pub fn le(self, other: Frac) -> (r: bool)
        requires
            self.bounded(CMP_BOUND as int, CMP_BOUND as int),
            other.bounded(CMP_BOUND as int, CMP_BOUND as int),
        ensures
            r == spec_le(self, other),
    {
        proof {
            lemma_mul_abs_bound(self.num as int, other.den as int, CMP_BOUND as int,
                CMP_BOUND as int);
            lemma_mul_abs_bound(other.num as int, self.den as int, CMP_BOUND as int,
                CMP_BOUND as int);
        }
        self.num * other.den <= other.num * self.den
    }

    /// `self == other` as rational numbers (value equality).
    pub fn eq_val(self, other: Frac) -> (r: bool)
        requires
            self.bounded(CMP_BOUND as int, CMP_BOUND as int),
            other.bounded(CMP_BOUND as int, CMP_BOUND as int),
        ensures
            r == spec_eq_val(self, other),
    {
        proof {
            lemma_mul_abs_bound(self.num as int, other.den as int, CMP_BOUND as int,
                CMP_BOUND as int);
            lemma_mul_abs_bound(other.num as int, self.den as int, CMP_BOUND as int,
                CMP_BOUND as int);
        }
        self.num * other.den == other.num * self.den
    }
}

/// The negation of a fraction.
pub open spec fn spec_neg(a: Frac) -> Frac {
    Frac { num: (-(a.num as int)) as i128, den: a.den }
}

/// Normalization commutes with negation of the numerator.
pub proof fn lemma_norm_neg(n: int, d: int)
    requires
        0 < d <= i128::MAX,
        i128::MIN < n <= i128::MAX,
    ensures
        spec_norm(-n, d) == spec_neg(spec_norm(n, d)),
{
    lemma_norm_props(n, d);
    lemma_norm_props(-n, d);
    let a = abs(n);
    let g = gcd(a, d as nat) as int;
    lemma_gcd_props(a, d as nat);
    assert(abs(-n) == a);
    if n < 0 {
        lemma_exact_div_neg(a as int, g);
    }
    lemma_exact_div_neg(n, g);
}

/// Addition and subtraction commute with negation of both operands.
pub proof fn lemma_addsub_neg(a: Frac, b: Frac, an: int, ad: int, bn: int, bd: int)
    requires
        a.bounded(an, ad),
        b.bounded(bn, bd),
        0 <= an,
        0 < ad,
        0 <= bn,
        0 < bd,
        an * bd + bn * ad <= i128::MAX,
        ad * bd <= i128::MAX,
    ensures
        spec_add(spec_neg(a), spec_neg(b)) == spec_neg(spec_add(a, b)),
        spec_sub(spec_neg(a), spec_neg(b)) == spec_neg(spec_sub(a, b)),
{
    lemma_mul_abs_bound(a.num as int, b.den as int, an, bd);
    lemma_mul_abs_bound(b.num as int, a.den as int, bn, ad);
    lemma_mul_abs_bound(a.den as int, b.den as int, ad, bd);
    assert(0 < a.den * b.den) by (nonlinear_arith)
        requires 0 < a.den, 0 < b.den,
    ;
    assert(an <= an * bd && bn <= bn * ad) by (nonlinear_arith)
        requires 0 <= an, 1 <= bd, 0 <= bn, 1 <= ad,
    ;
    assert(spec_neg(a).num as int == -(a.num as int));
    assert(spec_neg(b).num as int == -(b.num as int));
    assert((-(a.num as int)) * b.den == -(a.num * b.den)) by (nonlinear_arith);
    assert((-(b.num as int)) * a.den == -(b.num * a.den)) by (nonlinear_arith);
    let rn_add = a.num * b.den + b.num * a.den;
    let rn_sub = a.num * b.den - b.num * a.den;
    let rd = a.den * b.den;
    lemma_norm_neg(rn_add, rd);
    lemma_norm_neg(rn_sub, rd);
    assert(spec_add(spec_neg(a), spec_neg(b)) == spec_norm(-rn_add, rd));
    assert(spec_sub(spec_neg(a), spec_neg(b)) == spec_norm(-rn_sub, rd));
}

/// Negating both sides of a comparison flips it.
pub proof fn lemma_neg_cmp(a: Frac, b: Frac)
    requires
        a.bounded(CMP_BOUND as int, CMP_BOUND as int),
        b.bounded(CMP_BOUND as int, CMP_BOUND as int),
    ensures
        spec_gt(spec_neg(a), spec_neg(b)) <==> spec_lt(a, b),
        spec_ge(spec_neg(a), spec_neg(b)) <==> spec_le(a, b),
        spec_eq_val(spec_neg(a), spec_neg(b)) <==> spec_eq_val(a, b),
{
    assert((-(a.num as int)) * (b.den as int) == -((a.num as int) * (b.den as int)))
        by (nonlinear_arith);
    assert((-(b.num as int)) * (a.den as int) == -((b.num as int) * (a.den as int)))
        by (nonlinear_arith);
}

/// Bound propagation for addition and subtraction: with `|a.num| <= an`,
/// `a.den <= ad`, `|b.num| <= bn`, `b.den <= bd`, the raw parts fit and the
/// canonical results are bounded by the raw bounds.
pub proof fn lemma_sum_bounds(a: Frac, b: Frac, an: int, ad: int, bn: int, bd: int)
    requires
        a.bounded(an, ad),
        b.bounded(bn, bd),
        0 <= an,
        0 < ad,
        0 <= bn,
        0 < bd,
        an * bd + bn * ad <= i128::MAX,
        ad * bd <= i128::MAX,
    ensures
        sum_fits(a, b),
        spec_add(a, b).bounded(an * bd + bn * ad, ad * bd),
        spec_sub(a, b).bounded(an * bd + bn * ad, ad * bd),
{
    lemma_mul_abs_bound(a.num as int, b.den as int, an, bd);
    lemma_mul_abs_bound(b.num as int, a.den as int, bn, ad);
    lemma_mul_abs_bound(a.den as int, b.den as int, ad, bd);
    assert(0 < a.den * b.den) by (nonlinear_arith)
        requires 0 < a.den, 0 < b.den,
    ;
    assert(abs(a.num as int) * b.den <= an * bd) by {
        lemma_mul_abs_bound(abs(a.num as int) as int, b.den as int, an, bd);
    }
    assert(abs(b.num as int) * a.den <= bn * ad) by {
        lemma_mul_abs_bound(abs(b.num as int) as int, a.den as int, bn, ad);
    }
    lemma_norm_props(a.num * b.den + b.num * a.den, a.den * b.den);
    lemma_norm_props(a.num * b.den - b.num * a.den, a.den * b.den);
}

/// Bound propagation for multiplication.
pub proof fn lemma_mul_bounds(a: Frac, b: Frac, an: int, ad: int, bn: int, bd: int)
    requires
        a.bounded(an, ad),
        b.bounded(bn, bd),
        0 <= an,
        0 < ad,
        0 <= bn,
        0 < bd,
        an * bn <= i128::MAX,
        ad * bd <= i128::MAX,
    ensures
        mul_fits(a, b),
        spec_mul(a, b).bounded(an * bn, ad * bd),
{
    lemma_mul_abs_bound2(a.num as int, b.num as int, an, bn);
    lemma_mul_abs_bound(a.den as int, b.den as int, ad, bd);
    assert(0 < a.den * b.den) by (nonlinear_arith)
        requires 0 < a.den, 0 < b.den,
    ;
    assert(abs(a.num as int) * abs(b.num as int) <= an * bn) by {
        lemma_mul_abs_bound(abs(a.num as int) as int, abs(b.num as int) as int, an, bn);
    }
    lemma_norm_props(a.num * b.num, a.den * b.den);
}

/// Bound propagation for division (`b` nonzero).
pub proof fn lemma_div_bounds(a: Frac, b: Frac, an: int, ad: int, bn: int, bd: int)
    requires
        a.bounded(an, ad),
        b.bounded(bn, bd),
        b.num != 0,
        0 <= an,
        0 < ad,
        0 <= bn,
        0 < bd,
        an * bd <= i128::MAX,
        ad * bn <= i128::MAX,
    ensures
        div_fits(a, b),
        spec_div(a, b).bounded(an * bd, ad * bn),
{
    lemma_mul_abs_bound(a.num as int, b.den as int, an, bd);
    lemma_mul_abs_bound2(a.den as int, b.num as int, ad, bn);
    assert(abs(a.num as int) * b.den <= an * bd) by {
        lemma_mul_abs_bound(abs(a.num as int) as int, b.den as int, an, bd);
    }
    assert(a.den * abs(b.num as int) <= ad * bn) by {
        lemma_mul_abs_bound(a.den as int, abs(b.num as int) as int, ad, bn);
    }
    if b.num < 0 {
        assert(-(a.den * b.num) > 0) by (nonlinear_arith)
            requires 0 < a.den, b.num < 0,
        ;
    } else {
        assert(a.den * b.num > 0) by (nonlinear_arith)
            requires 0 < a.den, b.num > 0,
        ;
    }
    lemma_norm_props(div_raw_num(a, b), div_raw_den(a, b));
}

/// Transitivity of `<=` on well-formed fractions.
pub proof fn lemma_le_trans(a: Frac, b: Frac, c: Frac)
    requires
        a.wf(),
        b.wf(),
        c.wf(),
        spec_le(a, b),
        spec_le(b, c),
    ensures
        spec_le(a, c),
{
    assert(a.num * c.den <= c.num * a.den) by (nonlinear_arith)
        requires
            a.num * b.den <= b.num * a.den,
            b.num * c.den <= c.num * b.den,
            0 < a.den,
            0 < b.den,
            0 < c.den,
    ;
}

} // verus!
