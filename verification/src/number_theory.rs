//! Greatest common divisors and quotients of integers as real numbers.

use vstd::prelude::*;
use vstd::arithmetic::div_mod::lemma_fundamental_div_mod;

verus! {

/// The greatest common divisor, by Euclid's recursion. `gcd(0, 0)` is 0.
pub open spec fn gcd(a: nat, b: nat) -> nat
    decreases b,
{
    if b == 0 {
        a
    } else {
        gcd(b, a % b)
    }
}

/// The quotient `n / d` as a real number.
pub open spec fn ratio(n: int, d: int) -> real {
    n as real / d as real
}

/// The greatest common divisor of two numbers that are not both zero is positive.
pub proof fn lemma_gcd_positive(a: nat, b: nat)
    requires
        a > 0 || b > 0,
    ensures
        gcd(a, b) > 0,
    decreases b,
{
    if b != 0 {
        lemma_gcd_positive(b, a % b);
    }
}

/// The greatest common divisor divides both arguments: the result holds the two quotients.
pub proof fn lemma_gcd_factors(a: nat, b: nat) -> (pq: (nat, nat))
    ensures
        a == gcd(a, b) * pq.0,
        b == gcd(a, b) * pq.1,
    decreases b,
{
    if b == 0 {
        (1, 0)
    } else {
        let g: nat = gcd(a, b);
        let (p, q) = lemma_gcd_factors(b, a % b);
        let k: nat = a / b;
        lemma_fundamental_div_mod(a as int, b as int);
        assert(a == g * (p * k + q)) by (nonlinear_arith)
            requires
                a == b * k + a % b,
                b == g * p,
                a % b == g * q,
        ;
        (p * k + q, p)
    }
}

/// Bezout's identity: the greatest common divisor is an integer combination of the arguments.
pub proof fn lemma_bezout(a: nat, b: nat) -> (xy: (int, int))
    ensures
        a * xy.0 + b * xy.1 == gcd(a, b),
    decreases b,
{
    if b == 0 {
        (1, 0)
    } else {
        let g: nat = gcd(a, b);
        let (x, y) = lemma_bezout(b, a % b);
        let k: nat = a / b;
        let r: nat = a % b;
        lemma_fundamental_div_mod(a as int, b as int);
        assert(a * y + b * (x - k * y) == g) by (nonlinear_arith)
            requires
                a == b * k + r,
                b * x + r * y == g,
        ;
        (y, x - k * y)
    }
}

/// Two numbers with an integer combination equal to 1 have no common divisor but 1.
pub proof fn lemma_combination_one(a: nat, b: nat, x: int, y: int)
    requires
        a * x + b * y == 1,
    ensures
        gcd(a, b) == 1,
{
    let g: nat = gcd(a, b);
    let (p, q) = lemma_gcd_factors(a, b);
    let m: int = p * x + q * y;
    assert(g * m == 1) by (nonlinear_arith)
        requires
            a == g * p,
            b == g * q,
            a * x + b * y == 1,
            m == p * x + q * y,
    ;
    assert(g == 1) by (nonlinear_arith)
        requires
            g * m == 1,
    ;
}

/// Euclid's lemma in the form used for fractions in lowest terms: if `n * q == p * d`
/// with `p` and `q` coprime, then `d` is a multiple of `q` and `n` the same multiple of `p`.
pub proof fn lemma_lowest_terms_divide(p: int, q: nat, n: int, d: nat) -> (k: int)
    requires
        q > 0,
        d > 0,
        gcd(vstd::math::abs(p) as nat, q) == 1,
        n * q == p * d,
    ensures
        k >= 1,
        d == q * k,
        n == p * k,
{
    let a: nat = vstd::math::abs(p) as nat;
    let (x0, y) = lemma_bezout(a, q);
    let x: int = if p < 0 { -x0 } else { x0 };
    assert(p * x + q * y == 1) by (nonlinear_arith)
        requires
            a * x0 + q * y == 1,
            a == if p < 0 { -p } else { p },
            x == if p < 0 { -x0 } else { x0 },
    ;
    let k: int = n * x + d * y;
    assert(d == q * k) by (nonlinear_arith)
        requires
            p * x + q * y == 1,
            n * q == p * d,
            k == n * x + d * y,
    ;
    assert(k >= 1) by (nonlinear_arith)
        requires
            d == q * k,
            d > 0,
            q > 0,
    ;
    assert(n == p * k) by (nonlinear_arith)
        requires
            n * q == p * d,
            d == q * k,
            q > 0,
    ;
    k
}

/// Two quotients are equal exactly when their cross products are.
pub proof fn lemma_ratio_cross(a: int, b: int, c: int, d: int)
    requires
        b != 0,
        d != 0,
    ensures
        ratio(a, b) == ratio(c, d) <==> a * d == c * b,
{
    assert((a as real / b as real == c as real / d as real) <==> a * d == c * b)
        by (nonlinear_arith)
        requires
            b != 0,
            d != 0,
    ;
}

/// The product of two quotients.
pub proof fn lemma_ratio_mul(a: int, b: int, c: int, d: int)
    requires
        b != 0,
        d != 0,
    ensures
        ratio(a, b) * ratio(c, d) == ratio(a * c, b * d),
{
    assert((a as real / b as real) * (c as real / d as real) == (a * c) as real / (b * d) as real)
        by (nonlinear_arith)
        requires
            b != 0,
            d != 0,
    ;
}

/// The difference of two quotients.
pub proof fn lemma_ratio_sub(a: int, b: int, c: int, d: int)
    requires
        b != 0,
        d != 0,
    ensures
        ratio(a, b) - ratio(c, d) == ratio(a * d - c * b, b * d),
{
    assert((a as real / b as real) - (c as real / d as real) == (a * d - c * b) as real / (b
        * d) as real) by (nonlinear_arith)
        requires
            b != 0,
            d != 0,
    ;
}

/// A quotient with denominator 1 is its numerator.
pub proof fn lemma_ratio_whole(n: int)
    ensures
        ratio(n, 1) == n as real,
{
    assert(n as real / 1 as real == n as real) by (nonlinear_arith);
}

/// A quotient is zero exactly when its numerator is.
pub proof fn lemma_ratio_zero(n: int, d: int)
    requires
        d != 0,
    ensures
        ratio(n, d) == 0real <==> n == 0,
{
    assert((n as real / d as real == 0real) <==> n == 0) by (nonlinear_arith)
        requires
            d != 0,
    ;
}

/// The reciprocal of a quotient exchanges numerator and denominator; the sign may
/// stand on either.
pub proof fn lemma_ratio_inverse(n: int, d: int)
    requires
        n != 0,
        d != 0,
    ensures
        ratio(d, n) * ratio(n, d) == 1real,
        ratio(d, n) == 1real / ratio(n, d),
        ratio(-d, -n) == ratio(d, n),
{
    assert((d as real / n as real) * (n as real / d as real) == 1real) by (nonlinear_arith)
        requires
            n != 0,
            d != 0,
    ;
    assert(d as real / n as real == 1real / (n as real / d as real)) by (nonlinear_arith)
        requires
            n != 0,
            d != 0,
    ;
    assert((-d) as real / (-n) as real == d as real / n as real) by (nonlinear_arith)
        requires
            n != 0,
            d != 0,
    ;
}

} // verus!
