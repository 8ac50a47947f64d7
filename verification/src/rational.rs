//! Exact rational numbers in lowest terms, with checked arithmetic.
//!
//! A [`Rational`] stands for one real number. Numerator and denominator are kept in
//! 64 bits, so an operation succeeds exactly when its mathematical result is
//! [`representable`].

use vstd::prelude::*;
use vstd::math::abs;
use vstd::arithmetic::div_mod::lemma_div_multiples_vanish;
use crate::number_theory::{
    gcd,
    ratio,
    lemma_gcd_positive,
    lemma_gcd_factors,
    lemma_bezout,
    lemma_combination_one,
    lemma_lowest_terms_divide,
    lemma_ratio_cross,
    lemma_ratio_mul,
    lemma_ratio_sub,
    lemma_ratio_whole,
    lemma_ratio_zero,
    lemma_ratio_inverse,
};

verus! {

/// The largest denominator, and the largest magnitude of a numerator.
pub open spec fn limit() -> int {
    0x7fff_ffff_ffff_ffff
}

/// Whether `n` and `d` can be the numerator and denominator of a [`Rational`].
pub open spec fn in_range(n: int, d: int) -> bool {
    -limit() <= n <= limit() && 1 <= d <= limit()
}

/// Whether the real number `r` is the quotient of a numerator and a denominator in range.
pub open spec fn representable(r: real) -> bool {
    exists|n: int, d: int| in_range(n, d) && r == #[trigger] ratio(n, d)
}

/// The integer with magnitude `magnitude` and the given sign.
pub open spec fn signed(negative: bool, magnitude: int) -> int {
    if negative {
        -magnitude
    } else {
        magnitude
    }
}

/// A rational number `num / den`.
#[derive(Clone, Copy, Debug, PartialEq, Eq)]
pub struct Rational {
    num: i64,
    den: i64,
}

impl View for Rational {
    type V = real;

    open spec fn view(&self) -> real {
        ratio(self.numer(), self.denom())
    }
}

impl Rational {
    /// The numerator.
    pub closed spec fn numer(self) -> int {
        self.num as int
    }

    /// The denominator.
    pub closed spec fn denom(self) -> int {
        self.den as int
    }

    /// The fraction is in range and in lowest terms.
    pub open spec fn wf(self) -> bool {
        &&& in_range(self.numer(), self.denom())
        &&& gcd(abs(self.numer()) as nat, self.denom() as nat) == 1
    }

    /// The numerator, which carries the sign.
    pub fn numerator(&self) -> (n: i64)
        ensures
            n == self.numer(),
    {
        self.num
    }

    /// The denominator, which is positive.
    pub fn denominator(&self) -> (d: i64)
        ensures
            d == self.denom(),
    {
        self.den
    }

    /// The whole number `value`.
    pub fn from_int(value: i32) -> (r: Rational)
        ensures
            r.wf(),
            r@ == value as real,
            r.numer() == value,
            r.denom() == 1,
    {
        proof {
            lemma_ratio_whole(value as int);
            reveal_with_fuel(gcd, 2);
        }
        Rational { num: value as i64, den: 1 }
    }

    /// The quotient `num / den` in lowest terms, where there is one in range.
    pub fn new(num: i64, den: i64) -> (r: Option<Rational>)
        ensures
            match r {
                Some(q) => den != 0 && q.wf() && q@ == ratio(num as int, den as int),
                None => den == 0 || !representable(ratio(num as int, den as int)),
            },
    {
        if den == 0 {
            return None;
        }
        let negative: bool = (num < 0) != (den < 0);
        let top: u128 = magnitude(num as i128);
        let bottom: u128 = magnitude(den as i128);
        proof {
            let s: int = signed(negative, top as int);
            assert(s * den == num * bottom) by (nonlinear_arith)
                requires
                    s == signed(negative, top as int),
                    negative == ((num < 0) != (den < 0)),
                    top == abs(num as int),
                    bottom == abs(den as int),
            ;
            lemma_ratio_cross(s, bottom as int, num as int, den as int);
        }
        reduce(negative, top, bottom)
    }

    /// Whether the number is zero.
    pub fn is_zero(&self) -> (b: bool)
        requires
            self.wf(),
        ensures
            b == (self@ == 0real),
    {
        proof {
            lemma_ratio_zero(self.numer(), self.denom());
        }
        self.num == 0
    }

    /// The product, where it is representable.
    pub fn checked_mul(&self, other: &Rational) -> (r: Option<Rational>)
        requires
            self.wf(),
            other.wf(),
        ensures
            match r {
                Some(q) => q.wf() && q@ == self@ * other@,
                None => !representable(self@ * other@),
            },
    {
        let negative: bool = (self.num < 0) != (other.num < 0);
        let a: u128 = magnitude(self.num as i128);
        let b: u128 = magnitude(other.num as i128);
        let c: u128 = self.den as u128;
        let d: u128 = other.den as u128;
        proof {
            lemma_product_bound(a as int, b as int);
            lemma_product_bound(c as int, d as int);
        }
        let top: u128 = a * b;
        let bottom: u128 = c * d;
        proof {
            let s: int = signed(negative, top as int);
            assert(s == self.num * other.num && bottom > 0) by (nonlinear_arith)
                requires
                    s == signed(negative, top as int),
                    negative == ((self.num < 0) != (other.num < 0)),
                    top == a * b,
                    a == abs(self.num as int),
                    b == abs(other.num as int),
                    bottom == c * d,
                    c > 0,
                    d > 0,
            ;
            lemma_ratio_mul(self.numer(), self.denom(), other.numer(), other.denom());
        }
        reduce(negative, top, bottom)
    }

    /// The difference, where it is representable.
    pub fn checked_sub(&self, other: &Rational) -> (r: Option<Rational>)
        requires
            self.wf(),
            other.wf(),
        ensures
            match r {
                Some(q) => q.wf() && q@ == self@ - other@,
                None => !representable(self@ - other@),
            },
    {
        let a: i128 = self.num as i128;
        let b: i128 = self.den as i128;
        let c: i128 = other.num as i128;
        let d: i128 = other.den as i128;
        proof {
            lemma_product_bound(abs(a as int) as int, d as int);
            lemma_product_bound(abs(c as int) as int, b as int);
            lemma_product_bound(b as int, d as int);
            assert(abs(a * d) == abs(a as int) * d && abs(c * b) == abs(c as int) * b && b * d > 0)
                by (nonlinear_arith)
                requires
                    b > 0,
                    d > 0,
            ;
        }
        let n: i128 = a * d - c * b;
        let bottom: u128 = (b * d) as u128;
        let negative: bool = n < 0;
        let top: u128 = magnitude(n);
        proof {
            lemma_ratio_sub(self.numer(), self.denom(), other.numer(), other.denom());
        }
        reduce(negative, top, bottom)
    }

    /// The reciprocal, for every number but zero.
    pub fn checked_recip(&self) -> (r: Option<Rational>)
        requires
            self.wf(),
        ensures
            match r {
                Some(q) => q.wf() && self@ != 0real && q@ == 1real / self@ && q@ * self@ == 1real,
                None => self@ == 0real,
            },
    {
        proof {
            lemma_ratio_zero(self.numer(), self.denom());
        }
        if self.num == 0 {
            return None;
        }
        let q: Rational = if self.num < 0 {
            Rational { num: -self.den, den: -self.num }
        } else {
            Rational { num: self.den, den: self.num }
        };
        proof {
            let n: nat = abs(self.numer()) as nat;
            let d: nat = self.denom() as nat;
            let (x, y) = lemma_bezout(n, d);
            assert(d * y + n * x == 1);
            lemma_combination_one(d, n, y, x);
            lemma_ratio_inverse(self.numer(), self.denom());
        }
        Some(q)
    }
}

/// Equal numbers are equal fractions: lowest terms are unique.
pub proof fn lemma_equal_values_equal_fractions(a: Rational, b: Rational)
    requires
        a.wf(),
        b.wf(),
        a@ == b@,
    ensures
        a.numer() == b.numer(),
        a.denom() == b.denom(),
{
    lemma_ratio_cross(a.numer(), a.denom(), b.numer(), b.denom());
    let k: int = lemma_lowest_terms_divide(
        a.numer(),
        a.denom() as nat,
        b.numer(),
        b.denom() as nat,
    );
    let j: int = lemma_lowest_terms_divide(
        b.numer(),
        b.denom() as nat,
        a.numer(),
        a.denom() as nat,
    );
    assert(k == 1) by (nonlinear_arith)
        requires
            k >= 1,
            j >= 1,
            b.denom() == a.denom() * k,
            a.denom() == b.denom() * j,
            a.denom() > 0,
    ;
    assert(b.numer() == a.numer()) by (nonlinear_arith)
        requires
            b.numer() == a.numer() * k,
            k == 1,
    ;
}

/// Every well-formed fraction stands for a representable number.
pub proof fn lemma_value_representable(a: Rational)
    requires
        a.wf(),
    ensures
        representable(a@),
{
    assert(in_range(a.numer(), a.denom()) && a@ == ratio(a.numer(), a.denom()));
}

/// The product of two magnitudes in range fits in 126 bits.
proof fn lemma_product_bound(a: int, b: int)
    requires
        0 <= a <= limit(),
        0 <= b <= limit(),
    ensures
        0 <= a * b <= limit() * limit(),
        limit() * limit() == 0x3fff_ffff_ffff_ffff_0000_0000_0000_0001,
{
    assert(0 <= a * b <= limit() * limit()) by (nonlinear_arith)
        requires
            0 <= a <= limit(),
            0 <= b <= limit(),
    ;
}

/// The absolute value.
fn magnitude(x: i128) -> (m: u128)
    requires
        x > i128::MIN,
    ensures
        m == abs(x as int),
{
    if x < 0 {
        (-x) as u128
    } else {
        x as u128
    }
}

/// The greatest common divisor, by Euclid's algorithm.
fn gcd_of(a: u128, b: u128) -> (g: u128)
    ensures
        g == gcd(a as nat, b as nat),
{
    let mut x: u128 = a;
    let mut y: u128 = b;
    while y != 0
        invariant
            gcd(x as nat, y as nat) == gcd(a as nat, b as nat),
        decreases y,
    {
        let t: u128 = x % y;
        x = y;
        y = t;
    }
    x
}

/// The fraction `±magnitude / den` in lowest terms, where that is in range.
fn reduce(negative: bool, magnitude: u128, den: u128) -> (r: Option<Rational>)
    requires
        den > 0,
    ensures
        match r {
            Some(q) => q.wf() && q@ == ratio(signed(negative, magnitude as int), den as int),
            None => !representable(ratio(signed(negative, magnitude as int), den as int)),
        },
{
    let g: u128 = gcd_of(magnitude, den);
    let ghost s: int = signed(negative, magnitude as int);
    proof {
        lemma_gcd_positive(magnitude as nat, den as nat);
    }
    let p: u128 = magnitude / g;
    let q: u128 = den / g;
    let ghost sp: int = signed(negative, p as int);
    proof {
        let (p0, q0) = lemma_gcd_factors(magnitude as nat, den as nat);
        lemma_div_multiples_vanish(p0 as int, g as int);
        lemma_div_multiples_vanish(q0 as int, g as int);
        assert(p == p0 && q == q0);
        let (x, y) = lemma_bezout(magnitude as nat, den as nat);
        assert(p * x + q * y == 1 && q > 0) by (nonlinear_arith)
            requires
                magnitude == g * p,
                den == g * q,
                magnitude * x + den * y == g,
                g > 0,
                den > 0,
        ;
        lemma_combination_one(p as nat, q as nat, x, y);
        assert(sp * den == s * q) by (nonlinear_arith)
            requires
                magnitude == g * p,
                den == g * q,
                sp == signed(negative, p as int),
                s == signed(negative, magnitude as int),
        ;
        lemma_ratio_cross(sp, q as int, s, den as int);
    }
    if p <= 0x7fff_ffff_ffff_ffff && q <= 0x7fff_ffff_ffff_ffff {
        let num: i64 = if negative {
            -(p as i64)
        } else {
            p as i64
        };
        Some(Rational { num, den: q as i64 })
    } else {
        proof {
            assert forall|n: int, d: int| in_range(n, d) implies ratio(s, den as int)
                != #[trigger] ratio(n, d) by {
                if ratio(s, den as int) == ratio(n, d) {
                    lemma_ratio_cross(n, d, sp, q as int);
                    let k: int = lemma_lowest_terms_divide(sp, q as nat, n, d as nat);
                    assert(q <= d && p <= abs(n)) by (nonlinear_arith)
                        requires
                            k >= 1,
                            d == q * k,
                            n == sp * k,
                            sp == signed(negative, p as int),
                            q > 0,
                    ;
                }
            }
        }
        None
    }
}

} // verus!
