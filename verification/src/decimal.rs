//! The text of the grid: the order typed into the size buffer and the decimal
//! literals typed into the cells.

use vstd::prelude::*;
use crate::rational::{Rational, limit, signed, in_range};
use crate::number_theory::ratio;

verus! {

/// Why a text is not the decimal literal of a [`Rational`].
#[derive(Clone, Copy, Debug, PartialEq, Eq)]
pub enum DecimalError {
    /// The text is not an optional `-` followed by digits with at most one point
    /// among them, or it holds no digit.
    Malformed,
    /// The digits exceed the largest numerator, or more than 18 of them follow the point.
    OutOfRange,
}

pub open spec fn is_digit(c: char) -> bool {
    '0' <= c <= '9'
}

/// The number that the digit `c` stands for.
pub open spec fn digit_value(c: char) -> int {
    c as int - 48
}

pub open spec fn all_digits(s: Seq<char>) -> bool {
    forall|i: int| 0 <= i < s.len() ==> is_digit(#[trigger] s[i])
}

/// The digits of `s` read as one number in base ten; a point among them is passed over.
pub open spec fn digits_value(s: Seq<char>) -> int
    decreases s.len(),
{
    if s.len() == 0 {
        0
    } else if s.last() == '.' {
        digits_value(s.drop_last())
    } else {
        digits_value(s.drop_last()) * 10 + digit_value(s.last())
    }
}

/// The largest order of a system.
pub open spec fn max_order() -> int {
    127
}

/// The order that the text declares: a bare integer from 1 to [`max_order`].
pub open spec fn order_of(s: Seq<char>) -> Option<int> {
    if s.len() > 0 && all_digits(s) && 1 <= digits_value(s) <= max_order() {
        Some(digits_value(s))
    } else {
        None
    }
}

pub open spec fn is_negative(s: Seq<char>) -> bool {
    s.len() > 0 && s[0] == '-'
}

/// The text without its sign.
pub open spec fn body(s: Seq<char>) -> Seq<char> {
    if is_negative(s) {
        s.skip(1)
    } else {
        s
    }
}

/// Digits with at most one point among them, and at least one digit.
pub open spec fn is_decimal_body(b: Seq<char>) -> bool {
    &&& forall|i: int| 0 <= i < b.len() ==> is_digit(#[trigger] b[i]) || b[i] == '.'
    &&& forall|i: int, j: int| 0 <= i < j < b.len() ==> !(#[trigger] b[i] == '.' && #[trigger] b[j] == '.')
    &&& exists|i: int| 0 <= i < b.len() && is_digit(#[trigger] b[i])
}

pub open spec fn has_point(b: Seq<char>) -> bool {
    exists|p: int| 0 <= p < b.len() && #[trigger] b[p] == '.'
}

/// The number of characters after the point; 0 where there is no point.
pub open spec fn fraction_digits(b: Seq<char>) -> int {
    if has_point(b) {
        b.len() - 1 - choose|p: int| 0 <= p < b.len() && #[trigger] b[p] == '.'
    } else {
        0
    }
}

pub open spec fn pow10(k: nat) -> nat
    decreases k,
{
    if k == 0 {
        1
    } else {
        10 * pow10((k - 1) as nat)
    }
}

/// The number that a decimal literal stands for.
pub open spec fn decimal_of(s: Seq<char>) -> Result<real, DecimalError> {
    let b = body(s);
    if !is_decimal_body(b) {
        Err(DecimalError::Malformed)
    } else if digits_value(b) > limit() || fraction_digits(b) > 18 {
        Err(DecimalError::OutOfRange)
    } else {
        Ok(
            ratio(
                signed(is_negative(s), digits_value(b)),
                pow10(fraction_digits(b) as nat) as int,
            ),
        )
    }
}

proof fn lemma_digits_step(b: Seq<char>, k: int)
    requires
        0 <= k < b.len(),
    ensures
        digits_value(b.take(k + 1)) == (if b[k] == '.' {
            digits_value(b.take(k))
        } else {
            digits_value(b.take(k)) * 10 + digit_value(b[k])
        }),
{
    assert(b.take(k + 1).drop_last() =~= b.take(k));
}

proof fn lemma_pow10_increases(a: nat, b: nat)
    requires
        a <= b,
    ensures
        1 <= pow10(a) <= pow10(b),
    decreases b,
{
    if b > 0 {
        if a < b {
            lemma_pow10_increases(a, (b - 1) as nat);
        } else {
            lemma_pow10_increases((a - 1) as nat, (b - 1) as nat);
        }
    }
}

fn power_of_ten(k: usize) -> (r: i64)
    requires
        k <= 18,
    ensures
        r == pow10(k as nat),
        1 <= r <= 1_000_000_000_000_000_000,
{
    assert(pow10(18) == 1_000_000_000_000_000_000) by {
        reveal_with_fuel(pow10, 19);
    }
    let mut r: i64 = 1;
    let mut j: usize = 0;
    while j < k
        invariant
            j <= k <= 18,
            r == pow10(j as nat),
            pow10(18) == 1_000_000_000_000_000_000,
        decreases k - j,
    {
        proof {
            lemma_pow10_increases((j + 1) as nat, 18);
        }
        r = r * 10;
        j = j + 1;
    }
    proof {
        lemma_pow10_increases(k as nat, 18);
    }
    r
}

/// Reads the order of a system: a bare integer from 1 to 127.
pub fn parse_order(text: &str) -> (r: Option<i8>)
    ensures
        match r {
            Some(n) => order_of(text@) == Some(n as int),
            None => order_of(text@) is None,
        },
{
    let mut acc: u32 = 0;
    for c in iter: text.chars()
        invariant
            iter.seq() == text@,
            all_digits(text@.take(iter.index() as int)),
            0 <= digits_value(text@.take(iter.index() as int)),
            acc == vstd::math::min(digits_value(text@.take(iter.index() as int)), 128),
    {
        proof {
            lemma_digits_step(text@, iter.index() as int);
        }
        if c >= '0' && c <= '9' {
            let d: u32 = c as u32 - 48;
            acc = acc * 10 + d;
            if acc > 128 {
                acc = 128;
            }
        } else {
            assert(!is_digit(text@[iter.index() as int]));
            return None;
        }
    }
    assert(text@.take(text@.len() as int) =~= text@);
    if 1 <= acc && acc <= 127 {
        Some(acc as i8)
    } else {
        None
    }
}

/// The number of characters of the body among the first `k` characters of the text.
spec fn body_read(s: Seq<char>, k: int) -> int {
    if is_negative(s) && k > 0 {
        k - 1
    } else {
        k
    }
}

/// Reads a decimal literal: an optional `-`, then digits with at most one point among
/// them.
pub fn parse_decimal(text: &str) -> (r: Result<Rational, DecimalError>)
    ensures
        match r {
            Ok(q) => q.wf() && decimal_of(text@) == Ok::<real, DecimalError>(q@),
            Err(e) => decimal_of(text@) == Err::<real, DecimalError>(e),
        },
{
    let ghost s: Seq<char> = text@;
    let ghost b: Seq<char> = body(s);
    let mut first: bool = true;
    let mut negative: bool = false;
    let mut acc: u128 = 0;
    let mut seen_point: bool = false;
    let mut seen_digit: bool = false;
    let mut fraction: usize = 0;
    let ghost mut point_at: int = 0;
    let ghost mut digit_at: int = 0;
    for c in iter: text.chars()
        invariant
            iter.seq() == s,
            s == text@,
            b == body(s),
            first == (iter.index() == 0),
            negative == (is_negative(s) && iter.index() > 0),
            0 <= body_read(s, iter.index() as int) <= b.len(),
            forall|j: int|
                0 <= j < body_read(s, iter.index() as int) ==> is_digit(#[trigger] b[j]) || b[j]
                    == '.',
            seen_point ==> 0 <= point_at < body_read(s, iter.index() as int) && b[point_at]
                == '.',
            forall|j: int|
                0 <= j < body_read(s, iter.index() as int) && !(seen_point && j == point_at)
                    ==> #[trigger] b[j] != '.',
            seen_digit ==> 0 <= digit_at < body_read(s, iter.index() as int) && is_digit(
                b[digit_at],
            ),
            !seen_digit ==> forall|j: int|
                0 <= j < body_read(s, iter.index() as int) ==> !is_digit(#[trigger] b[j]),
            0 <= digits_value(b.take(body_read(s, iter.index() as int))),
            acc == vstd::math::min(
                digits_value(b.take(body_read(s, iter.index() as int))),
                limit() + 1,
            ),
            fraction == (if seen_point {
                vstd::math::min(body_read(s, iter.index() as int) - 1 - point_at, 19)
            } else {
                0
            }),
    {
        let ghost k: int = body_read(s, iter.index() as int);
        if first && c == '-' {
            negative = true;
        } else {
            assert(c == b[k]);
            proof {
                lemma_digits_step(b, k);
            }
            if c == '.' {
                if seen_point {
                    assert(b[point_at] == '.' && b[k] == '.' && point_at < k);
                    return Err(DecimalError::Malformed);
                }
                seen_point = true;
                proof {
                    point_at = k;
                }
            } else if c >= '0' && c <= '9' {
                let d: u128 = (c as u32 - 48) as u128;
                acc = acc * 10 + d;
                if acc > 0x8000_0000_0000_0000 {
                    acc = 0x8000_0000_0000_0000;
                }
                if seen_point && fraction < 19 {
                    fraction = fraction + 1;
                }
                seen_digit = true;
                proof {
                    digit_at = k;
                }
            } else {
                assert(!(is_digit(b[k]) || b[k] == '.'));
                return Err(DecimalError::Malformed);
            }
        }
        first = false;
    }
    assert(b.take(b.len() as int) =~= b);
    if !seen_digit {
        return Err(DecimalError::Malformed);
    }
    assert(is_decimal_body(b)) by {
        assert(is_digit(b[digit_at]));
    }
    proof {
        if seen_point {
            assert(b[point_at] == '.');
            let q: int = choose|q: int| 0 <= q < b.len() && #[trigger] b[q] == '.';
            assert(q == point_at);
        }
        assert(fraction == vstd::math::min(fraction_digits(b), 19));
    }
    if acc > 0x7fff_ffff_ffff_ffff || fraction > 18 {
        return Err(DecimalError::OutOfRange);
    }
    let den: i64 = power_of_ten(fraction);
    let num: i64 = if negative {
        -(acc as i64)
    } else {
        acc as i64
    };
    match Rational::new(num, den) {
        Some(q) => Ok(q),
        None => {
            assert(in_range(num as int, den as int));
            Err(DecimalError::OutOfRange)
        },
    }
}

} // verus!
