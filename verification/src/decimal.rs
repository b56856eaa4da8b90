//! Decimal numbers written as text: digit strings, their values, and rounding a decimal number
//! scaled by a power of ten to the nearest integer.

use vstd::prelude::*;
use vstd::arithmetic::div_mod::{lemma_fundamental_div_mod, lemma_fundamental_div_mod_converse, lemma_mod_breakdown};

use crate::fmt::{decimal, decimal_padded, digit_char};

verus! {

/// `10^k`.
pub open spec fn pow10(k: nat) -> nat
    decreases k,
{
    if k == 0 {
        1
    } else {
        10 * pow10((k - 1) as nat)
    }
}

/// Whether `c` is an ASCII decimal digit.
pub open spec fn is_digit(c: char) -> bool {
    48 <= (c as int) <= 57
}

/// The value of a decimal digit character.
pub open spec fn digit_value(c: char) -> nat {
    ((c as int) - 48) as nat
}

/// Whether every character of `s` is a decimal digit.
pub open spec fn all_digits(s: Seq<char>) -> bool {
    forall|i: int| 0 <= i < s.len() ==> is_digit(#[trigger] s[i])
}

/// The value of a string of decimal digits, most significant first (0 for the empty string).
pub open spec fn digits_value(s: Seq<char>) -> nat
    decreases s.len(),
{
    if s.len() == 0 {
        0
    } else {
        10 * digits_value(s.drop_last()) + digit_value(s.last())
    }
}

/// The end of the run of digits in `s` that starts at `i` (`i` itself when `s[i]` is no digit).
pub open spec fn digit_run_end(s: Seq<char>, i: int) -> int
    decreases s.len() - i,
{
    if 0 <= i < s.len() && is_digit(s[i]) {
        digit_run_end(s, i + 1)
    } else {
        i
    }
}

/// `m * 10^k` rounded to the nearest integer, halves away from zero.
pub open spec fn round_scaled(m: nat, k: int) -> nat {
    if k >= 0 {
        m * pow10(k as nat)
    } else {
        ((2 * m + pow10((-k) as nat)) / (2 * pow10((-k) as nat))) as nat
    }
}

/// `x`, or `u64::MAX` where `x` exceeds it.
pub open spec fn saturate(x: nat) -> u64 {
    if x > u64::MAX {
        u64::MAX
    } else {
        x as u64
    }
}

/// Whether `c` is a decimal digit.
pub fn char_is_digit(c: char) -> (r: bool)
    ensures
        r == is_digit(c),
{
    let u = c as u32;
    48 <= u && u <= 57
}

/// The value of the digit character `c`.
pub fn char_digit_value(c: char) -> (r: u8)
    requires
        is_digit(c),
    ensures
        r == digit_value(c),
        r < 10,
{
    let u = c as u32;
    (u - 48) as u8
}

pub proof fn lemma_pow10_positive(k: nat)
    ensures
        pow10(k) >= 1,
    decreases k,
{
    if k > 0 {
        lemma_pow10_positive((k - 1) as nat);
    }
}

pub proof fn lemma_pow10_monotonic(a: nat, b: nat)
    requires
        a <= b,
    ensures
        pow10(a) <= pow10(b),
    decreases b,
{
    if a < b {
        lemma_pow10_monotonic(a, (b - 1) as nat);
        lemma_pow10_positive((b - 1) as nat);
    }
}

/// A string of digits is worth less than `10` to the power of its length.
pub proof fn lemma_digits_value_bound(s: Seq<char>)
    requires
        all_digits(s),
    ensures
        digits_value(s) < pow10(s.len()),
    decreases s.len(),
{
    if s.len() > 0 {
        let dl = s.drop_last();
        assert(all_digits(dl));
        lemma_digits_value_bound(dl);
        assert(is_digit(s[s.len() - 1]));
        assert(pow10(s.len()) == 10 * pow10(dl.len()));
    }
}

/// Appending a digit multiplies the value by ten and adds the digit.
pub proof fn lemma_digits_value_take(s: Seq<char>, i: int)
    requires
        0 <= i < s.len(),
    ensures
        digits_value(s.take(i + 1)) == 10 * digits_value(s.take(i)) + digit_value(s[i]),
{
    assert(s.take(i + 1).drop_last() =~= s.take(i));
}

/// The value of a longer prefix is at least that of a shorter one.
pub proof fn lemma_digits_value_prefix_monotonic(s: Seq<char>, i: int, j: int)
    requires
        0 <= i <= j <= s.len(),
    ensures
        digits_value(s.take(i)) <= digits_value(s.take(j)),
    decreases j - i,
{
    if i < j {
        lemma_digits_value_prefix_monotonic(s, i, j - 1);
        lemma_digits_value_take(s, j - 1);
    }
}

/// The value of a string is that of a prefix, shifted, plus that of the rest.
pub proof fn lemma_digits_value_split(s: Seq<char>, p: int)
    requires
        0 <= p <= s.len(),
    ensures
        digits_value(s) == digits_value(s.take(p)) * pow10((s.len() - p) as nat) + digits_value(
            s.skip(p),
        ),
    decreases s.len(),
{
    if p == s.len() {
        assert(s.take(p) =~= s);
        assert(s.skip(p) =~= Seq::<char>::empty());
        assert(digits_value(s.skip(p)) == 0);
        assert(pow10(0) == 1);
        assert(digits_value(s) * 1 == digits_value(s));
    } else {
        let dl = s.drop_last();
        lemma_digits_value_split(dl, p);
        assert(dl.take(p) =~= s.take(p));
        assert(s.skip(p).drop_last() =~= dl.skip(p));
        assert(s.skip(p).last() == s.last());
        assert(digits_value(s) == 10 * digits_value(dl) + digit_value(s.last()));
        assert(digits_value(s.skip(p)) == 10 * digits_value(dl.skip(p)) + digit_value(s.last()));
        let a = digits_value(s.take(p));
        let x = pow10((dl.len() - p) as nat);
        let b = digits_value(dl.skip(p));
        assert(pow10((s.len() - p) as nat) == 10 * x);
        assert(10 * (a * x + b) == a * (10 * x) + 10 * b) by (nonlinear_arith);
        assert(digits_value(dl) == a * x + b);
        assert(digits_value(s) == a * (10 * x) + (10 * b + digit_value(s.last())));
    }
}

/// Rounding `a + r / d` to the nearest integer, for `0 <= r < d`.
pub proof fn lemma_round_half_up(a: int, r: int, d: int)
    requires
        a >= 0,
        0 <= r < d,
    ensures
        (2 * (a * d + r) + d) / (2 * d) == a + (if 2 * r >= d {
            1int
        } else {
            0int
        }),
{
    let b: int = if 2 * r >= d {
        1
    } else {
        0
    };
    let rem: int = if 2 * r >= d {
        2 * r - d
    } else {
        2 * r + d
    };
    assert(2 * (a * d + r) + d == (a + b) * (2 * d) + rem) by (nonlinear_arith)
        requires
            b == (if 2 * r >= d {
                1int
            } else {
                0int
            }),
            rem == (if 2 * r >= d {
                2 * r - d
            } else {
                2 * r + d
            }),
    ;
    lemma_fundamental_div_mod_converse(2 * (a * d + r) + d, 2 * d, a + b, rem);
}

/// Rounding the value of a digit string, scaled by `10^(p - n)`, for each place `p` of the
/// decimal point relative to its `n` digits: all digits and zeros after them where the point lies
/// past the end, the digits before the point and one more where the first digit dropped is 5 or
/// more, and zero where the point lies before the first digit.
pub proof fn lemma_round_scaled_digits(s: Seq<char>, p: int)
    requires
        all_digits(s),
    ensures
        p >= s.len() ==> round_scaled(digits_value(s), p - s.len()) == digits_value(s) * pow10(
            (p - s.len()) as nat,
        ),
        0 <= p < s.len() ==> round_scaled(digits_value(s), p - s.len()) == digits_value(s.take(p))
            + (if digit_value(s[p]) >= 5 {
            1nat
        } else {
            0nat
        }),
        p < 0 ==> round_scaled(digits_value(s), p - s.len()) == 0,
{
    let n = s.len();
    let m = digits_value(s);
    if 0 <= p < n {
        let k = (n - p) as nat;
        let d = pow10(k);
        lemma_digits_value_split(s, p);
        let a = digits_value(s.take(p));
        let rest = s.skip(p);
        let r = digits_value(rest);
        assert(all_digits(rest));
        lemma_digits_value_bound(rest);
        lemma_digits_value_split(rest, 1);
        assert(rest.take(1).drop_last() =~= Seq::<char>::empty());
        assert(digits_value(Seq::<char>::empty()) == 0);
        assert(rest.take(1).last() == s[p]);
        assert(digits_value(rest.take(1)) == digit_value(s[p]));
        let c = digit_value(s[p]);
        let d1 = pow10((k - 1) as nat);
        let r1 = digits_value(rest.skip(1));
        assert(all_digits(rest.skip(1)));
        lemma_digits_value_bound(rest.skip(1));
        assert(d == 10 * d1);
        assert(r == c * d1 + r1);
        assert(is_digit(s[p]));
        assert(c <= 9);
        assert((2 * r >= d) == (c >= 5)) by (nonlinear_arith)
            requires
                r == c * d1 + r1,
                0 <= r1 < d1,
                d == 10 * d1,
                c <= 9,
        ;
        lemma_round_half_up(a as int, r as int, d as int);
        assert(round_scaled(m, p - n) == (2 * m + d) / (2 * d));
    } else if p < 0 {
        let k = (n - p) as nat;
        let d = pow10(k);
        lemma_digits_value_bound(s);
        lemma_pow10_monotonic((n + 1) as nat, k);
        assert(pow10((n + 1) as nat) == 10 * pow10(n));
        lemma_round_half_up(0, m as int, d as int);
        assert(0 * d + m == m) by (nonlinear_arith);
    }
}

/// The value of the first `p` digits, or `u64::MAX` where it exceeds that.
pub fn prefix_value(digits: &Vec<char>, p: usize) -> (r: u64)
    requires
        all_digits(digits@),
        p <= digits.len(),
    ensures
        r == saturate(digits_value(digits@.take(p as int))),
{
    let mut acc: u64 = 0;
    let mut i: usize = 0;
    assert(digits@.take(0) =~= Seq::<char>::empty());
    while i < p
        invariant
            all_digits(digits@),
            p <= digits.len(),
            i <= p,
            acc == saturate(digits_value(digits@.take(i as int))),
        decreases p - i,
    {
        proof {
            lemma_digits_value_take(digits@, i as int);
        }
        let d = char_digit_value(digits[i]);
        if acc < u64::MAX {
            let next: u128 = (acc as u128) * 10 + (d as u128);
            if next > u64::MAX as u128 {
                acc = u64::MAX;
            } else {
                acc = next as u64;
            }
        }
        i = i + 1;
    }
    acc
}

/// The digits, as a decimal number whose point lies `point` digits after the start of the digits
/// (before them where `point` is negative, past them where it exceeds their number), rounded to
/// the nearest integer with halves away from zero, and `u64::MAX` where that exceeds it.
pub fn round_digits(digits: &Vec<char>, point: i128) -> (r: u64)
    requires
        all_digits(digits@),
        -0x10000000000000000000000000000 <= point <= 0x10000000000000000000000000000,
    ensures
        r == saturate(round_scaled(digits_value(digits@), point - digits.len())),
{
    let n = digits.len();
    proof {
        lemma_round_scaled_digits(digits@, point as int);
    }
    if point < 0 {
        return 0;
    }
    if point < n as i128 {
        let p = point as usize;
        let acc = prefix_value(digits, p);
        let d = char_digit_value(digits[p]);
        if d >= 5 && acc < u64::MAX {
            acc + 1
        } else {
            acc
        }
    } else {
        assert(digits@.take(n as int) =~= digits@);
        let acc = prefix_value(digits, n);
        let ghost m = digits_value(digits@);
        let extra: i128 = point - n as i128;
        if acc == 0 {
            assert(m * pow10(extra as nat) == 0) by (nonlinear_arith)
                requires
                    m == 0,
            ;
            return 0;
        }
        let mut v: u64 = acc;
        let mut c: i128 = 0;
        assert(pow10(0) == 1);
        assert(m * pow10(0) == m) by (nonlinear_arith)
            requires
                pow10(0) == 1,
        ;
        while c < extra && v < u64::MAX
            invariant
                0 <= c <= extra,
                extra == point - n,
                m >= 1,
                v == saturate(m * pow10(c as nat)),
            decreases extra - c,
        {
            assert(pow10((c + 1) as nat) == 10 * pow10(c as nat));
            assert(m * pow10((c + 1) as nat) == 10 * (m * pow10(c as nat))) by (nonlinear_arith)
                requires
                    pow10((c + 1) as nat) == 10 * pow10(c as nat),
            ;
            let next: u128 = (v as u128) * 10;
            if next > u64::MAX as u128 {
                v = u64::MAX;
            } else {
                v = next as u64;
            }
            c = c + 1;
        }
        proof {
            if c < extra {
                lemma_pow10_monotonic(c as nat, extra as nat);
                assert(m * pow10(c as nat) <= m * pow10(extra as nat)) by (nonlinear_arith)
                    requires
                        pow10(c as nat) <= pow10(extra as nat),
                        m >= 1,
                ;
            }
        }
        v
    }
}

/// The character of a digit is a digit of that value.
pub proof fn lemma_digit_char(d: nat)
    requires
        d < 10,
    ensures
        is_digit(digit_char(d)),
        digit_value(digit_char(d)) == d,
{
}

/// The decimal text of `n` is a non-empty string of digits worth `n`.
pub proof fn lemma_decimal(n: nat)
    ensures
        all_digits(decimal(n)),
        decimal(n).len() >= 1,
        digits_value(decimal(n)) == n,
    decreases n,
{
    lemma_digit_char(n % 10);
    if n < 10 {
        assert(decimal(n).drop_last() =~= Seq::<char>::empty());
        assert(digits_value(Seq::<char>::empty()) == 0);
        assert(n % 10 == n);
        assert(decimal(n).last() == digit_char(n % 10));
    } else {
        lemma_decimal(n / 10);
        assert(decimal(n).drop_last() =~= decimal(n / 10));
        assert(decimal(n).last() == digit_char(n % 10));
        lemma_fundamental_div_mod(n as int, 10);
        assert forall|i: int| 0 <= i < decimal(n).len() implies is_digit(#[trigger] decimal(n)[i]) by {
            if i < decimal(n).len() - 1 {
                assert(decimal(n)[i] == decimal(n / 10)[i]);
            }
        }
    }
}

/// The last `w` digits of `n`, with leading zeros, are `w` digits worth `n % 10^w`.
pub proof fn lemma_decimal_padded(n: nat, w: nat)
    ensures
        all_digits(decimal_padded(n, w)),
        decimal_padded(n, w).len() == w,
        digits_value(decimal_padded(n, w)) == n % pow10(w),
    decreases w,
{
    if w == 0 {
    } else {
        let w1 = (w - 1) as nat;
        lemma_decimal_padded(n / 10, w1);
        lemma_digit_char(n % 10);
        assert(decimal_padded(n, w).drop_last() =~= decimal_padded(n / 10, w1));
        lemma_pow10_positive(w1);
        lemma_mod_breakdown(n as int, 10, pow10(w1) as int);
        assert(pow10(w) == 10 * pow10(w1));
        assert forall|i: int| 0 <= i < decimal_padded(n, w).len() implies is_digit(
            #[trigger] decimal_padded(n, w)[i],
        ) by {
            if i < w1 {
                assert(decimal_padded(n, w)[i] == decimal_padded(n / 10, w1)[i]);
            }
        }
    }
}

/// The value of two strings of digits one after the other.
pub proof fn lemma_digits_value_concat(a: Seq<char>, b: Seq<char>)
    ensures
        digits_value(a + b) == digits_value(a) * pow10(b.len()) + digits_value(b),
{
    lemma_digits_value_split(a + b, a.len() as int);
    assert((a + b).take(a.len() as int) =~= a);
    assert((a + b).skip(a.len() as int) =~= b);
}

} // verus!
