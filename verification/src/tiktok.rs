//! The Tik-Tok "directional timing" text format: one line per packet, each
//! `<timestamp in seconds> <directional size>`, the size negative for incoming packets.

use vstd::prelude::*;

use crate::dataset::{
    group_instances, instances_dataset, instances_of, Dataset, ParseError, ParseErrorView,
};
use crate::fmt::{
    decimal, decimal_padded, push_decimal, push_decimal_padded, push_signed_decimal, signed_decimal,
    string_of,
};
use crate::trace::{Direction, Trace, TraceBuilder, TraceView};
use crate::decimal::{
    lemma_decimal, lemma_decimal_padded, lemma_digits_value_concat, lemma_pow10_positive,
    all_digits, char_digit_value, char_is_digit, digit_run_end, digit_value, digits_value,
    is_digit, lemma_digits_value_prefix_monotonic, lemma_digits_value_take,
    lemma_round_scaled_digits, pow10, round_digits, round_scaled, saturate,
};

verus! {

/// Whether `c` has Unicode's `White_Space` property, as `str::trim` tests it.
pub open spec fn is_whitespace(c: char) -> bool {
    let u = c as int;
    ||| 0x09 <= u <= 0x0D
    ||| u == 0x20
    ||| u == 0x85
    ||| u == 0xA0
    ||| u == 0x1680
    ||| 0x2000 <= u <= 0x200A
    ||| u == 0x2028
    ||| u == 0x2029
    ||| u == 0x202F
    ||| u == 0x205F
    ||| u == 0x3000
}

/// Whether `c` is ASCII whitespace: space, tab, line feed, form feed or carriage return.
pub open spec fn is_ascii_whitespace(c: char) -> bool {
    c == ' ' || c == '\t' || c == '\n' || c == '\x0C' || c == '\r'
}

/// The first index at or after `i` whose character is no whitespace (the length if none is).
pub open spec fn trim_front(s: Seq<char>, i: int) -> int
    decreases s.len() - i,
{
    if 0 <= i < s.len() && is_whitespace(s[i]) {
        trim_front(s, i + 1)
    } else {
        i
    }
}

/// The end of `s.take(j)` once the whitespace at its end is dropped.
pub open spec fn trim_back(s: Seq<char>, j: int) -> int
    decreases j,
{
    if 0 < j <= s.len() && is_whitespace(s[j - 1]) {
        trim_back(s, j - 1)
    } else {
        j
    }
}

/// `s` without the whitespace at its start and at its end.
pub open spec fn trim(s: Seq<char>) -> Seq<char> {
    let a = trim_front(s, 0);
    let b = trim_back(s, s.len() as int);
    if a < b {
        s.subrange(a, b)
    } else {
        Seq::empty()
    }
}

/// The first index at or after `i` that holds ASCII whitespace (the length if none does).
pub open spec fn find_ascii_whitespace(s: Seq<char>, i: int) -> int
    decreases s.len() - i,
{
    if 0 <= i < s.len() && !is_ascii_whitespace(s[i]) {
        find_ascii_whitespace(s, i + 1)
    } else {
        i
    }
}

/// The first index at or after `i` that holds no ASCII whitespace (the length if every one does).
pub open spec fn skip_ascii_whitespace(s: Seq<char>, i: int) -> int
    decreases s.len() - i,
{
    if 0 <= i < s.len() && is_ascii_whitespace(s[i]) {
        skip_ascii_whitespace(s, i + 1)
    } else {
        i
    }
}

/// Whether `s` spells the ASCII word whose letters are `lower` in lower case and `upper` in upper
/// case, each letter in either case.
pub open spec fn spells(s: Seq<char>, lower: Seq<char>, upper: Seq<char>) -> bool {
    &&& s.len() == lower.len()
    &&& forall|i: int| 0 <= i < s.len() ==> (#[trigger] s[i] == lower[i] || s[i] == upper[i])
}

/// The exponent part of a decimal number: nothing (0), or `e` or `E`, an optional sign and at
/// least one digit.
pub open spec fn exponent_value(r: Seq<char>) -> Option<int> {
    if r.len() == 0 {
        Some(0)
    } else if r[0] == 'e' || r[0] == 'E' {
        let t = r.drop_first();
        let negative = t.len() > 0 && t[0] == '-';
        let ds = if t.len() > 0 && (t[0] == '-' || t[0] == '+') {
            t.drop_first()
        } else {
            t
        };
        if ds.len() > 0 && all_digits(ds) {
            Some(
                if negative {
                    -(digits_value(ds) as int)
                } else {
                    digits_value(ds) as int
                },
            )
        } else {
            None
        }
    } else {
        None
    }
}

/// An unsigned decimal number (digits, an optional point and digits, at least one digit in all,
/// and an optional exponent) as its digits and the power of ten of its last digit.
pub open spec fn decimal_parts(b: Seq<char>) -> Option<(Seq<char>, int)> {
    let ie = digit_run_end(b, 0);
    let has_point = ie < b.len() && b[ie] == '.';
    let fs = if has_point {
        ie + 1
    } else {
        ie
    };
    let fe = digit_run_end(b, fs);
    if ie + (fe - fs) == 0 {
        None
    } else {
        match exponent_value(b.subrange(fe, b.len() as int)) {
            None => None,
            Some(x) => Some((b.subrange(0, ie) + b.subrange(fs, fe), x - (fe - fs))),
        }
    }
}

/// A timestamp in seconds, in the syntax of Rust's floating-point numbers (an optional sign, then
/// a decimal number, `inf`, `infinity` or `nan` in any case), as whole microseconds: rounded to
/// the nearest, halves away from zero; 0 for a negative number and for `nan`; `u64::MAX` where the
/// value exceeds it.
pub open spec fn parse_timestamp(s: Seq<char>) -> Option<u64> {
    let signed = s.len() > 0 && (s[0] == '-' || s[0] == '+');
    let negative = s.len() > 0 && s[0] == '-';
    let b = if signed {
        s.drop_first()
    } else {
        s
    };
    if spells(b, seq!['i', 'n', 'f'], seq!['I', 'N', 'F']) || spells(
        b,
        seq!['i', 'n', 'f', 'i', 'n', 'i', 't', 'y'],
        seq!['I', 'N', 'F', 'I', 'N', 'I', 'T', 'Y'],
    ) {
        Some(
            if negative {
                0
            } else {
                u64::MAX
            },
        )
    } else if spells(b, seq!['n', 'a', 'n'], seq!['N', 'A', 'N']) {
        Some(0)
    } else {
        match decimal_parts(b) {
            None => None,
            Some((ds, e)) => Some(
                if negative {
                    0
                } else {
                    saturate(round_scaled(digits_value(ds), e + 6))
                },
            ),
        }
    }
}

/// The digits of a directional size: what follows a leading minus sign, or all of it.
pub open spec fn size_digits(dir: Seq<char>) -> Seq<char> {
    if dir.len() > 0 && dir[0] == '-' {
        dir.drop_first()
    } else {
        dir
    }
}

/// A directional size: an optional minus sign and decimal digits.
pub open spec fn parse_size(dir: Seq<char>) -> Option<i32> {
    let ds = size_digits(dir);
    if dir.len() == 0 || ds.len() == 0 || !all_digits(ds) {
        None
    } else if dir[0] == '-' {
        Some((-(digits_value(ds) as int)) as i32)
    } else {
        Some(digits_value(ds) as i32)
    }
}

/// Whether the digits at the start of a directional size are worth at most `i32::MAX`: the
/// size is read into an `i32` digit by digit until the first character that is no digit.
pub open spec fn size_fits(dir: Seq<char>) -> bool {
    let ds = size_digits(dir);
    digits_value(ds.take(digit_run_end(ds, 0))) <= i32::MAX
}

/// The timestamp (in microseconds) and directional size of a line, which after trimming
/// whitespace holds the timestamp, ASCII whitespace, and the directional size.
pub open spec fn parse_line_spec(line: Seq<char>) -> Option<(u64, i32)> {
    let t = trim(line);
    let k = find_ascii_whitespace(t, 0);
    if k >= t.len() {
        None
    } else {
        match parse_timestamp(t.subrange(0, k)) {
            None => None,
            Some(ts) => match parse_size(
                t.subrange(skip_ascii_whitespace(t, k), t.len() as int),
            ) {
                None => None,
                Some(d) => Some((ts, d)),
            },
        }
    }
}

/// Whether reading the line's directional size stays within `i32`: a line whose timestamp is
/// read has a size whose leading digits are worth at most `i32::MAX`.
pub open spec fn line_size_fits(line: Seq<char>) -> bool {
    let t = trim(line);
    let k = find_ascii_whitespace(t, 0);
    k >= t.len() || parse_timestamp(t.subrange(0, k)) is None || size_fits(
        t.subrange(skip_ascii_whitespace(t, k), t.len() as int),
    )
}

/// The characters of a string.
pub fn chars_of(s: &str) -> (r: Vec<char>)
    ensures
        r@ == s@,
{
    let mut v: Vec<char> = Vec::new();
    for c in it: s.chars()
        invariant
            v@ == it.seq().take(it.index() as int),
    {
        v.push(c);
    }
    v
}

/// The characters of `v` from `lo` up to `hi`.
pub fn copy_range(v: &Vec<char>, lo: usize, hi: usize) -> (r: Vec<char>)
    requires
        lo <= hi <= v.len(),
    ensures
        r@ == v@.subrange(lo as int, hi as int),
{
    let mut r: Vec<char> = Vec::new();
    let mut i = lo;
    while i < hi
        invariant
            lo <= i <= hi <= v.len(),
            r@ == v@.subrange(lo as int, i as int),
        decreases hi - i,
    {
        r.push(v[i]);
        i = i + 1;
        assert(r@ =~= v@.subrange(lo as int, i as int));
    }
    r
}

fn char_is_whitespace(c: char) -> (r: bool)
    ensures
        r == is_whitespace(c),
{
    let u = c as u32;
    (0x09 <= u && u <= 0x0D) || u == 0x20 || u == 0x85 || u == 0xA0 || u == 0x1680 || (0x2000 <= u
        && u <= 0x200A) || u == 0x2028 || u == 0x2029 || u == 0x202F || u == 0x205F || u == 0x3000
}

fn char_is_ascii_whitespace(c: char) -> (r: bool)
    ensures
        r == is_ascii_whitespace(c),
{
    c == ' ' || c == '\t' || c == '\n' || c == '\x0C' || c == '\r'
}

/// `v` without the whitespace at its start and end.
pub fn trimmed(v: &Vec<char>) -> (r: Vec<char>)
    ensures
        r@ == trim(v@),
{
    let n = v.len();
    let mut a: usize = 0;
    while a < n && char_is_whitespace(v[a])
        invariant
            a <= n == v.len(),
            trim_front(v@, 0) == trim_front(v@, a as int),
        decreases n - a,
    {
        a = a + 1;
    }
    let mut b: usize = n;
    while b > 0 && char_is_whitespace(v[b - 1])
        invariant
            b <= n == v.len(),
            trim_back(v@, n as int) == trim_back(v@, b as int),
        decreases b,
    {
        b = b - 1;
    }
    if a < b {
        copy_range(v, a, b)
    } else {
        Vec::new()
    }
}

/// The end of the run of digits that starts at `start`.
pub fn digit_run(v: &Vec<char>, start: usize) -> (r: usize)
    requires
        start <= v.len(),
    ensures
        r == digit_run_end(v@, start as int),
        start <= r <= v.len(),
        forall|i: int| start <= i < r ==> is_digit(#[trigger] v@[i]),
        r < v.len() ==> !is_digit(v@[r as int]),
{
    let mut i = start;
    while i < v.len() && char_is_digit(v[i])
        invariant
            start <= i <= v.len(),
            digit_run_end(v@, start as int) == digit_run_end(v@, i as int),
            forall|j: int| start <= j < i ==> is_digit(#[trigger] v@[j]),
        decreases v.len() - i,
    {
        i = i + 1;
    }
    i
}

/// Appends the characters of `src` from `lo` up to `hi`.
fn append_range(dst: &mut Vec<char>, src: &Vec<char>, lo: usize, hi: usize)
    requires
        lo <= hi <= src.len(),
    ensures
        final(dst)@ == old(dst)@ + src@.subrange(lo as int, hi as int),
{
    let mut i = lo;
    while i < hi
        invariant
            lo <= i <= hi <= src.len(),
            dst@ == old(dst)@ + src@.subrange(lo as int, i as int),
        decreases hi - i,
    {
        dst.push(src[i]);
        i = i + 1;
        assert(dst@ =~= old(dst)@ + src@.subrange(lo as int, i as int));
    }
}

fn spells_exec(s: &Vec<char>, lower: &Vec<char>, upper: &Vec<char>) -> (r: bool)
    requires
        lower.len() == upper.len(),
    ensures
        r == spells(s@, lower@, upper@),
{
    if s.len() != lower.len() {
        return false;
    }
    let mut i: usize = 0;
    while i < s.len()
        invariant
            s.len() == lower.len() == upper.len(),
            i <= s.len(),
            forall|j: int| 0 <= j < i ==> (#[trigger] s@[j] == lower@[j] || s@[j] == upper@[j]),
        decreases s.len() - i,
    {
        if !(s[i] == lower[i] || s[i] == upper[i]) {
            return false;
        }
        i = i + 1;
    }
    true
}

/// The bound at which exponents are held: beyond it every number is too large for `u64` or rounds
/// to zero.
const EXPONENT_BOUND: i128 = 0x10000000000000000000000000;

/// The value of the exponent digits `v[lo..]`, or `EXPONENT_BOUND` where it exceeds that.
fn exponent_magnitude(v: &Vec<char>, lo: usize) -> (r: i128)
    requires
        lo <= v.len(),
        all_digits(v@.subrange(lo as int, v.len() as int)),
    ensures
        r == (if digits_value(v@.subrange(lo as int, v.len() as int)) > EXPONENT_BOUND {
            EXPONENT_BOUND as int
        } else {
            digits_value(v@.subrange(lo as int, v.len() as int)) as int
        }),
{
    let ghost ds = v@.subrange(lo as int, v.len() as int);
    let mut acc: i128 = 0;
    let mut i: usize = lo;
    assert(ds.take(0) =~= Seq::<char>::empty());
    while i < v.len()
        invariant
            lo <= i <= v.len(),
            ds == v@.subrange(lo as int, v.len() as int),
            all_digits(ds),
            acc == (if digits_value(ds.take(i - lo)) > EXPONENT_BOUND {
                EXPONENT_BOUND as int
            } else {
                digits_value(ds.take(i - lo)) as int
            }),
        decreases v.len() - i,
    {
        proof {
            lemma_digits_value_take(ds, (i - lo) as int);
        }
        assert(ds[(i - lo) as int] == v@[i as int]);
        let d = char_digit_value(v[i]);
        let next = acc * 10 + d as i128;
        if next > EXPONENT_BOUND {
            acc = EXPONENT_BOUND;
        } else {
            acc = next;
        }
        i = i + 1;
    }
    assert(ds.take(v.len() - lo) =~= ds);
    acc
}

/// The exponent of `v[lo..]` (see `exponent_value`), held within `EXPONENT_BOUND`.
fn parse_exponent(v: &Vec<char>, lo: usize) -> (r: Option<i128>)
    requires
        lo <= v.len(),
    ensures
        r is None <==> exponent_value(v@.subrange(lo as int, v.len() as int)) is None,
        r matches Some(x) ==> {
            let e = exponent_value(v@.subrange(lo as int, v.len() as int))->0;
            &&& -EXPONENT_BOUND <= x <= EXPONENT_BOUND
            &&& (e > EXPONENT_BOUND ==> x == EXPONENT_BOUND)
            &&& (e < -EXPONENT_BOUND ==> x == -EXPONENT_BOUND)
            &&& (-EXPONENT_BOUND <= e <= EXPONENT_BOUND ==> x == e)
        },
{
    let ghost r0 = v@.subrange(lo as int, v.len() as int);
    let n = v.len();
    if lo == n {
        return Some(0);
    }
    if !(v[lo] == 'e' || v[lo] == 'E') {
        return None;
    }
    let ghost t = r0.drop_first();
    assert(t =~= v@.subrange(lo + 1, n as int));
    let mut start = lo + 1;
    let mut negative = false;
    if start < n && (v[start] == '-' || v[start] == '+') {
        negative = v[start] == '-';
        start = start + 1;
    }
    let ghost ds = v@.subrange(start as int, n as int);
    assert(ds =~= (if t.len() > 0 && (t[0] == '-' || t[0] == '+') {
        t.drop_first()
    } else {
        t
    }));
    if start == n {
        return None;
    }
    let end = digit_run(v, start);
    if end < n {
        assert(!is_digit(ds[end - start]));
        return None;
    }
    assert(all_digits(ds)) by {
        assert forall|i: int| 0 <= i < ds.len() implies is_digit(#[trigger] ds[i]) by {
            assert(ds[i] == v@[start + i]);
        }
    }
    let mag = exponent_magnitude(v, start);
    if negative {
        Some(-mag)
    } else {
        Some(mag)
    }
}

/// Rounding is unchanged when an exponent beyond `EXPONENT_BOUND` is held at the bound.
proof fn lemma_exponent_bound(ds: Seq<char>, f: int, e: int, x: int)
    requires
        all_digits(ds),
        0 <= f <= ds.len() < 0x10000000000000000,
        e > EXPONENT_BOUND && x == EXPONENT_BOUND || e < -EXPONENT_BOUND && x == -EXPONENT_BOUND,
    ensures
        saturate(round_scaled(digits_value(ds), e - f + 6)) == saturate(
            round_scaled(digits_value(ds), x - f + 6),
        ),
{
    let m = digits_value(ds);
    let n = ds.len() as int;
    if e > EXPONENT_BOUND {
        let k1 = (e - f + 6) as nat;
        let k2 = (x - f + 6) as nat;
        if m > 0 {
            crate::decimal::lemma_pow10_monotonic(20, k1);
            crate::decimal::lemma_pow10_monotonic(20, k2);
            assert(pow10(20) == 100000000000000000000) by {
                reveal_with_fuel(pow10, 21);
            }
            assert(m * pow10(k1) >= pow10(k1)) by (nonlinear_arith)
                requires
                    m >= 1,
            ;
            assert(m * pow10(k2) >= pow10(k2)) by (nonlinear_arith)
                requires
                    m >= 1,
            ;
        } else {
            assert(m * pow10(k1) == 0 && m * pow10(k2) == 0) by (nonlinear_arith)
                requires
                    m == 0,
            ;
        }
    } else {
        lemma_round_scaled_digits(ds, e - f + 6 + n);
        lemma_round_scaled_digits(ds, x - f + 6 + n);
    }
}

/// The microseconds of an unsigned decimal number of seconds (see `decimal_parts`).
fn decimal_micros(b: &Vec<char>) -> (r: Option<u64>)
    ensures
        r == (match decimal_parts(b@) {
            None => None,
            Some((ds, e)) => Some(saturate(round_scaled(digits_value(ds), e + 6))),
        }),
{
    let bn = b.len();
    let ie = digit_run(b, 0);
    let has_point = ie < bn && b[ie] == '.';
    let fs = if has_point {
        ie + 1
    } else {
        ie
    };
    let fe = digit_run(b, fs);
    if ie + (fe - fs) == 0 {
        return None;
    }
    let x = match parse_exponent(b, fe) {
        None => {
            return None;
        },
        Some(x) => x,
    };
    let mut ds = copy_range(b, 0, ie);
    append_range(&mut ds, b, fs, fe);
    let ghost e = exponent_value(b@.subrange(fe as int, bn as int))->0;
    assert(all_digits(ds@)) by {
        assert forall|i: int| 0 <= i < ds@.len() implies is_digit(#[trigger] ds@[i]) by {
            if i < ie {
                assert(ds@[i] == b@[i]);
            } else {
                assert(ds@[i] == b@[fs + i - ie]);
            }
        }
    }
    let f = fe - fs;
    let point: i128 = ie as i128 + x + 6;
    let r = round_digits(&ds, point);
    proof {
        assert(point - ds@.len() == x - f + 6);
        if !(-EXPONENT_BOUND <= e <= EXPONENT_BOUND) {
            lemma_exponent_bound(ds@, f as int, e, x as int);
        }
    }
    Some(r)
}

/// The timestamp of `s` in microseconds (see `parse_timestamp`).
pub fn parse_timestamp_chars(s: &Vec<char>) -> (r: Option<u64>)
    ensures
        r == parse_timestamp(s@),
{
    let n = s.len();
    let signed = n > 0 && (s[0] == '-' || s[0] == '+');
    let negative = n > 0 && s[0] == '-';
    let b = if signed {
        copy_range(s, 1, n)
    } else {
        copy_range(s, 0, n)
    };
    assert(b@ =~= (if signed {
        s@.drop_first()
    } else {
        s@
    }));
    let inf = vec!['i', 'n', 'f'];
    let inf_upper = vec!['I', 'N', 'F'];
    let infinity = vec!['i', 'n', 'f', 'i', 'n', 'i', 't', 'y'];
    let infinity_upper = vec!['I', 'N', 'F', 'I', 'N', 'I', 'T', 'Y'];
    let nan = vec!['n', 'a', 'n'];
    let nan_upper = vec!['N', 'A', 'N'];
    assert(inf@ =~= seq!['i', 'n', 'f']);
    assert(inf_upper@ =~= seq!['I', 'N', 'F']);
    assert(infinity@ =~= seq!['i', 'n', 'f', 'i', 'n', 'i', 't', 'y']);
    assert(infinity_upper@ =~= seq!['I', 'N', 'F', 'I', 'N', 'I', 'T', 'Y']);
    assert(nan@ =~= seq!['n', 'a', 'n']);
    assert(nan_upper@ =~= seq!['N', 'A', 'N']);
    if spells_exec(&b, &inf, &inf_upper) || spells_exec(&b, &infinity, &infinity_upper) {
        return Some(
            if negative {
                0
            } else {
                u64::MAX
            },
        );
    }
    if spells_exec(&b, &nan, &nan_upper) {
        return Some(0);
    }
    match decimal_micros(&b) {
        None => None,
        Some(v) => Some(
            if negative {
                0
            } else {
                v
            },
        ),
    }
}

/// Every index of a run of digits that starts at `i` lies before the end of the run.
proof fn lemma_digit_run_end(s: Seq<char>, i: int)
    requires
        0 <= i <= s.len(),
    ensures
        i <= digit_run_end(s, i) <= s.len(),
    decreases s.len() - i,
{
    if i < s.len() && is_digit(s[i]) {
        lemma_digit_run_end(s, i + 1);
    }
}

/// The directional size of `dir` (see `parse_size`).
pub fn parse_size_chars(dir: &Vec<char>) -> (r: Option<i32>)
    requires
        size_fits(dir@),
    ensures
        r == parse_size(dir@),
{
    let n = dir.len();
    if n == 0 {
        return None;
    }
    let negative = dir[0] == '-';
    let ds = if negative {
        copy_range(dir, 1, n)
    } else {
        copy_range(dir, 0, n)
    };
    assert(ds@ =~= size_digits(dir@));
    if ds.len() == 0 {
        return None;
    }
    let mut acc: i32 = 0;
    let mut i: usize = 0;
    assert(ds@.take(0) =~= Seq::<char>::empty());
    while i < ds.len()
        invariant
            i <= ds.len(),
            ds@ == size_digits(dir@),
            size_fits(dir@),
            forall|j: int| 0 <= j < i ==> is_digit(#[trigger] ds@[j]),
            digit_run_end(ds@, 0) == digit_run_end(ds@, i as int),
            acc == digits_value(ds@.take(i as int)),
        decreases ds.len() - i,
    {
        if !char_is_digit(ds[i]) {
            return None;
        }
        proof {
            lemma_digit_run_end(ds@, i as int + 1);
            lemma_digits_value_take(ds@, i as int);
            lemma_digits_value_prefix_monotonic(ds@, i as int + 1, digit_run_end(ds@, 0));
        }
        let d = char_digit_value(ds[i]);
        acc = acc * 10 + d as i32;
        i = i + 1;
    }
    assert(ds@.take(ds.len() as int) =~= ds@);
    assert(all_digits(ds@));
    if negative {
        Some(-acc)
    } else {
        Some(acc)
    }
}

/// The first index at or after `i` that holds ASCII whitespace (the length if none does).
fn find_ascii_whitespace_exec(v: &Vec<char>, i: usize) -> (r: usize)
    requires
        i <= v.len(),
    ensures
        r == find_ascii_whitespace(v@, i as int),
        i <= r <= v.len(),
{
    let mut k = i;
    while k < v.len() && !char_is_ascii_whitespace(v[k])
        invariant
            i <= k <= v.len(),
            find_ascii_whitespace(v@, i as int) == find_ascii_whitespace(v@, k as int),
        decreases v.len() - k,
    {
        k = k + 1;
    }
    k
}

/// The first index at or after `i` that holds no ASCII whitespace (the length if every one does).
fn skip_ascii_whitespace_exec(v: &Vec<char>, i: usize) -> (r: usize)
    requires
        i <= v.len(),
    ensures
        r == skip_ascii_whitespace(v@, i as int),
        i <= r <= v.len(),
{
    let mut k = i;
    while k < v.len() && char_is_ascii_whitespace(v[k])
        invariant
            i <= k <= v.len(),
            skip_ascii_whitespace(v@, i as int) == skip_ascii_whitespace(v@, k as int),
        decreases v.len() - k,
    {
        k = k + 1;
    }
    k
}

/// The timestamp and directional size of a line given as its characters (see `parse_line`).
pub fn parse_line_chars(line: &Vec<char>) -> (r: Option<(u64, i32)>)
    requires
        line_size_fits(line@),
    ensures
        r == parse_line_spec(line@),
{
    let t = trimmed(line);
    let k = find_ascii_whitespace_exec(&t, 0);
    if k >= t.len() {
        return None;
    }
    let ts_chars = copy_range(&t, 0, k);
    let ts = match parse_timestamp_chars(&ts_chars) {
        None => {
            return None;
        },
        Some(ts) => ts,
    };
    let start = skip_ascii_whitespace_exec(&t, k);
    let dir = copy_range(&t, start, t.len());
    match parse_size_chars(&dir) {
        None => None,
        Some(d) => Some((ts, d)),
    }
}

/// Parses one line of the text format: the timestamp in microseconds and the directional size.
/// After whitespace is trimmed from both ends, the line holds the timestamp (a floating-point
/// number of seconds), ASCII whitespace, and the size (an optional minus sign and digits).
pub fn parse_line(line: &str) -> (r: Option<(u64, i32)>)
    requires
        line_size_fits(line@),
    ensures
        r == parse_line_spec(line@),
{
    let v = chars_of(line);
    parse_line_chars(&v)
}

/// Whether the leading digits of a directional size are worth at most `i32::MAX`.
fn size_fits_chars(dir: &Vec<char>) -> (r: bool)
    ensures
        r == size_fits(dir@),
{
    let n = dir.len();
    let ds = if n > 0 && dir[0] == '-' {
        copy_range(dir, 1, n)
    } else {
        copy_range(dir, 0, n)
    };
    assert(ds@ =~= size_digits(dir@));
    let run = digit_run(&ds, 0);
    let lead = copy_range(&ds, 0, run);
    assert(lead@ =~= ds@.take(run as int));
    assert(lead@.take(run as int) =~= lead@);
    let v = crate::decimal::prefix_value(&lead, run);
    v <= 0x7fff_ffff
}

/// Whether reading the line's directional size stays within `i32` (see `line_size_fits`).
pub fn line_size_fits_chars(line: &Vec<char>) -> (r: bool)
    ensures
        r == line_size_fits(line@),
{
    let t = trimmed(line);
    let k = find_ascii_whitespace_exec(&t, 0);
    if k >= t.len() {
        return true;
    }
    let ts_chars = copy_range(&t, 0, k);
    if parse_timestamp_chars(&ts_chars).is_none() {
        return true;
    }
    let start = skip_ascii_whitespace_exec(&t, k);
    let dir = copy_range(&t, start, t.len());
    size_fits_chars(&dir)
}

/// The first index at or after `i` that holds a line feed (the length if none does).
pub open spec fn find_newline(s: Seq<char>, i: int) -> int
    decreases s.len() - i,
{
    if 0 <= i < s.len() && s[i] != '\n' {
        find_newline(s, i + 1)
    } else {
        i
    }
}

proof fn lemma_find_newline(s: Seq<char>, i: int)
    requires
        0 <= i <= s.len(),
    ensures
        i <= find_newline(s, i) <= s.len(),
        find_newline(s, i) < s.len() ==> s[find_newline(s, i)] == '\n',
    decreases s.len() - i,
{
    if i < s.len() && s[i] != '\n' {
        lemma_find_newline(s, i + 1);
    }
}

proof fn lemma_find_newline_shift(s: Seq<char>, pos: int, j: int)
    requires
        0 <= pos <= s.len(),
        0 <= j <= s.len() - pos,
    ensures
        find_newline(s.subrange(pos, s.len() as int), j) == find_newline(s, pos + j) - pos,
    decreases s.len() - pos - j,
{
    if j < s.len() - pos {
        lemma_find_newline_shift(s, pos, j + 1);
    }
}

/// The lines of a text, as `str::lines` splits it: at each line feed, with a carriage return
/// just before the line feed dropped; a final line feed ends the last line and starts no other.
pub open spec fn text_lines(s: Seq<char>) -> Seq<Seq<char>>
    decreases s.len(),
{
    if s.len() == 0 {
        Seq::empty()
    } else {
        let k = find_newline(s, 0);
        if 0 <= k < s.len() {
            let raw = s.subrange(0, k);
            let line = if raw.len() > 0 && raw.last() == '\r' {
                raw.drop_last()
            } else {
                raw
            };
            seq![line] + text_lines(s.subrange(k + 1, s.len() as int))
        } else {
            seq![s]
        }
    }
}

/// The lines of `content` (see `text_lines`).
pub fn split_lines(content: &Vec<char>) -> (r: Vec<Vec<char>>)
    ensures
        r@.map_values(|l: Vec<char>| l@) == text_lines(content@),
{
    let n = content.len();
    let mut out: Vec<Vec<char>> = Vec::new();
    let mut pos: usize = 0;
    assert(content@.subrange(0, n as int) =~= content@);
    while pos < n
        invariant
            pos <= n == content.len(),
            text_lines(content@) == out@.map_values(|l: Vec<char>| l@) + text_lines(
                content@.subrange(pos as int, n as int),
            ),
        decreases n - pos,
    {
        let ghost sub = content@.subrange(pos as int, n as int);
        let mut k = pos;
        while k < n && content[k] != '\n'
            invariant
                pos <= k <= n == content.len(),
                find_newline(content@, pos as int) == find_newline(content@, k as int),
            decreases n - k,
        {
            k = k + 1;
        }
        proof {
            lemma_find_newline_shift(content@, pos as int, 0);
            lemma_find_newline(content@, pos as int);
        }
        let ghost before = out@.map_values(|l: Vec<char>| l@);
        if k < n {
            let mut end = k;
            if k > pos && content[k - 1] == '\r' {
                end = k - 1;
            }
            let line = copy_range(content, pos, end);
            proof {
                let raw = sub.subrange(0, k - pos);
                assert(raw =~= content@.subrange(pos as int, k as int));
                if raw.len() > 0 && raw.last() == '\r' {
                    assert(line@ =~= raw.drop_last());
                } else {
                    assert(line@ =~= raw);
                }
                assert(sub.subrange(k - pos + 1, sub.len() as int) =~= content@.subrange(
                    k + 1,
                    n as int,
                ));
            }
            out.push(line);
            pos = k + 1;
        } else {
            let line = copy_range(content, pos, n);
            out.push(line);
            pos = n;
            assert(content@.subrange(n as int, n as int) =~= Seq::<char>::empty());
        }
        assert(out@.map_values(|l: Vec<char>| l@) =~= before.push(out@[out@.len() - 1]@));
        assert(text_lines(content@) =~= out@.map_values(|l: Vec<char>| l@) + text_lines(
            content@.subrange(pos as int, n as int),
        ));
    }
    assert(content@.subrange(n as int, n as int) =~= Seq::<char>::empty());
    assert(text_lines(content@) =~= out@.map_values(|l: Vec<char>| l@));
    out
}

/// The direction of a directional size: sending where it is positive, receiving otherwise.
pub open spec fn size_direction(d: i32) -> Direction {
    if d > 0 {
        Direction::Send
    } else {
        Direction::Receive
    }
}

/// The size of a directional size: its absolute value.
pub open spec fn size_magnitude(d: i32) -> u32 {
    (if d < 0 {
        -d
    } else {
        d as int
    }) as u32
}

/// Reading the first `n` lines into a trace: empty lines are skipped, every other line must
/// parse (see `parse_line_spec`) and adds a packet whose delta is the time since the previous
/// packet (or since 0). The result is the trace and the last timestamp, or the index of the
/// first line that does not parse.
pub open spec fn read_lines(lines: Seq<Seq<char>>, n: nat) -> Result<(TraceView, u64), nat>
    decreases n,
{
    if n == 0 {
        Ok(
            (
                TraceView {
                    directions: Seq::empty(),
                    timing_deltas: Seq::empty(),
                    sizes: Seq::empty(),
                },
                0,
            ),
        )
    } else {
        match read_lines(lines, (n - 1) as nat) {
            Err(i) => Err(i),
            Ok((t, last)) => {
                let l = lines[n - 1];
                if l.len() == 0 {
                    Ok((t, last))
                } else {
                    match parse_line_spec(l) {
                        None => Err((n - 1) as nat),
                        Some((ts, d)) => Ok(
                            (
                                TraceView {
                                    directions: t.directions.push(size_direction(d)),
                                    timing_deltas: t.timing_deltas.push((ts - last) as u32),
                                    sizes: t.sizes.push(size_magnitude(d)),
                                },
                                ts,
                            ),
                        ),
                    }
                }
            },
        }
    }
}

/// Whether reading the first `n` lines stays within what the reader handles: each line read
/// keeps its directional size within `i32` and has a timestamp no earlier than the previous one.
pub open spec fn lines_readable(lines: Seq<Seq<char>>, n: nat) -> bool
    decreases n,
{
    n == 0 || (lines_readable(lines, (n - 1) as nat) && match read_lines(
        lines,
        (n - 1) as nat,
    ) {
        Err(_) => true,
        Ok((_, last)) => {
            let l = lines[n - 1];
            l.len() == 0 || (line_size_fits(l) && match parse_line_spec(l) {
                None => true,
                Some((ts, _)) => ts >= last,
            })
        },
    })
}

proof fn lemma_lines_readable_prefix(lines: Seq<Seq<char>>, m: nat, n: nat)
    requires
        m <= n,
        lines_readable(lines, n),
    ensures
        lines_readable(lines, m),
    decreases n - m,
{
    if m < n {
        lemma_lines_readable_prefix(lines, m, (n - 1) as nat);
    }
}

/// The message of a line that does not parse.
pub open spec fn invalid_line_message(line: Seq<char>) -> Seq<char> {
    "invalid line format: "@ + line
}

/// Whether the text can be read (see `lines_readable`).
pub open spec fn text_readable(content: Seq<char>) -> bool {
    lines_readable(text_lines(content), text_lines(content).len())
}

/// Reads a trace from the text format (see `read_lines`); a line that does not parse gives an
/// `InvalidFormat` error naming `file` and the line's number, counted from 1.
pub fn parse_text(file: &str, content: &str) -> (r: Result<Trace, ParseError>)
    requires
        text_readable(content@),
    ensures
        ({
            let lines = text_lines(content@);
            match read_lines(lines, lines.len()) {
                Ok((t, _)) => r is Ok && r->Ok_0@ == t && t.wf(),
                Err(i) => r is Err && r->Err_0@ == (ParseErrorView::InvalidFormat {
                    file: file@,
                    line: (i + 1) as usize,
                    message: invalid_line_message(lines[i as int]),
                }),
            }
        }),
{
    let chars = chars_of(content);
    let lines = split_lines(&chars);
    let ghost ls = text_lines(content@);
    assert(ls.len() == lines@.len());
    let mut builder = TraceBuilder::new(0);
    let mut i: usize = 0;
    while i < lines.len()
        invariant
            i <= lines.len() == ls.len(),
            ls == text_lines(content@),
            lines@.map_values(|l: Vec<char>| l@) == ls,
            lines_readable(ls, ls.len()),
            builder.recorded().wf(),
            read_lines(ls, i as nat) == Ok::<(TraceView, u64), nat>(
                (builder.recorded(), builder.last_ts()),
            ),
        decreases lines.len() - i,
    {
        proof {
            lemma_lines_readable_prefix(ls, (i + 1) as nat, ls.len());
        }
        assert(ls[i as int] == lines@[i as int]@);
        if lines[i].len() > 0 {
            match parse_line_chars(&lines[i]) {
                None => {
                    let mut message = String::new();
                    message.append("invalid line format: ");
                    let text = string_of(&lines[i]);
                    message.append(text.as_str());
                    let mut f = String::new();
                    f.append(file);
                    proof {
                        lemma_read_lines_error_stays(ls, (i + 1) as nat, ls.len());
                        assert(message@ =~= invalid_line_message(ls[i as int]));
                        assert(f@ =~= file@);
                    }
                    return Err(ParseError::InvalidFormat { file: f, line: i + 1, message });
                },
                Some((ts, d)) => {
                    let size: u32 = if d < 0 {
                        (-(d as i64)) as u32
                    } else {
                        d as u32
                    };
                    let dir = if d > 0 {
                        Direction::Send
                    } else {
                        Direction::Receive
                    };
                    builder.record(dir, ts, size);
                },
            }
        }
        i = i + 1;
    }
    Ok(builder.build())
}

/// Whether `content` can be read by `parse_text` (see `text_readable`).
pub fn text_is_readable(content: &str) -> (r: bool)
    ensures
        r == text_readable(content@),
{
    let chars = chars_of(content);
    let lines = split_lines(&chars);
    let ghost ls = text_lines(content@);
    let mut last: u64 = 0;
    let ghost mut t = TraceView {
        directions: Seq::empty(),
        timing_deltas: Seq::empty(),
        sizes: Seq::empty(),
    };
    let mut i: usize = 0;
    while i < lines.len()
        invariant
            i <= lines.len() == ls.len(),
            ls == text_lines(content@),
            lines@.map_values(|l: Vec<char>| l@) == ls,
            lines_readable(ls, i as nat),
            read_lines(ls, i as nat) == Ok::<(TraceView, u64), nat>((t, last)),
        decreases lines.len() - i,
    {
        assert(ls[i as int] == lines@[i as int]@);
        if lines[i].len() > 0 {
            if !line_size_fits_chars(&lines[i]) {
                proof {
                    if lines_readable(ls, ls.len()) {
                        lemma_lines_readable_prefix(ls, (i + 1) as nat, ls.len());
                    }
                }
                return false;
            }
            match parse_line_chars(&lines[i]) {
                None => {
                    proof {
                        lemma_read_lines_error_stays(ls, (i + 1) as nat, ls.len());
                    }
                    return true;
                },
                Some((ts, d)) => {
                    if ts < last {
                        proof {
                            if lines_readable(ls, ls.len()) {
                                lemma_lines_readable_prefix(ls, (i + 1) as nat, ls.len());
                            }
                        }
                        return false;
                    }
                    proof {
                        t = TraceView {
                            directions: t.directions.push(size_direction(d)),
                            timing_deltas: t.timing_deltas.push((ts - last) as u32),
                            sizes: t.sizes.push(size_magnitude(d)),
                        };
                    }
                    last = ts;
                },
            }
        }
        i = i + 1;
    }
    true
}

/// Once a line fails to parse, reading more lines gives the same error, and every later prefix
/// is readable.
proof fn lemma_read_lines_error_stays(lines: Seq<Seq<char>>, m: nat, n: nat)
    requires
        m <= n,
        read_lines(lines, m) is Err,
        lines_readable(lines, m),
    ensures
        read_lines(lines, n) == read_lines(lines, m),
        lines_readable(lines, n),
    decreases n - m,
{
    if m < n {
        lemma_read_lines_error_stays(lines, m, (n - 1) as nat);
    }
}

/// The time of the `n`th packet: the sum of the first `n` timing deltas.
pub open spec fn elapsed(t: TraceView, n: nat) -> nat
    decreases n,
{
    if n == 0 {
        0
    } else {
        elapsed(t, (n - 1) as nat) + (t.timing_deltas[n - 1] as nat)
    }
}

/// The directional size of a packet: its size, negated for a received packet.
pub open spec fn directional_size(d: Direction, size: u32) -> int {
    match d {
        Direction::Send => size as int,
        Direction::Receive => -(size as int),
    }
}

/// The text line of a packet at `time` microseconds: seconds, a point, six digits of
/// microseconds, a tab, the directional size and a newline.
pub open spec fn tiktok_line(time: nat, d: Direction, size: u32) -> Seq<char> {
    tiktok_body(time, d, size) + seq!['\n']
}

/// The text line of a packet without its newline.
pub open spec fn tiktok_body(time: nat, d: Direction, size: u32) -> Seq<char> {
    decimal(time / 1000000) + seq!['.'] + decimal_padded(time % 1000000, 6) + seq!['\t']
        + signed_decimal(directional_size(d, size))
}

/// The text of the first `n` packets of a trace in the text format.
pub open spec fn tiktok_text_prefix(t: TraceView, n: nat) -> Seq<char>
    decreases n,
{
    if n == 0 {
        Seq::empty()
    } else {
        tiktok_text_prefix(t, (n - 1) as nat) + tiktok_line(
            elapsed(t, n),
            t.directions[n - 1],
            t.sizes[n - 1],
        )
    }
}

/// A trace written in the text format.
pub open spec fn tiktok_text(t: TraceView) -> Seq<char> {
    tiktok_text_prefix(t, t.len())
}

proof fn lemma_elapsed_monotonic(t: TraceView, m: nat, n: nat)
    requires
        m <= n,
    ensures
        elapsed(t, m) <= elapsed(t, n),
    decreases n - m,
{
    if m < n {
        lemma_elapsed_monotonic(t, m, (n - 1) as nat);
    }
}

/// A trace to be written in the text format.
pub struct TikTokDisplay<'a>(pub &'a Trace);

impl<'a> TikTokDisplay<'a> {
    /// The trace in the text format: one line per packet with its time since the start in
    /// seconds (six decimals) and its directional size. The time is counted in `u32`
    /// microseconds, so the deltas must sum to at most `u32::MAX`.
    pub fn to_string(&self) -> (r: String)
        requires
            self.0@.wf(),
            elapsed(self.0@, self.0@.len()) <= u32::MAX,
        ensures
            r@ == tiktok_text(self.0@),
    {
        let trace = self.0;
        let n = trace.directions.len();
        let mut s = String::new();
        let mut time: u32 = 0;
        let mut i: usize = 0;
        while i < n
            invariant
                trace@.wf(),
                n == trace@.len(),
                i <= n,
                elapsed(trace@, n as nat) <= u32::MAX,
                time == elapsed(trace@, i as nat),
                s@ == tiktok_text_prefix(trace@, i as nat),
            decreases n - i,
        {
            proof {
                lemma_elapsed_monotonic(trace@, (i + 1) as nat, n as nat);
            }
            time = time + trace.timing_deltas[i];
            let ghost before = s@;
            let secs = time / 1_000_000;
            let micros = time % 1_000_000;
            let size = trace.sizes[i];
            let dsize: i64 = match trace.directions[i] {
                Direction::Send => size as i64,
                Direction::Receive => -(size as i64),
            };
            push_decimal(&mut s, secs as u64);
            proof {
                reveal_strlit(".");
                reveal_strlit("\t");
                reveal_strlit("\n");
            }
            s.append(".");
            push_decimal_padded(&mut s, micros as u64, 6);
            s.append("\t");
            push_signed_decimal(&mut s, dsize);
            s.append("\n");
            assert(s@ =~= before + tiktok_body(
                time as nat,
                trace@.directions[i as int],
                trace@.sizes[i as int],
            ) + seq!['\n']);
            assert(s@ =~= before + tiktok_line(
                time as nat,
                trace@.directions[i as int],
                trace@.sizes[i as int],
            ));
            i = i + 1;
        }
        s
    }
}

proof fn lemma_find_newline_prefix(x: Seq<char>, y: Seq<char>, i: int)
    requires
        0 <= i < x.len(),
        x.last() == '\n',
    ensures
        find_newline(x + y, i) == find_newline(x, i),
        find_newline(x, i) < x.len(),
    decreases x.len() - i,
{
    if x[i] != '\n' {
        lemma_find_newline_prefix(x, y, i + 1);
    }
}

/// The lines of two texts one after the other, the first empty or ending in a newline, are the
/// lines of the first and then those of the second.
pub proof fn lemma_text_lines_concat(x: Seq<char>, y: Seq<char>)
    requires
        x.len() == 0 || x.last() == '\n',
    ensures
        text_lines(x + y) == text_lines(x) + text_lines(y),
    decreases x.len(),
{
    if x.len() == 0 {
        assert(x + y =~= y);
        assert(text_lines(x) =~= Seq::<Seq<char>>::empty());
        assert(text_lines(x) + text_lines(y) =~= text_lines(y));
    } else {
        let s = x + y;
        lemma_find_newline_prefix(x, y, 0);
        lemma_find_newline(x, 0);
        let k = find_newline(x, 0);
        assert(s.subrange(0, k) =~= x.subrange(0, k));
        let xr = x.subrange(k + 1, x.len() as int);
        assert(s.subrange(k + 1, s.len() as int) =~= xr + y);
        if xr.len() > 0 {
            assert(xr.last() == x.last());
        }
        lemma_text_lines_concat(xr, y);
        assert(text_lines(s) =~= text_lines(x) + text_lines(y));
    }
}

proof fn lemma_find_newline_none(b: Seq<char>, i: int)
    requires
        0 <= i <= b.len(),
        forall|j: int| 0 <= j < b.len() ==> b[j] != '\n',
    ensures
        find_newline(b + seq!['\n'], i) == b.len(),
    decreases b.len() - i,
{
    if i < b.len() {
        assert((b + seq!['\n'])[i] == b[i]);
        lemma_find_newline_none(b, i + 1);
    }
}

/// A line without newlines that does not end in a carriage return, followed by a newline, is
/// one line.
proof fn lemma_text_lines_single(b: Seq<char>)
    requires
        forall|j: int| 0 <= j < b.len() ==> b[j] != '\n',
        b.len() > 0 ==> b.last() != '\r',
    ensures
        text_lines(b + seq!['\n']) == seq![b],
{
    let s = b + seq!['\n'];
    lemma_find_newline_none(b, 0);
    assert(s.subrange(0, b.len() as int) =~= b);
    assert(s.subrange(b.len() as int + 1, s.len() as int) =~= Seq::<char>::empty());
    assert(text_lines(Seq::<char>::empty()) =~= Seq::<Seq<char>>::empty());
    assert(text_lines(s) =~= seq![b]);
}

/// The lines of a decimal number are digits.
proof fn lemma_signed_decimal(x: int)
    ensures
        signed_decimal(x).len() >= 1,
        is_digit(signed_decimal(x).last()),
        x < 0 ==> signed_decimal(x)[0] == '-' && signed_decimal(x).drop_first() == decimal(
            (-x) as nat,
        ),
        x >= 0 ==> signed_decimal(x) == decimal(x as nat),
        forall|j: int| 0 <= j < signed_decimal(x).len() ==> (is_digit(#[trigger] signed_decimal(x)[j]) || signed_decimal(x)[j] == '-'),
{
    if x < 0 {
        lemma_decimal((-x) as nat);
        assert((seq!['-'] + decimal((-x) as nat)).drop_first() =~= decimal((-x) as nat));
        assert forall|j: int| 0 <= j < signed_decimal(x).len() implies (is_digit(#[trigger] signed_decimal(x)[j]) || signed_decimal(x)[j] == '-') by {
            if j > 0 {
                assert(signed_decimal(x)[j] == decimal((-x) as nat)[j - 1]);
            }
        }
    } else {
        lemma_decimal(x as nat);
    }
}

proof fn lemma_digit_run_to(s: Seq<char>, i: int, j: int)
    requires
        0 <= i <= j <= s.len(),
        forall|m: int| i <= m < j ==> is_digit(#[trigger] s[m]),
        j == s.len() || !is_digit(s[j]),
    ensures
        digit_run_end(s, i) == j,
    decreases j - i,
{
    if i < j {
        lemma_digit_run_to(s, i + 1, j);
    }
}

proof fn lemma_find_ascii_whitespace_to(s: Seq<char>, i: int, j: int)
    requires
        0 <= i <= j < s.len(),
        forall|m: int| i <= m < j ==> !is_ascii_whitespace(#[trigger] s[m]),
        is_ascii_whitespace(s[j]),
    ensures
        find_ascii_whitespace(s, i) == j,
    decreases j - i,
{
    if i < j {
        lemma_find_ascii_whitespace_to(s, i + 1, j);
    }
}

/// A decimal number of seconds with six decimals reads back as its microseconds.
proof fn lemma_parse_seconds(time: nat)
    requires
        time <= u64::MAX,
    ensures
        parse_timestamp(decimal(time / 1000000) + seq!['.'] + decimal_padded(time % 1000000, 6))
            == Some(time as u64),
{
    let secs = time / 1000000;
    let micros = time % 1000000;
    let a = decimal(secs);
    let p = decimal_padded(micros, 6);
    lemma_decimal(secs);
    lemma_decimal_padded(micros, 6);
    let na = a.len() as int;
    let k = na + 7;
    let ts = a + seq!['.'] + p;
    assert(ts.len() == k);
    assert(ts[0] == a[0]);
    assert(is_digit(a[0]));
    assert(!(ts[0] == '-' || ts[0] == '+'));
    assert(!spells(ts, seq!['i', 'n', 'f'], seq!['I', 'N', 'F'])) by {
        assert(!(ts[0] == seq!['i', 'n', 'f'][0] || ts[0] == seq!['I', 'N', 'F'][0]));
    }
    assert(!spells(
        ts,
        seq!['i', 'n', 'f', 'i', 'n', 'i', 't', 'y'],
        seq!['I', 'N', 'F', 'I', 'N', 'I', 'T', 'Y'],
    )) by {
        assert(!(ts[0] == seq!['i', 'n', 'f', 'i', 'n', 'i', 't', 'y'][0] || ts[0] == seq![
            'I',
            'N',
            'F',
            'I',
            'N',
            'I',
            'T',
            'Y',
        ][0]));
    }
    assert(!spells(ts, seq!['n', 'a', 'n'], seq!['N', 'A', 'N'])) by {
        assert(!(ts[0] == seq!['n', 'a', 'n'][0] || ts[0] == seq!['N', 'A', 'N'][0]));
    }
    assert forall|m: int| 0 <= m < na implies is_digit(#[trigger] ts[m]) by {
        assert(ts[m] == a[m]);
    }
    assert(ts[na] == '.');
    lemma_digit_run_to(ts, 0, na);
    assert forall|m: int| na + 1 <= m < k implies is_digit(#[trigger] ts[m]) by {
        assert(ts[m] == p[m - na - 1]);
    }
    lemma_digit_run_to(ts, na + 1, k);
    assert(ts.subrange(k, k) =~= Seq::<char>::empty());
    assert(ts.subrange(0, na) =~= a);
    assert(ts.subrange(na + 1, k) =~= p);
    lemma_digits_value_concat(a, p);
    assert(crate::decimal::pow10(6) == 1000000) by {
        reveal_with_fuel(crate::decimal::pow10, 7);
    }
    assert(crate::decimal::pow10(0) == 1);
    assert(micros % 1000000 == micros);
    vstd::arithmetic::div_mod::lemma_fundamental_div_mod(time as int, 1000000);
    assert(digits_value(a) * 1000000 == 1000000 * secs);
    assert(digits_value(a + p) == time);
    let v = digits_value(a + p);
    assert(v * 1 == v);
    assert(round_scaled(digits_value(a + p), 0) == digits_value(a + p));
    assert(decimal_parts(ts) == Some((a + p, -6int)));
}

/// A signed decimal number within `i32` reads back as a directional size.
proof fn lemma_parse_signed(x: int)
    requires
        -i32::MAX <= x <= i32::MAX,
    ensures
        parse_size(signed_decimal(x)) == Some(x as i32),
        size_fits(signed_decimal(x)),
{
    let sd = signed_decimal(x);
    lemma_signed_decimal(x);
    let ds = size_digits(sd);
    lemma_decimal(if x < 0 {
        (-x) as nat
    } else {
        x as nat
    });
    if x < 0 {
        assert(ds =~= decimal((-x) as nat));
    } else {
        assert(is_digit(sd[0]));
        assert(ds =~= decimal(x as nat));
    }
    assert(all_digits(ds));
    lemma_digit_run_to(ds, 0, ds.len() as int);
    assert(ds.take(ds.len() as int) =~= ds);
}

/// A packet's line holds the timestamp, a tab and the directional size, with no whitespace or
/// newline elsewhere.
proof fn lemma_body_shape(time: nat, d: Direction, size: u32)
    ensures
        ({
            let a = decimal(time / 1000000);
            let b = tiktok_body(time, d, size);
            let k = a.len() as int + 7;
            &&& b.len() > k + 1
            &&& b.subrange(0, k) == a + seq!['.'] + decimal_padded(time % 1000000, 6)
            &&& b[k] == '\t'
            &&& b.subrange(k + 1, b.len() as int) == signed_decimal(directional_size(d, size))
            &&& forall|j: int| 0 <= j < k ==> !is_ascii_whitespace(#[trigger] b[j])
            &&& forall|j: int| 0 <= j < b.len() ==> #[trigger] b[j] != '\n'
            &&& !is_whitespace(b[0])
            &&& !is_whitespace(b.last())
            &&& !is_ascii_whitespace(b[k + 1])
            &&& b.last() != '\r'
        }),
{
    let a = decimal(time / 1000000);
    let p = decimal_padded(time % 1000000, 6);
    let x = directional_size(d, size);
    let sd = signed_decimal(x);
    let b = tiktok_body(time, d, size);
    lemma_decimal(time / 1000000);
    lemma_decimal_padded(time % 1000000, 6);
    lemma_signed_decimal(x);
    let na = a.len() as int;
    let k = na + 7;
    assert(b =~= a + seq!['.'] + p + seq!['\t'] + sd);
    assert(b.subrange(0, k) =~= a + seq!['.'] + p);
    assert(b.subrange(k + 1, b.len() as int) =~= sd);
    assert(b[k] == '\t');
    assert forall|j: int| 0 <= j < b.len() implies #[trigger] b[j] != '\n' && (j < k
        ==> !is_ascii_whitespace(b[j])) by {
        if j < na {
            assert(b[j] == a[j]);
            assert(is_digit(a[j]));
        } else if j == na {
        } else if j < k {
            assert(b[j] == p[j - na - 1]);
            assert(is_digit(p[j - na - 1]));
        } else if j > k {
            assert(b[j] == sd[j - k - 1]);
            assert(is_digit(sd[j - k - 1]) || sd[j - k - 1] == '-');
        }
    }
    assert(b[0] == a[0]);
    assert(is_digit(a[0]));
    assert(b.last() == sd.last());
    assert(b[k + 1] == sd[0]);
    assert(is_digit(sd[0]) || sd[0] == '-');
}

/// A packet's line reads back as its time and directional size.
proof fn lemma_parse_body(time: nat, d: Direction, size: u32)
    requires
        time <= u32::MAX,
        size <= i32::MAX,
    ensures
        parse_line_spec(tiktok_body(time, d, size)) == Some(
            (time as u64, directional_size(d, size) as i32),
        ),
        line_size_fits(tiktok_body(time, d, size)),
        forall|j: int|
            0 <= j < tiktok_body(time, d, size).len() ==> #[trigger] tiktok_body(time, d, size)[j]
                != '\n',
        tiktok_body(time, d, size).len() > 0,
        tiktok_body(time, d, size).last() != '\r',
{
    let b = tiktok_body(time, d, size);
    let a = decimal(time / 1000000);
    let k = a.len() as int + 7;
    lemma_body_shape(time, d, size);
    assert(trim_front(b, 0) == 0);
    assert(trim_back(b, b.len() as int) == b.len());
    assert(trim(b) =~= b);
    lemma_find_ascii_whitespace_to(b, 0, k);
    lemma_parse_seconds(time);
    assert(skip_ascii_whitespace(b, k + 1) == k + 1);
    assert(skip_ascii_whitespace(b, k) == k + 1);
    lemma_parse_signed(directional_size(d, size));
}

/// The lines of the text of the first `n` packets are the packets' lines.
proof fn lemma_tiktok_lines(t: TraceView, n: nat)
    requires
        t.wf(),
        n <= t.len(),
        elapsed(t, t.len()) <= u32::MAX,
        forall|i: int| 0 <= i < t.len() ==> #[trigger] t.sizes[i] <= i32::MAX,
    ensures
        text_lines(tiktok_text_prefix(t, n)) == Seq::new(
            n,
            |i: int| tiktok_body(elapsed(t, (i + 1) as nat), t.directions[i], t.sizes[i]),
        ),
    decreases n,
{
    if n == 0 {
        assert(text_lines(Seq::<char>::empty()) =~= Seq::<Seq<char>>::empty());
        assert(tiktok_text_prefix(t, 0) =~= Seq::<char>::empty());
    } else {
        let m = (n - 1) as nat;
        lemma_tiktok_lines(t, m);
        lemma_elapsed_monotonic(t, n, t.len());
        let body = tiktok_body(elapsed(t, n), t.directions[m as int], t.sizes[m as int]);
        lemma_parse_body(elapsed(t, n), t.directions[m as int], t.sizes[m as int]);
        let x = tiktok_text_prefix(t, m);
        if m > 0 {
            assert(x.last() == '\n');
        }
        lemma_text_lines_concat(x, body + seq!['\n']);
        lemma_text_lines_single(body);
        assert(tiktok_text_prefix(t, n) =~= x + (body + seq!['\n']));
        assert(text_lines(tiktok_text_prefix(t, n)) =~= Seq::new(
            n,
            |i: int| tiktok_body(elapsed(t, (i + 1) as nat), t.directions[i], t.sizes[i]),
        ));
    }
}

/// Whether a trace can be written in the text format and read back: its fields have one
/// length, its times fit in `u32` microseconds, its sizes in `i32`, and every packet sent has a
/// size (a sent packet of size 0 would read back as received).
pub open spec fn text_round_trips(t: TraceView) -> bool {
    &&& t.wf()
    &&& elapsed(t, t.len()) <= u32::MAX
    &&& forall|i: int| 0 <= i < t.len() ==> #[trigger] t.sizes[i] <= i32::MAX
    &&& forall|i: int| 0 <= i < t.len() && t.directions[i] == Direction::Send ==> #[trigger] t.sizes[i] > 0
}

/// The first `n` packets of a trace, as a trace.
pub open spec fn trace_take(t: TraceView, n: nat) -> TraceView {
    TraceView {
        directions: t.directions.take(n as int),
        timing_deltas: t.timing_deltas.take(n as int),
        sizes: t.sizes.take(n as int),
    }
}

/// Writing a trace in the text format and reading the text back gives the same trace: the text
/// can be read, and it reads as the trace, for every trace whose times fit in `u32`
/// microseconds, whose sizes fit in `i32`, and whose sent packets all have a size.
pub proof fn lemma_text_round_trip(t: TraceView)
    requires
        text_round_trips(t),
    ensures
        text_readable(tiktok_text(t)),
        read_lines(text_lines(tiktok_text(t)), t.len()) == Ok::<(TraceView, u64), nat>(
            (t, elapsed(t, t.len()) as u64),
        ),
        text_lines(tiktok_text(t)).len() == t.len(),
{
    let n = t.len();
    lemma_tiktok_lines(t, n);
    let lines = text_lines(tiktok_text(t));
    assert forall|i: nat| i <= n implies read_lines(lines, i) == Ok::<(TraceView, u64), nat>(
        (trace_take(t, i), elapsed(t, i) as u64),
    ) && lines_readable(lines, i) by {
        lemma_read_prefix(t, lines, i);
    }
    assert(trace_take(t, n).directions =~= t.directions);
    assert(trace_take(t, n).timing_deltas =~= t.timing_deltas);
    assert(trace_take(t, n).sizes =~= t.sizes);
}

proof fn lemma_read_prefix(t: TraceView, lines: Seq<Seq<char>>, i: nat)
    requires
        text_round_trips(t),
        i <= t.len(),
        lines == Seq::new(
            t.len(),
            |j: int| tiktok_body(elapsed(t, (j + 1) as nat), t.directions[j], t.sizes[j]),
        ),
    ensures
        read_lines(lines, i) == Ok::<(TraceView, u64), nat>(
            (trace_take(t, i), elapsed(t, i) as u64),
        ),
        lines_readable(lines, i),
    decreases i,
{
    lemma_elapsed_monotonic(t, i, t.len());
    if i == 0 {
        assert(trace_take(t, 0).directions =~= Seq::<Direction>::empty());
        assert(trace_take(t, 0).timing_deltas =~= Seq::<u32>::empty());
        assert(trace_take(t, 0).sizes =~= Seq::<u32>::empty());
    } else {
        let m = (i - 1) as nat;
        lemma_read_prefix(t, lines, m);
        let d = t.directions[m as int];
        let sz = t.sizes[m as int];
        let l = lines[m as int];
        lemma_parse_body(elapsed(t, i), d, sz);
        let x = directional_size(d, sz);
        assert(size_direction(x as i32) == d);
        assert(size_magnitude(x as i32) == sz);
        assert(trace_take(t, i).directions =~= trace_take(t, m).directions.push(d));
        assert(trace_take(t, i).timing_deltas =~= trace_take(t, m).timing_deltas.push(
            (elapsed(t, i) as u64 - elapsed(t, m) as u64) as u32,
        ));
        assert(trace_take(t, i).sizes =~= trace_take(t, m).sizes.push(sz));
    }
}

/// The length to which traces of the Tik-Tok dataset are padded, as its authors document.
pub const TIKTOK_PAD_TO: usize = 5000;

/// The Tik-Tok dataset of traces with their class and instance: grouped by class, each class's
/// traces sorted by instance (see `instances_dataset`), padded to [`TIKTOK_PAD_TO`].
pub fn tiktok_dataset(entries: Vec<(String, usize, Trace)>) -> (r: Dataset)
    ensures
        r.entries() == instances_dataset(instances_of(entries@)),
        r.pad() == TIKTOK_PAD_TO,
{
    group_instances(entries, TIKTOK_PAD_TO)
}

} // verus!
