//! Reading numbers out of text for compiled code.

use vstd::arithmetic::power::*;
use vstd::prelude::*;
use vstd::slice::slice_subrange;
use vstd::string::*;

use crate::eval::decimal::{first_index, pow10, ten, decimal_text, Decimal};
use crate::eval::parse::{ascii_digits, exponent_at, find_char, parsed_int, read_int, unicode_digit_to_ascii};
use crate::eval::rational::{rational_of_decimal, reduced, Rational};
use crate::runtime::exact::{
    fail_with, failure, holding, outcome, AhpclDecimal, AhpclRational, Failure, FailureView,
};
use crate::text::{cat3, chars_of, fits, i128_text, int_text, text_of, trim_chars, trimmed};

verus! {

/// The options `parse` accepts, as a bitmask so they travel as one word.
pub const PARSE_TRIM: u64 = 1;

pub const PARSE_SCIENTIFIC: u64 = 2;

pub const PARSE_HEX: u64 = 4;

pub const PARSE_UNICODE_DIGITS: u64 = 8;

/// Read `n/d` as a fraction. Opt-in, matching the interpreter.
pub const PARSE_FRACTION: u64 = 16;

pub open spec fn starts_with(s: Seq<char>, p: Seq<char>) -> bool {
    p.len() <= s.len() && s.take(p.len() as int) == p
}

/// A text with every occurrence of a pattern replaced, from the left.
pub open spec fn replaced(s: Seq<char>, pattern: Seq<char>, with: Seq<char>) -> Seq<char>
    decreases s.len(),
{
    if s.len() == 0 || pattern.len() == 0 {
        s
    } else if starts_with(s, pattern) {
        with + replaced(s.skip(pattern.len() as int), pattern, with)
    } else {
        seq![s[0]] + replaced(s.skip(1), pattern, with)
    }
}

/// A text without a pattern in front, however often it stands there.
pub open spec fn stripped(s: Seq<char>, pattern: Seq<char>) -> Seq<char>
    decreases s.len(),
{
    if pattern.len() > 0 && starts_with(s, pattern) {
        stripped(s.skip(pattern.len() as int), pattern)
    } else {
        s
    }
}

/// Mantissa and scale of a number with at most one point in it.
pub open spec fn split_number(s: Seq<char>) -> Option<(int, nat)> {
    let at = first_index(s, '.');
    if at >= s.len() {
        match parsed_int(s, 10) {
            Some(n) => Some((n, 0)),
            None => None,
        }
    } else {
        let frac = s.skip(at + 1);
        let joined = s.take(at) + frac;
        let body = if joined.len() > 0 && joined[0] == '+' {
            joined.skip(1)
        } else {
            joined
        };
        match parsed_int(body, 10) {
            Some(n) => Some((n, frac.len() % 0x1_0000_0000)),
            None => None,
        }
    }
}

/// A number shifted by a power of ten, written out again.
pub open spec fn shifted_text(m: int, scale: nat, exp: int) -> Option<Seq<char>> {
    let s = scale - exp;
    if s <= 0 {
        if fits(ten((-s) as nat)) && fits(m * ten((-s) as nat)) {
            Some(int_text(m * ten((-s) as nat)))
        } else {
            None
        }
    } else if s <= u32::MAX {
        Some(decimal_text(Decimal { mantissa: m as i128, scale: s as u32 }))
    } else {
        None
    }
}

pub open spec fn scientific_text(s: Seq<char>) -> Option<Seq<char>> {
    let at = exponent_at(s);
    match (parsed_int(s.skip(at + 1), 10), split_number(s.take(at))) {
        (Some(exp), Some((m, scale))) => if i32::MIN <= exp <= i32::MAX {
            shifted_text(m, scale, exp)
        } else {
            None
        },
        _ => None,
    }
}

/// Text normalised under the parse options, or nothing if the options reject it.
pub open spec fn prepared(text: Seq<char>, flags: u64, group: Seq<char>, decimal: Seq<char>) -> Option<Seq<char>> {
    let a = if flags & PARSE_TRIM != 0 {
        trimmed(text)
    } else {
        text
    };
    let b = if flags & PARSE_UNICODE_DIGITS != 0 {
        ascii_digits(a)
    } else {
        a
    };
    let c = replaced(b, group, Seq::empty());
    let d = if decimal == seq!['.'] {
        c
    } else {
        replaced(c, decimal, seq!['.'])
    };
    if flags & PARSE_HEX != 0 {
        match parsed_int(stripped(stripped(d, "0x"@), "0X"@), 16) {
            Some(n) => Some(int_text(n)),
            None => None,
        }
    } else if flags & PARSE_SCIENTIFIC != 0 && exponent_at(d) < d.len() {
        scientific_text(d)
    } else {
        Some(d)
    }
}

pub open spec fn no_number(text: Seq<char>) -> FailureView {
    failure("AHPCL-RUN-0004"@, "'"@ + text + "' is not a number"@)
}

pub open spec fn int_read(text: Seq<char>, flags: u64, group: Seq<char>, decimal: Seq<char>) -> Result<i128, FailureView> {
    match prepared(text, flags, group, decimal) {
        Some(s) => match parsed_int(s, 10) {
            Some(n) => Ok(n as i128),
            None => Err(no_number(text)),
        },
        None => Err(no_number(text)),
    }
}

pub open spec fn deci_read(text: Seq<char>, flags: u64, group: Seq<char>, decimal: Seq<char>) -> Result<
    AhpclDecimal,
    FailureView,
> {
    match prepared(text, flags, group, decimal) {
        Some(s) => match split_number(s) {
            Some((m, scale)) => Ok(holding(Decimal { mantissa: m as i128, scale: scale as u32 })),
            None => Err(no_number(text)),
        },
        None => Err(no_number(text)),
    }
}

/// The fraction a prepared text spells: `n/d` where that was asked for, else a decimal.
pub open spec fn fraction_read(s: Seq<char>, flags: u64) -> Option<Rational> {
    let at = first_index(s, '/');
    if flags & PARSE_FRACTION != 0 && at < s.len() {
        match (parsed_int(trimmed(s.take(at)), 10), parsed_int(trimmed(s.skip(at + 1)), 10)) {
            (Some(n), Some(d)) => reduced(n, d),
            _ => None,
        }
    } else {
        match split_number(s) {
            Some((m, scale)) => rational_of_decimal(Decimal { mantissa: m as i128, scale: scale as u32 }),
            None => None,
        }
    }
}

pub open spec fn rat_read(text: Seq<char>, flags: u64, group: Seq<char>, decimal: Seq<char>) -> Result<
    AhpclRational,
    FailureView,
> {
    match prepared(text, flags, group, decimal) {
        Some(s) => match fraction_read(s, flags) {
            Some(q) => Ok(AhpclRational { num: q.num, den: q.den, failed: 0 }),
            None => Err(no_number(text)),
        },
        None => Err(no_number(text)),
    }
}

// ── reading ─────────────────────────────────────────────────────────────────

fn begins_at(s: &Vec<char>, i: usize, p: &Vec<char>) -> (r: bool)
    requires
        i <= s@.len(),
    ensures
        r == starts_with(s@.skip(i as int), p@),
{
    if p.len() > s.len() - i {
        return false;
    }
    let ghost rest = s@.skip(i as int);
    let mut k: usize = 0;
    while k < p.len()
        invariant
            k <= p.len() <= s.len() - i,
            rest == s@.skip(i as int),
            forall|j: int| 0 <= j < k ==> rest[j] == #[trigger] p@[j],
        decreases p.len() - k,
    {
        if s[i + k] != p[k] {
            proof {
                assert(rest.take(p@.len() as int)[k as int] != p@[k as int]);
            }
            return false;
        }
        k = k + 1;
    }
    assert(rest.take(p@.len() as int) =~= p@);
    true
}

fn replace_all(s: &Vec<char>, pattern: &Vec<char>, with: &Vec<char>) -> (r: Vec<char>)
    ensures
        r@ == replaced(s@, pattern@, with@),
{
    let mut out: Vec<char> = Vec::new();
    let mut i: usize = 0;
    assert(s@.skip(0) =~= s@);
    assert(Seq::<char>::empty() + replaced(s@, pattern@, with@) =~= replaced(s@, pattern@, with@));
    while i < s.len()
        invariant
            i <= s.len(),
            replaced(s@, pattern@, with@) == out@ + replaced(s@.skip(i as int), pattern@, with@),
        decreases s.len() - i,
    {
        let ghost rest = s@.skip(i as int);
        if pattern.len() > 0 && begins_at(s, i, pattern) {
            let ghost before = out@;
            let mut k: usize = 0;
            assert(with@.take(0) =~= Seq::empty());
            assert(before + Seq::<char>::empty() =~= before);
            while k < with.len()
                invariant
                    k <= with.len(),
                    out@ == before + with@.take(k as int),
                decreases with.len() - k,
            {
                out.push(with[k]);
                k = k + 1;
                assert(out@ =~= before + with@.take(k as int));
            }
            proof {
                assert(with@.take(with@.len() as int) =~= with@);
                assert(rest.skip(pattern@.len() as int) =~= s@.skip(i + pattern@.len()));
                let tail = replaced(s@.skip(i + pattern@.len()), pattern@, with@);
                assert(before + (with@ + tail) =~= before + with@ + tail);
            }
            i = i + pattern.len();
        } else {
            let ghost before = out@;
            out.push(s[i]);
            proof {
                assert(rest.skip(1) =~= s@.skip(i as int + 1));
                if pattern@.len() == 0 {
                    let tail = s@.skip(i as int + 1);
                    assert(before + rest =~= before.push(s@[i as int]) + tail);
                } else {
                    let tail = replaced(s@.skip(i as int + 1), pattern@, with@);
                    assert(before + (seq![rest[0]] + tail) =~= before.push(s@[i as int]) + tail);
                }
            }
            i = i + 1;
        }
    }
    assert(out@ + replaced(s@.skip(i as int), pattern@, with@) =~= out@);
    out
}

fn strip_all(s: Vec<char>, pattern: &Vec<char>) -> (r: Vec<char>)
    ensures
        r@ == stripped(s@, pattern@),
{
    let mut i: usize = 0;
    assert(s@.skip(0) =~= s@);
    while pattern.len() > 0 && begins_at(&s, i, pattern)
        invariant
            i <= s@.len(),
            stripped(s@, pattern@) == stripped(s@.skip(i as int), pattern@),
        decreases s@.len() - i,
    {
        assert(s@.skip(i as int).skip(pattern@.len() as int) =~= s@.skip(i + pattern@.len()));
        assert(s@.len() == s.len());
        i = i + pattern.len();
    }
    let rest: &[char] = slice_subrange(s.as_slice(), i, s.len());
    assert(rest@ =~= s@.skip(i as int));
    chars_of(text_of(rest).as_str())
}

/// Split `12.34` into mantissa 1234 and scale 2.
pub fn split_decimal(s: &Vec<char>) -> (r: Option<(i128, u32)>)
    ensures
        match r {
            Some((m, scale)) => split_number(s@) == Some((m as int, scale as nat)),
            None => split_number(s@) is None,
        },
{
    let at: usize = find_char(s.as_slice(), '.');
    if at >= s.len() {
        return match read_int(s.as_slice(), 10) {
            Some(n) => Some((n, 0)),
            None => None,
        };
    }
    let mut joined: Vec<char> = Vec::new();
    let ghost frac = s@.skip(at as int + 1);
    let ghost whole = s@.take(at as int) + frac;
    let mut i: usize = 0;
    while i < s.len()
        invariant
            i <= s.len(),
            at < s.len(),
            frac == s@.skip(at as int + 1),
            whole == s@.take(at as int) + frac,
            joined@ == whole.take(if i <= at { i as int } else { i as int - 1 }),
        decreases s.len() - i,
    {
        if i != at {
            joined.push(s[i]);
        }
        i = i + 1;
        assert(joined@ =~= whole.take(if i <= at { i as int } else { i as int - 1 }));
    }
    assert(whole.take(whole.len() as int) =~= whole);
    let from: usize = if joined.len() > 0 && joined[0] == '+' {
        1
    } else {
        0
    };
    let body: &[char] = slice_subrange(joined.as_slice(), from, joined.len());
    assert(body@ =~= if from == 1 { whole.skip(1) } else { whole });
    let places: usize = s.len() - at - 1;
    match read_int(body, 10) {
        Some(n) => Some((n, (places as u64 % 0x1_0000_0000) as u32)),
        None => None,
    }
}

fn shift(m: i128, scale: u32, exp: i128) -> (r: Option<Vec<char>>)
    requires
        i32::MIN <= exp <= i32::MAX,
    ensures
        match r {
            Some(t) => shifted_text(m as int, scale as nat, exp as int) == Some(t@),
            None => shifted_text(m as int, scale as nat, exp as int) is None,
        },
{
    let s: i128 = scale as i128 - exp;
    if s <= 0 {
        match pow10((-s) as u32) {
            Some(p) => match m.checked_mul(p) {
                Some(v) => Some(chars_of(i128_text(v).as_str())),
                None => None,
            },
            None => None,
        }
    } else if s <= 0xffff_ffff {
        Some(chars_of(Decimal::new(m, s as u32).text().as_str()))
    } else {
        None
    }
}

fn scientific(s: &Vec<char>, at: usize) -> (r: Option<Vec<char>>)
    requires
        at == exponent_at(s@),
        at < s@.len(),
    ensures
        match r {
            Some(t) => scientific_text(s@) == Some(t@),
            None => scientific_text(s@) is None,
        },
{
    assert(s@.len() == s.len());
    let before: &[char] = slice_subrange(s.as_slice(), 0, at);
    let after: &[char] = slice_subrange(s.as_slice(), at + 1, s.len());
    assert(before@ =~= s@.take(at as int));
    assert(after@ =~= s@.skip(at as int + 1));
    let exp: i128 = match read_int(after, 10) {
        Some(e) => e,
        None => {
            return None;
        },
    };
    let head: Vec<char> = chars_of(text_of(before).as_str());
    match split_decimal(&head) {
        Some((m, scale)) => if -2147483648 <= exp && exp <= 2147483647 {
            shift(m, scale, exp)
        } else {
            None
        },
        None => None,
    }
}

/// Normalise text under the parse options, or `None` if the options reject it.
pub fn parse_prepare(text: &str, flags: u64, group: &str, decimal: &str) -> (r: Option<Vec<char>>)
    ensures
        match r {
            Some(s) => prepared(text@, flags, group@, decimal@) == Some(s@),
            None => prepared(text@, flags, group@, decimal@) is None,
        },
{
    let all: Vec<char> = chars_of(text);
    let a: Vec<char> = if flags & PARSE_TRIM != 0 {
        trim_chars(all.as_slice())
    } else {
        all
    };
    let b: Vec<char> = if flags & PARSE_UNICODE_DIGITS != 0 {
        let mut out: Vec<char> = Vec::new();
        let mut i: usize = 0;
        while i < a.len()
            invariant
                i <= a.len(),
                out@.len() == i,
                forall|k: int| 0 <= k < i ==> #[trigger] out@[k] == ascii_digits(a@)[k],
            decreases a.len() - i,
        {
            out.push(unicode_digit_to_ascii(a[i]));
            i = i + 1;
        }
        assert(out@ =~= ascii_digits(a@));
        out
    } else {
        a
    };
    let none: Vec<char> = Vec::new();
    assert(none@ =~= Seq::empty());
    let g: Vec<char> = chars_of(group);
    let c: Vec<char> = replace_all(&b, &g, &none);
    let p: Vec<char> = chars_of(decimal);
    let mut point: Vec<char> = Vec::new();
    point.push('.');
    assert(point@ =~= seq!['.']);
    let is_point: bool = p.len() == 1 && p[0] == '.';
    proof {
        assert(is_point == (p@ == seq!['.'])) by {
            if is_point {
                assert(p@ =~= seq!['.']);
            }
        }
    }
    let d: Vec<char> = if is_point {
        c
    } else {
        replace_all(&c, &p, &point)
    };
    if flags & PARSE_HEX != 0 {
        let low: Vec<char> = chars_of("0x");
        let high: Vec<char> = chars_of("0X");
        let body: Vec<char> = strip_all(strip_all(d, &low), &high);
        return match read_int(body.as_slice(), 16) {
            Some(n) => Some(chars_of(i128_text(n).as_str())),
            None => None,
        };
    }
    if flags & PARSE_SCIENTIFIC != 0 {
        let lower: usize = find_char(d.as_slice(), 'e');
        let upper: usize = find_char(d.as_slice(), 'E');
        let at: usize = if lower <= upper {
            lower
        } else {
            upper
        };
        if at < d.len() {
            return scientific(&d, at);
        }
    }
    Some(d)
}

fn parse_failure(text: &str) -> (r: Failure)
    ensures
        r@ == no_number(text@),
{
    fail_with("AHPCL-RUN-0004", cat3("'", text, "' is not a number").as_str())
}

pub fn ahpcl_parse_int(text: &str, flags: u64, group: &str, decimal: &str) -> (r: Result<i128, Failure>)
    ensures
        outcome(r) == int_read(text@, flags, group@, decimal@),
{
    if let Some(s) = parse_prepare(text, flags, group, decimal) {
        if let Some(n) = read_int(s.as_slice(), 10) {
            return Ok(n);
        }
    }
    Err(parse_failure(text))
}

pub fn ahpcl_parse_deci(text: &str, flags: u64, group: &str, decimal: &str) -> (r: Result<AhpclDecimal, Failure>)
    ensures
        outcome(r) == deci_read(text@, flags, group@, decimal@),
{
    if let Some(s) = parse_prepare(text, flags, group, decimal) {
        if let Some((m, scale)) = split_decimal(&s) {
            return Ok(AhpclDecimal::ok(m, scale));
        }
    }
    Err(parse_failure(text))
}

fn read_fraction(s: &Vec<char>, flags: u64) -> (r: Option<Rational>)
    ensures
        r == fraction_read(s@, flags),
{
    if flags & PARSE_FRACTION != 0 {
        let at: usize = find_char(s.as_slice(), '/');
        if at < s.len() {
            let before: &[char] = slice_subrange(s.as_slice(), 0, at);
            let after: &[char] = slice_subrange(s.as_slice(), at + 1, s.len());
            assert(before@ =~= s@.take(at as int));
            assert(after@ =~= s@.skip(at as int + 1));
            let n: Option<i128> = read_int(trim_chars(before).as_slice(), 10);
            let d: Option<i128> = read_int(trim_chars(after).as_slice(), 10);
            return match (n, d) {
                (Some(n), Some(d)) => Rational::new(n, d),
                _ => None,
            };
        }
    }
    match split_decimal(s) {
        Some((m, scale)) => Rational::from_decimal(Decimal::new(m, scale)),
        None => None,
    }
}

pub fn ahpcl_parse_rat(text: &str, flags: u64, group: &str, decimal: &str) -> (r: Result<AhpclRational, Failure>)
    ensures
        outcome(r) == rat_read(text@, flags, group@, decimal@),
{
    if let Some(s) = parse_prepare(text, flags, group, decimal) {
        if let Some(q) = read_fraction(&s, flags) {
            return Ok(AhpclRational { num: q.num, den: q.den, failed: 0 });
        }
    }
    Err(parse_failure(text))
}

} // verus!
