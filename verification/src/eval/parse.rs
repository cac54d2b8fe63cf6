//! Reading numbers out of text, under the options that `parse` takes.

use vstd::prelude::*;
use vstd::slice::slice_subrange;
use vstd::string::*;

use crate::eval::decimal::{
    decimal_product, decimal_quotient, first_index, parsed_decimal, pow10, ten, Decimal,
};
use crate::eval::numeric::{coerce, coerced, Numeric};
use crate::eval::rational::{reduced, Rational};
use crate::eval::value::{Val, Value};
use crate::text::{chars_of, digit_char, fits, same_text, text_of, trim_chars, trim_end, trim_start, trimmed};

verus! {

/// The options a `parse` call may carry. Strict by default; each option is opted into
/// at the call site rather than set by a build flag, so the same source always means
/// the same thing.
#[derive(Debug, Clone, Copy)]
pub struct ParseOptions {
    pub trim: bool,
    pub scientific: bool,
    pub hex: bool,
    pub unicode_digits: bool,
    /// Whether `n/d` is read as a fraction.
    pub fraction: bool,
    /// Which character separates thousands, when one is declared.
    pub group: Option<char>,
    /// Which character is the decimal point, when it is not `.`.
    pub decimal: Option<char>,
}

// ── the options ─────────────────────────────────────────────────────────────

/// Nothing opted into.
pub open spec fn strict() -> ParseOptions {
    ParseOptions {
        trim: false,
        scientific: false,
        hex: false,
        unicode_digits: false,
        fraction: false,
        group: None,
        decimal: None,
    }
}

/// The first character of an option's text.
pub open spec fn first_char(value: Option<Seq<char>>) -> Option<char> {
    match value {
        Some(t) => if t.len() > 0 {
            Some(t[0])
        } else {
            None
        },
        None => None,
    }
}

/// The options with one more of them set. A name that stands for none changes nothing.
pub open spec fn with_option(o: ParseOptions, name: Seq<char>, value: Option<Seq<char>>) -> ParseOptions {
    if name == "trim"@ {
        ParseOptions { trim: true, ..o }
    } else if name == "scientific"@ {
        ParseOptions { scientific: true, ..o }
    } else if name == "hex"@ {
        ParseOptions { hex: true, ..o }
    } else if name == "unicode-digits"@ {
        ParseOptions { unicode_digits: true, ..o }
    } else if name == "fraction"@ {
        ParseOptions { fraction: true, ..o }
    } else if name == "group"@ {
        ParseOptions { group: first_char(value), ..o }
    } else if name == "decimal"@ {
        ParseOptions { decimal: first_char(value), ..o }
    } else {
        o
    }
}

// ── text ────────────────────────────────────────────────────────────────────

/// A text without one character.
pub open spec fn without(s: Seq<char>, c: char) -> Seq<char>
    decreases s.len(),
{
    if s.len() == 0 {
        s
    } else if s.last() == c {
        without(s.drop_last(), c)
    } else {
        without(s.drop_last(), c).push(s.last())
    }
}

/// A text with one character in place of another.
pub open spec fn with_char(s: Seq<char>, from: char, to: char) -> Seq<char> {
    Seq::new(
        s.len(),
        |i: int|
            if s[i] == from {
                to
            } else {
                s[i]
            },
    )
}

/// The start of the block of ten decimal digits that a code point lies in.
///
/// Each block is ten consecutive code points in value order, which is what the Unicode
/// standard guarantees for the Nd category.
pub open spec fn digit_block(u: int) -> Option<int> {
    if 0x0660 <= u < 0x0660 + 10 {
        Some(0x0660)
    } else if 0x06F0 <= u < 0x06F0 + 10 {
        Some(0x06F0)
    } else if 0x0966 <= u < 0x0966 + 10 {
        Some(0x0966)
    } else if 0x09E6 <= u < 0x09E6 + 10 {
        Some(0x09E6)
    } else if 0x0A66 <= u < 0x0A66 + 10 {
        Some(0x0A66)
    } else if 0x0AE6 <= u < 0x0AE6 + 10 {
        Some(0x0AE6)
    } else if 0x0B66 <= u < 0x0B66 + 10 {
        Some(0x0B66)
    } else if 0x0BE6 <= u < 0x0BE6 + 10 {
        Some(0x0BE6)
    } else if 0x0C66 <= u < 0x0C66 + 10 {
        Some(0x0C66)
    } else if 0x0CE6 <= u < 0x0CE6 + 10 {
        Some(0x0CE6)
    } else if 0x0D66 <= u < 0x0D66 + 10 {
        Some(0x0D66)
    } else if 0x0E50 <= u < 0x0E50 + 10 {
        Some(0x0E50)
    } else if 0x0ED0 <= u < 0x0ED0 + 10 {
        Some(0x0ED0)
    } else if 0x0F20 <= u < 0x0F20 + 10 {
        Some(0x0F20)
    } else if 0x1040 <= u < 0x1040 + 10 {
        Some(0x1040)
    } else if 0x17E0 <= u < 0x17E0 + 10 {
        Some(0x17E0)
    } else if 0xFF10 <= u < 0xFF10 + 10 {
        Some(0xFF10)
    } else {
        None
    }
}

/// A Unicode decimal digit as the ASCII digit of the same value; anything else as it is.
pub open spec fn ascii_digit(c: char) -> char {
    match digit_block(c as int) {
        Some(b) => digit_char(c as int - b),
        None => c,
    }
}

pub open spec fn ascii_digits(s: Seq<char>) -> Seq<char> {
    Seq::new(s.len(), |i: int| ascii_digit(s[i]))
}

/// The text that is left once the textual options have been applied.
pub open spec fn normalised_text(o: ParseOptions, text: Seq<char>) -> Seq<char> {
    let a = if o.trim {
        trimmed(text)
    } else {
        text
    };
    let b = match o.group {
        Some(c) => without(a, c),
        None => a,
    };
    let c = match o.decimal {
        Some(p) => if p != '.' {
            with_char(b, p, '.')
        } else {
            b
        },
        None => b,
    };
    if o.unicode_digits {
        ascii_digits(c)
    } else {
        c
    }
}

// ── whole numbers ───────────────────────────────────────────────────────────

/// The value of a digit in a base of at most sixteen.
pub open spec fn radix_digit(c: char, radix: int) -> Option<int> {
    let u = c as int;
    let v = if '0' as int <= u <= '9' as int {
        u - '0' as int
    } else if 'a' as int <= u <= 'f' as int {
        u - 'a' as int + 10
    } else if 'A' as int <= u <= 'F' as int {
        u - 'A' as int + 10
    } else {
        99
    };
    if v < radix {
        Some(v)
    } else {
        None
    }
}

/// The number that a run of digits spells in a base.
pub open spec fn radix_value(s: Seq<char>, radix: int) -> Option<int>
    decreases s.len(),
{
    if s.len() == 0 {
        Some(0)
    } else {
        match (radix_value(s.drop_last(), radix), radix_digit(s.last(), radix)) {
            (Some(v), Some(d)) => Some(v * radix + d),
            _ => None,
        }
    }
}

/// The whole number that a text spells: an optional sign, then at least one digit, and a
/// value that fits.
pub open spec fn parsed_int(s: Seq<char>, radix: int) -> Option<int> {
    let signed = s.len() > 0 && (s[0] == '-' || s[0] == '+');
    let body = if signed {
        s.skip(1)
    } else {
        s
    };
    if body.len() == 0 {
        None
    } else {
        match radix_value(body, radix) {
            Some(v) => {
                let n = if s[0] == '-' {
                    -v
                } else {
                    v
                };
                if fits(n) {
                    Some(n)
                } else {
                    None
                }
            },
            None => None,
        }
    }
}

// ── numbers ─────────────────────────────────────────────────────────────────

/// Where a text first has `e` or `E`.
pub open spec fn exponent_at(s: Seq<char>) -> int {
    let a = first_index(s, 'e');
    let b = first_index(s, 'E');
    if a <= b {
        a
    } else {
        b
    }
}

pub open spec fn hex_body(s: Seq<char>) -> Seq<char> {
    if s.len() >= 2 && s[0] == '0' && (s[1] == 'x' || s[1] == 'X') {
        s.skip(2)
    } else {
        s
    }
}

/// A decimal times a power of ten, divided to at most thirty places where the power is
/// below zero.
pub open spec fn shifted(base: Decimal, exp: int) -> Option<Decimal> {
    let e = if exp >= 0 {
        exp
    } else {
        -exp
    };
    if !fits(ten(e as nat)) {
        None
    } else {
        let p = Decimal { mantissa: ten(e as nat) as i128, scale: 0 };
        if exp >= 0 {
            decimal_product(base, p)
        } else {
            decimal_quotient(base, p, 30)
        }
    }
}

/// The decimal that a text spells with nothing around it.
pub open spec fn strict_decimal(s: Seq<char>) -> Option<Decimal> {
    if trimmed(s) == s {
        parsed_decimal(s)
    } else {
        None
    }
}

pub open spec fn scientific_number(s: Seq<char>) -> Option<Decimal> {
    let at = exponent_at(s);
    match (strict_decimal(s.take(at)), parsed_int(s.skip(at + 1), 10)) {
        (Some(base), Some(exp)) => if i32::MIN <= exp <= i32::MAX {
            shifted(base, exp)
        } else {
            None
        },
        _ => None,
    }
}

/// The number a prepared text spells, under the options that name its form.
pub open spec fn number_in(o: ParseOptions, s: Seq<char>) -> Option<Decimal> {
    if o.hex {
        match parsed_int(hex_body(s), 16) {
            Some(n) => Some(Decimal { mantissa: n as i128, scale: 0 }),
            None => None,
        }
    } else if o.scientific && exponent_at(s) < s.len() {
        scientific_number(s)
    } else {
        strict_decimal(s)
    }
}

/// The fraction that a text spells as `n/d`.
pub open spec fn fraction_in(s: Seq<char>) -> Option<Rational> {
    let at = first_index(s, '/');
    match (parsed_int(trimmed(s.take(at)), 10), parsed_int(trimmed(s.skip(at + 1)), 10)) {
        (Some(n), Some(d)) => reduced(n, d),
        _ => None,
    }
}

/// What `parse` reads out of a text.
pub open spec fn value_in(o: ParseOptions, text: Seq<char>, hint: Option<Numeric>) -> Option<Val> {
    let s = normalised_text(o, text);
    if o.fraction && first_index(s, '/') < s.len() {
        match fraction_in(s) {
            Some(r) => Some(Val::Rat(r)),
            None => None,
        }
    } else {
        match number_in(o, s) {
            Some(d) => Some(coerced(Val::Deci(d), hint)),
            None => None,
        }
    }
}

// ── reading ─────────────────────────────────────────────────────────────────

pub open spec fn text_in(value: Option<&str>) -> Option<Seq<char>> {
    match value {
        Some(t) => Some(t@),
        None => None,
    }
}

fn leading(value: Option<&str>) -> (r: Option<char>)
    ensures
        r == first_char(text_in(value)),
{
    match value {
        Some(t) => if t.is_empty() {
            None
        } else {
            Some(t.get_char(0))
        },
        None => None,
    }
}

pub fn unicode_digit_to_ascii(c: char) -> (r: char)
    ensures
        r == ascii_digit(c),
{
    let u: u32 = c as u32;
    let base: u32 = if 0x0660 <= u && u < 0x066A {
        0x0660
    } else if 0x06F0 <= u && u < 0x06FA {
        0x06F0
    } else if 0x0966 <= u && u < 0x0970 {
        0x0966
    } else if 0x09E6 <= u && u < 0x09F0 {
        0x09E6
    } else if 0x0A66 <= u && u < 0x0A70 {
        0x0A66
    } else if 0x0AE6 <= u && u < 0x0AF0 {
        0x0AE6
    } else if 0x0B66 <= u && u < 0x0B70 {
        0x0B66
    } else if 0x0BE6 <= u && u < 0x0BF0 {
        0x0BE6
    } else if 0x0C66 <= u && u < 0x0C70 {
        0x0C66
    } else if 0x0CE6 <= u && u < 0x0CF0 {
        0x0CE6
    } else if 0x0D66 <= u && u < 0x0D70 {
        0x0D66
    } else if 0x0E50 <= u && u < 0x0E5A {
        0x0E50
    } else if 0x0ED0 <= u && u < 0x0EDA {
        0x0ED0
    } else if 0x0F20 <= u && u < 0x0F2A {
        0x0F20
    } else if 0x1040 <= u && u < 0x104A {
        0x1040
    } else if 0x17E0 <= u && u < 0x17EA {
        0x17E0
    } else if 0xFF10 <= u && u < 0xFF1A {
        0xFF10
    } else {
        return c;
    };
    (48 + (u - base) as u8) as char
}

fn digit_in(c: char, radix: u32) -> (r: Option<u32>)
    requires
        radix <= 16,
    ensures
        match r {
            Some(v) => radix_digit(c, radix as int) == Some(v as int) && v < radix,
            None => radix_digit(c, radix as int) is None,
        },
{
    let u: u32 = c as u32;
    let v: u32 = if 48 <= u && u <= 57 {
        u - 48
    } else if 97 <= u && u <= 102 {
        u - 87
    } else if 65 <= u && u <= 70 {
        u - 55
    } else {
        99
    };
    if v < radix {
        Some(v)
    } else {
        None
    }
}

/// What digits spell so far decides whether the whole can still fit.
proof fn lemma_radix_grows(s: Seq<char>, k: int, radix: int)
    requires
        2 <= radix <= 16,
        0 <= k <= s.len(),
        radix_value(s, radix) is Some,
    ensures
        radix_value(s.take(k), radix) is Some,
        0 <= radix_value(s.take(k), radix)->0 <= radix_value(s, radix)->0,
    decreases s.len(),
{
    if k == s.len() {
        assert(s.take(k) =~= s);
        lemma_radix_sign(s, radix);
    } else {
        lemma_radix_grows(s.drop_last(), k, radix);
        assert(s.drop_last().take(k) =~= s.take(k));
        let v = radix_value(s.drop_last(), radix)->0;
        assert(v * radix >= v) by (nonlinear_arith)
            requires
                v >= 0,
                radix >= 2,
        ;
    }
}

proof fn lemma_radix_sign(s: Seq<char>, radix: int)
    requires
        2 <= radix <= 16,
        radix_value(s, radix) is Some,
    ensures
        radix_value(s, radix)->0 >= 0,
    decreases s.len(),
{
    if s.len() > 0 {
        lemma_radix_sign(s.drop_last(), radix);
        let v = radix_value(s.drop_last(), radix)->0;
        assert(v * radix >= 0) by (nonlinear_arith)
            requires
                v >= 0,
                radix >= 2,
        ;
    }
}

/// Read a whole number in base ten or sixteen.
pub fn read_int(s: &[char], radix: u32) -> (r: Option<i128>)
    requires
        2 <= radix <= 16,
    ensures
        match r {
            Some(n) => parsed_int(s@, radix as int) == Some(n as int),
            None => parsed_int(s@, radix as int) is None,
        },
{
    if s.len() == 0 {
        return None;
    }
    let negative: bool = s[0] == '-';
    let from: usize = if s[0] == '-' || s[0] == '+' {
        1
    } else {
        0
    };
    if from == s.len() {
        assert(s@.skip(1).len() == 0);
        return None;
    }
    let ghost body = s@.skip(from as int);
    assert(s@.skip(0) =~= s@);
    let mut acc: i128 = 0;
    let mut i: usize = from;
    assert(body.take(0) =~= Seq::<char>::empty());
    while i < s.len()
        invariant
            from <= i <= s.len(),
            2 <= radix <= 16,
            s@.len() > 0,
            from == (if s@[0] == '-' || s@[0] == '+' { 1int } else { 0int }),
            from < s.len(),
            negative == (s@[0] == '-'),
            body == s@.skip(from as int),
            body == (if s@[0] == '-' || s@[0] == '+' { s@.skip(1) } else { s@ }),
            match radix_value(body.take(i - from), radix as int) {
                Some(v) => acc == if negative { -v } else { v },
                None => false,
            },
        decreases s.len() - i,
    {
        let ghost k = i - from;
        proof {
            let t = body.take(k + 1);
            assert(t.drop_last() =~= body.take(k));
            assert(t.last() == s@[i as int]);
            if radix_value(body, radix as int) is Some {
                lemma_radix_grows(body, k + 1, radix as int);
            }
            lemma_radix_sign(body.take(k), radix as int);
        }
        let d: u32 = match digit_in(s[i], radix) {
            Some(d) => d,
            None => {
                return None;
            },
        };
        let m: i128 = match acc.checked_mul(radix as i128) {
            Some(m) => m,
            None => {
                proof {
                    let v = radix_value(body.take(k), radix as int)->0;
                    let r = radix as int;
                    assert((-v) * r == -(v * r)) by (nonlinear_arith);
                }
                return None;
            },
        };
        proof {
            let v = radix_value(body.take(k), radix as int)->0;
            let r = radix as int;
            assert((-v) * r == -(v * r)) by (nonlinear_arith);
        }
        let next: Option<i128> = if negative {
            m.checked_sub(d as i128)
        } else {
            m.checked_add(d as i128)
        };
        match next {
            Some(v) => {
                acc = v;
            },
            None => {
                return None;
            },
        }
        i = i + 1;
    }
    assert(body.take(body.len() as int) =~= body);
    Some(acc)
}

/// Where a character first stands; the length where it does not.
pub fn find_char(t: &[char], c: char) -> (r: usize)
    ensures
        r == first_index(t@, c),
        r <= t.len(),
{
    let mut i: usize = 0;
    assert(t@.skip(0) =~= t@);
    while i < t.len() && t[i] != c
        invariant
            i <= t.len(),
            first_index(t@, c) == i + first_index(t@.skip(i as int), c),
        decreases t.len() - i,
    {
        assert(t@.skip(i as int).skip(1) =~= t@.skip(i as int + 1));
        i = i + 1;
    }
    i
}

/// Trimming that takes nothing away leaves the text as it is.
proof fn lemma_trimmed_whole(s: Seq<char>)
    requires
        trimmed(s).len() == s.len(),
    ensures
        trimmed(s) == s,
{
    lemma_trim_start_len(s);
    lemma_trim_end_len(trim_start(s));
}

proof fn lemma_trim_start_len(s: Seq<char>)
    ensures
        trim_start(s).len() <= s.len(),
        trim_start(s).len() == s.len() ==> trim_start(s) == s,
    decreases s.len(),
{
    if s.len() > 0 {
        lemma_trim_start_len(s.skip(1));
    }
}

proof fn lemma_trim_end_len(s: Seq<char>)
    ensures
        trim_end(s).len() <= s.len(),
        trim_end(s).len() == s.len() ==> trim_end(s) == s,
    decreases s.len(),
{
    if s.len() > 0 {
        lemma_trim_end_len(s.drop_last());
    }
}

fn read_decimal(s: &[char]) -> (r: Option<Decimal>)
    ensures
        r == strict_decimal(s@),
{
    let inner: Vec<char> = trim_chars(s);
    if inner.len() != s.len() {
        return None;
    }
    proof {
        lemma_trimmed_whole(s@);
    }
    Decimal::parse(text_of(s).as_str())
}

impl ParseOptions {
    pub fn new() -> (r: ParseOptions)
        ensures
            r == strict(),
    {
        ParseOptions {
            trim: false,
            scientific: false,
            hex: false,
            unicode_digits: false,
            fraction: false,
            group: None,
            decimal: None,
        }
    }

    pub fn set(&mut self, name: &str, value: Option<&str>)
        ensures
            *final(self) == with_option(*old(self), name@, text_in(value)),
    {
        if same_text(name, "trim") {
            self.trim = true;
        } else if same_text(name, "scientific") {
            self.scientific = true;
        } else if same_text(name, "hex") {
            self.hex = true;
        } else if same_text(name, "unicode-digits") {
            self.unicode_digits = true;
        } else if same_text(name, "fraction") {
            self.fraction = true;
        } else if same_text(name, "group") {
            self.group = leading(value);
        } else if same_text(name, "decimal") {
            self.decimal = leading(value);
        }
    }

    /// Apply the textual options, leaving something that can be read as a number.
    ///
    /// `group` and `decimal` are what make `"1,000"` unambiguous: it means one thousand
    /// in Britain and *one* in Germany, so the convention has to be stated rather than
    /// guessed.
    pub fn normalise(&self, text: &str) -> (r: Vec<char>)
        ensures
            r@ == normalised_text(*self, text@),
    {
        let all: Vec<char> = chars_of(text);
        let a: Vec<char> = if self.trim {
            trim_chars(all.as_slice())
        } else {
            all
        };
        let mut out: Vec<char> = Vec::new();
        let mut i: usize = 0;
        let ghost b = match self.group {
            Some(c) => without(a@, c),
            None => a@,
        };
        let ghost kept = |k: int| match self.group {
            Some(c) => without(a@.take(k), c),
            None => a@.take(k),
        };
        assert(a@.take(0) =~= Seq::<char>::empty());
        while i < a.len()
            invariant
                i <= a.len(),
                kept == (|k: int| match self.group {
                    Some(c) => without(a@.take(k), c),
                    None => a@.take(k),
                }),
                out@ == kept(i as int),
            decreases a.len() - i,
        {
            let c: char = a[i];
            let drop: bool = match self.group {
                Some(g) => c == g,
                None => false,
            };
            proof {
                assert(a@.take(i as int + 1).drop_last() =~= a@.take(i as int));
                assert(a@.take(i as int + 1) =~= a@.take(i as int).push(c));
            }
            if !drop {
                out.push(c);
            }
            i = i + 1;
        }
        assert(a@.take(a@.len() as int) =~= a@);
        assert(out@ == b);
        let mut done: Vec<char> = Vec::new();
        let ghost c2 = match self.decimal {
            Some(p) => if p != '.' {
                with_char(b, p, '.')
            } else {
                b
            },
            None => b,
        };
        let mut j: usize = 0;
        let ghost whole = normalised_text(*self, text@);
        while j < out.len()
            invariant
                j <= out.len(),
                out@ == b,
                c2 == (match self.decimal {
                    Some(p) => if p != '.' {
                        with_char(b, p, '.')
                    } else {
                        b
                    },
                    None => b,
                }),
                whole == (if self.unicode_digits {
                    ascii_digits(c2)
                } else {
                    c2
                }),
                done@.len() == j,
                forall|k: int| 0 <= k < j ==> done@[k] == whole[k],
            decreases out.len() - j,
        {
            let c: char = match self.decimal {
                Some(p) => if out[j] == p {
                    '.'
                } else {
                    out[j]
                },
                None => out[j],
            };
            assert(c == c2[j as int]);
            if self.unicode_digits {
                done.push(unicode_digit_to_ascii(c));
            } else {
                done.push(c);
            }
            j = j + 1;
        }
        assert(done@ =~= whole);
        done
    }

    pub fn parse_number(&self, text: &[char]) -> (r: Option<Decimal>)
        ensures
            r == number_in(*self, text@),
    {
        if self.hex {
            let from: usize = if text.len() >= 2 && text[0] == '0' && (text[1] == 'x' || text[1] == 'X') {
                2
            } else {
                0
            };
            let body: &[char] = slice_subrange(text, from, text.len());
            assert(body@ =~= hex_body(text@));
            return match read_int(body, 16) {
                Some(v) => Some(Decimal::from_int(v)),
                None => None,
            };
        }
        if self.scientific {
            let a: usize = find_char(text, 'e');
            let b: usize = find_char(text, 'E');
            let at: usize = if a <= b {
                a
            } else {
                b
            };
            if at < text.len() {
                let before: &[char] = slice_subrange(text, 0, at);
                let after: &[char] = slice_subrange(text, at + 1, text.len());
                assert(before@ =~= text@.take(at as int));
                assert(after@ =~= text@.skip(at as int + 1));
                let base: Decimal = match read_decimal(before) {
                    Some(d) => d,
                    None => {
                        return None;
                    },
                };
                let exp: i128 = match read_int(after, 10) {
                    Some(e) => e,
                    None => {
                        return None;
                    },
                };
                if exp < -2147483648 || exp > 2147483647 {
                    return None;
                }
                let size: u32 = if exp >= 0 {
                    exp as u32
                } else {
                    (-exp) as u32
                };
                return match pow10(size) {
                    None => None,
                    Some(p) => if exp >= 0 {
                        base.mul(Decimal::from_int(p))
                    } else {
                        base.div_exact(Decimal::from_int(p), 30)
                    },
                };
            }
        }
        read_decimal(text)
    }

    /// Read a value out of text, or nothing where the options reject it.
    pub fn read(&self, text: &str, hint: Option<Numeric>) -> (r: Option<Value>)
        ensures
            match r {
                Some(v) => value_in(*self, text@, hint) == Some(v@),
                None => value_in(*self, text@, hint) is None,
            },
    {
        let s: Vec<char> = self.normalise(text);
        if self.fraction {
            let at: usize = find_char(s.as_slice(), '/');
            if at < s.len() {
                let before: &[char] = slice_subrange(s.as_slice(), 0, at);
                let after: &[char] = slice_subrange(s.as_slice(), at + 1, s.len());
                assert(before@ =~= s@.take(at as int));
                assert(after@ =~= s@.skip(at as int + 1));
                let n: Option<i128> = read_int(trim_chars(before).as_slice(), 10);
                let d: Option<i128> = read_int(trim_chars(after).as_slice(), 10);
                return match (n, d) {
                    (Some(n), Some(d)) => match Rational::new(n, d) {
                        Some(q) => Some(Value::Rat(q)),
                        None => None,
                    },
                    _ => None,
                };
            }
        }
        match self.parse_number(s.as_slice()) {
            Some(d) => Some(coerce(Value::Deci(d), hint)),
            None => None,
        }
    }
}

} // verus!
