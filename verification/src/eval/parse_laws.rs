//! What `parse` reads, said of the numbers that texts spell.

use vstd::arithmetic::div_mod::*;
use vstd::arithmetic::mul::*;
use vstd::arithmetic::power::*;
use vstd::prelude::*;

use crate::ast::{Expr, ExprKind};
use crate::eval::decimal::{
    decimal_quotient, decimal_text, first_index, normal, places, ratio_of, remainders_fit, rounded, ten,
    Decimal,
};
use crate::eval::laws::{
    decimal_product_is_exact, decimal_quotient_is_rounded, decimal_value, lemma_even_stays_even,
    lemma_first_index, lemma_nothing_to_trim, lemma_places_even, lemma_rounded, lemma_ten_positive,
    normal_keeps_the_value, printed_decimals_read_back, reduced_is_in_lowest_terms,
};
use crate::eval::number_laws::{coercion_keeps_the_number, is_number, lemma_whole_decimal, number};
use crate::eval::numeric::Numeric;
use crate::eval::parse::{
    digit_block, exponent_at, fraction_in, hex_body, normalised_text, number_in, parsed_int, radix_digit,
    radix_value, scientific_number, strict, strict_decimal, value_in, with_option, without, ParseOptions,
};
use crate::eval::rational::reduced;
use crate::eval::semantics::options_in;
use crate::eval::value::Val;
use crate::text::{
    abs_int, all_digits, digits_value, fits, int_text, is_digit, is_space, lemma_digits_round_trip, nat_text,
    trim_end, trim_start, trimmed,
};

verus! {

// ── digits ──────────────────────────────────────────────────────────────────

pub(crate) proof fn lemma_radix_ten(s: Seq<char>)
    requires
        all_digits(s),
    ensures
        radix_value(s, 10) == Some(digits_value(s)),
    decreases s.len(),
{
    if s.len() > 0 {
        assert(all_digits(s.drop_last())) by {
            assert forall|i: int| 0 <= i < s.drop_last().len() implies is_digit(#[trigger] s.drop_last()[i]) by {
                assert(is_digit(s[i]));
            }
        }
        assert(is_digit(s[s.len() - 1]));
        lemma_radix_ten(s.drop_last());
    }
}

/// A whole number that is written down is read as itself.
pub proof fn written_whole_numbers_read_back(n: int)
    requires
        fits(n),
    ensures
        parsed_int(int_text(n), 10) == Some(n),
        trimmed(int_text(n)) == int_text(n),
        forall|i: int| 0 <= i < int_text(n).len() ==> is_digit(#[trigger] int_text(n)[i]) || int_text(n)[i] == '-',
        int_text(n).len() > 0,
{
    let m = abs_int(n);
    let t = nat_text(m);
    lemma_digits_round_trip(m);
    lemma_radix_ten(t);
    let s = int_text(n);
    assert(is_digit(t[0]) && is_digit(t[t.len() - 1]));
    if n < 0 {
        assert(s.skip(1) =~= t);
        assert(s.last() == t.last());
        assert forall|i: int| 0 <= i < s.len() implies is_digit(#[trigger] s[i]) || s[i] == '-' by {
            if i > 0 {
                assert(s[i] == t[i - 1]);
            }
        }
    }
    lemma_nothing_to_trim(s);
}

/// The digits of a number in a base up to sixteen, as letters from ten on.
pub open spec fn radix_char(d: int, upper: bool) -> char {
    if d < 10 {
        ('0' as int + d) as char
    } else if upper {
        ('A' as int + (d - 10)) as char
    } else {
        ('a' as int + (d - 10)) as char
    }
}

pub open spec fn hex_text(n: nat, upper: bool) -> Seq<char>
    decreases n,
{
    if n < 16 {
        seq![radix_char(n as int, upper)]
    } else {
        hex_text(n / 16, upper).push(radix_char((n % 16) as int, upper))
    }
}

pub(crate) proof fn lemma_hex(n: nat, upper: bool)
    ensures
        radix_value(hex_text(n, upper), 16) == Some(n as int),
        hex_text(n, upper).len() > 0,
        forall|i: int| 0 <= i < hex_text(n, upper).len() ==> radix_digit(#[trigger] hex_text(n, upper)[i], 16) is Some,
    decreases n,
{
    let t = hex_text(n, upper);
    if n < 16 {
        assert(t.drop_last() =~= Seq::<char>::empty());
        assert(radix_value(t.drop_last(), 16) == Some(0int));
    } else {
        lemma_hex(n / 16, upper);
        assert(t.drop_last() =~= hex_text(n / 16, upper));
        assert forall|i: int| 0 <= i < t.len() implies radix_digit(#[trigger] t[i], 16) is Some by {
            if i < t.len() - 1 {
                assert(t[i] == hex_text(n / 16, upper)[i]);
            }
        }
    }
}

/// A number written in hexadecimal, with or without `0x` in front, is read as itself.
pub proof fn hexadecimal_reads_back(o: ParseOptions, n: nat, upper: bool, marked: bool, hint: Option<Numeric>)
    requires
        o == (ParseOptions { hex: true, ..strict() }),
        fits(n as int),
    ensures
        value_in(
            o,
            if marked {
                "0x"@ + hex_text(n, upper)
            } else {
                hex_text(n, upper)
            },
            hint,
        ) matches Some(v) && is_number(v) && number(v) == (n as int) as real,
{
    reveal_strlit("0x");
    let t = hex_text(n, upper);
    let s = if marked {
        "0x"@ + t
    } else {
        t
    };
    lemma_hex(n, upper);
    assert(radix_digit(t[0], 16) is Some);
    if marked {
        assert(s.skip(2) =~= t);
    } else if s.len() >= 2 {
        assert(radix_digit(t[1], 16) is Some);
        assert(t[1] != 'x' && t[1] != 'X');
    }
    assert(hex_body(s) == t);
    assert(parsed_int(t, 16) == Some(n as int));
    let d = Decimal { mantissa: n as i128, scale: 0 };
    assert(number_in(o, s) == Some(d));
    coercion_keeps_the_number(Val::Deci(d), hint);
    lemma_whole_decimal(n as i128);
}

// ── plain decimals ──────────────────────────────────────────────────────────

#[verifier::spinoff_prover]
proof fn lemma_pointed(whole: Seq<char>, frac: Seq<char>)
    requires
        all_digits(whole),
        all_digits(frac),
        whole.len() > 0,
        frac.len() > 0,
    ensures
        ({
            let body = whole + seq!['.'] + frac;
            &&& first_index(body, '.') == whole.len()
            &&& body.take(whole.len() as int) == whole
            &&& body.skip(whole.len() as int + 1) == frac
            &&& body.len() == whole.len() + 1 + frac.len()
            &&& is_digit(body[0])
            &&& is_digit(body.last())
            &&& all_digits(whole + frac)
        }),
{
    let body = whole + seq!['.'] + frac;
    assert(is_digit(whole[0]));
    assert(is_digit(frac[frac.len() - 1]));
    assert(body[0] == whole[0]);
    assert(body.last() == frac.last());
    assert forall|i: int| 0 <= i < whole.len() implies whole[i] != '.' by {
        assert(is_digit(whole[i]));
    }
    assert(body =~= whole + (seq!['.'] + frac));
    lemma_first_index(whole, seq!['.'] + frac, '.');
    assert(body.take(whole.len() as int) =~= whole);
    assert(body.skip(whole.len() as int + 1) =~= frac);
    let joined = whole + frac;
    assert forall|i: int| 0 <= i < joined.len() implies is_digit(#[trigger] joined[i]) by {
        if i < whole.len() {
            assert(is_digit(whole[i]));
        } else {
            assert(is_digit(frac[i - whole.len()]));
        }
    }
}

#[verifier::spinoff_prover]
proof fn lemma_pointed_read(whole: Seq<char>, frac: Seq<char>, negative: bool, text: Seq<char>)
    requires
        all_digits(whole),
        all_digits(frac),
        whole.len() > 0,
        frac.len() > 0,
        frac.len() <= u32::MAX,
        fits(digits_value(whole + frac)),
        text == (if negative {
            seq!['-'] + (whole + seq!['.'] + frac)
        } else {
            whole + seq!['.'] + frac
        }),
    ensures
        strict_decimal(text) matches Some(d) && d.scale == frac.len() && d.mantissa == (if negative {
            -digits_value(whole + frac)
        } else {
            digits_value(whole + frac)
        }),
{
    let body = whole + seq!['.'] + frac;
    lemma_pointed(whole, frac);
    if negative {
        assert(text.skip(1) =~= body);
        assert(text.last() == body.last());
    }
    lemma_nothing_to_trim(text);
    assert(crate::eval::decimal::sign_split(text) == (negative, body));
    crate::text::lemma_digits_bound(whole + frac);
}

/// Digits with a point among them spell what the digits spell without it, divided by ten for
/// each that stands behind it.
pub proof fn a_point_divides_by_tens(whole: Seq<char>, frac: Seq<char>, negative: bool, hint: Option<Numeric>)
    requires
        all_digits(whole),
        all_digits(frac),
        whole.len() > 0,
        frac.len() > 0,
        frac.len() <= u32::MAX,
        fits(digits_value(whole + frac)),
    ensures
        ({
            let body = whole + seq!['.'] + frac;
            let text = if negative {
                seq!['-'] + body
            } else {
                body
            };
            let size = digits_value(whole + frac) as real / ten(frac.len()) as real;
            value_in(strict(), text, hint) matches Some(v) && is_number(v) && number(v) == (if negative {
                -size
            } else {
                size
            })
        }),
{
    let body = whole + seq!['.'] + frac;
    let text = if negative {
        seq!['-'] + body
    } else {
        body
    };
    lemma_pointed_read(whole, frac, negative, text);
    let d = strict_decimal(text)->0;
    assert(number_in(strict(), text) == Some(d));
    coercion_keeps_the_number(Val::Deci(d), hint);
    lemma_ten_positive(frac.len());
    crate::eval::number_laws::lemma_ratio_sign(digits_value(whole + frac), ten(frac.len()));
}

/// What is printed of a decimal is read as the same number, and nothing but a number is read.
pub proof fn printed_numbers_are_read(d: Decimal, hint: Option<Numeric>)
    requires
        normal(d).mantissa != i128::MIN,
    ensures
        value_in(strict(), decimal_text(d), hint) matches Some(v) && is_number(v) && number(v) == decimal_value(d),
{
    printed_decimals_read_back(d);
    normal_keeps_the_value(d);
    coercion_keeps_the_number(Val::Deci(normal(d)), hint);
}

/// A text with a character in it that no number has is not read without an option.
pub proof fn strangers_are_not_read(text: Seq<char>, k: int, hint: Option<Numeric>)
    requires
        0 <= k < text.len(),
        !is_digit(text[k]),
        text[k] != '.' && text[k] != '+' && text[k] != '-',
    ensures
        value_in(strict(), text, hint) is None,
{
    if trimmed(text) == text {
        let (negative, digits) = crate::eval::decimal::sign_split(text);
        let at = first_index(digits, '.');
        lemma_index_range(digits, '.');
        let j = if digits == text {
            k
        } else {
            k - 1
        };
        assert(digits[j] == text[k]);
        let frac = if at < digits.len() {
            digits.skip(at + 1)
        } else {
            Seq::<char>::empty()
        };
        let all = digits.take(at) + frac;
        if j < at {
            assert(all[j] == text[k]);
        } else if j > at {
            assert(all[j - 1] == text[k]);
        }
    }
}

pub(crate) proof fn lemma_index_range(t: Seq<char>, c: char)
    ensures
        0 <= first_index(t, c) <= t.len(),
        first_index(t, c) < t.len() ==> t[first_index(t, c)] == c,
        forall|i: int| 0 <= i < first_index(t, c) ==> t[i] != c,
    decreases t.len(),
{
    if t.len() > 0 && t[0] != c {
        lemma_index_range(t.skip(1), c);
        assert forall|i: int| 0 <= i < first_index(t, c) implies t[i] != c by {
            if i > 0 {
                assert(t.skip(1)[i - 1] == t[i]);
            }
        }
    }
}

// ── scientific notation ─────────────────────────────────────────────────────

pub(crate) proof fn lemma_exponent_at(m: Seq<char>, upper: bool, x: Seq<char>)
    requires
        forall|i: int| 0 <= i < m.len() ==> m[i] != 'e' && m[i] != 'E',
    ensures
        ({
            let s = m + seq![if upper { 'E' } else { 'e' }] + x;
            exponent_at(s) == m.len() && s.take(m.len() as int) == m && s.skip(m.len() as int + 1) == x
        }),
{
    let mark = if upper {
        'E'
    } else {
        'e'
    };
    let other = if upper {
        'e'
    } else {
        'E'
    };
    let s = m + seq![mark] + x;
    let tail = seq![mark] + x;
    assert(s =~= m + tail);
    lemma_first_index(m, tail, mark);
    lemma_index_range(s, other);
    let k = first_index(s, other);
    if k < m.len() {
        assert(s[k] == m[k]);
    }
    assert(s.take(m.len() as int) =~= m);
    assert(s.skip(m.len() as int + 1) =~= x);
}

/// `m e x` is read as m times ten to the x. Where x is below zero that is a quotient: exact
/// where it ends within thirty places, else within half a unit of the thirtieth.
pub proof fn scientific_notation_scales_by_tens(
    o: ParseOptions,
    m: Seq<char>,
    upper: bool,
    x: Seq<char>,
    base: Decimal,
    exp: int,
    hint: Option<Numeric>,
)
    requires
        o == (ParseOptions { scientific: true, ..strict() }),
        forall|i: int| 0 <= i < m.len() ==> m[i] != 'e' && m[i] != 'E',
        value_in(strict(), m, None) matches Some(v) && number(v) == decimal_value(base) && strict_decimal(m) == Some(base),
        parsed_int(x, 10) == Some(exp),
    ensures
        ({
            let r = value_in(o, m + seq![if upper { 'E' } else { 'e' }] + x, hint);
            &&& r matches Some(v) ==> is_number(v) && {
                if exp >= 0 {
                    number(v) == decimal_value(base) * ten(exp as nat) as real
                } else {
                    let p = ten((-exp) as nat) as real;
                    let off = (number(v) - decimal_value(base) / p) * ten(30) as real;
                    &&& -1 as real <= 2 as real * off <= 1 as real
                    &&& base.scale - exp <= 30 ==> number(v) * p == decimal_value(base)
                }
            }
            &&& exp >= 0 && exp <= i32::MAX && fits(ten(exp as nat)) && fits(base.mantissa * ten(exp as nat)) ==> r is Some
            &&& exp < 0 && base.scale - exp <= 30 ==> r is Some
        }),
{
    let s = m + seq![if upper { 'E' } else { 'e' }] + x;
    lemma_exponent_at(m, upper, x);
    assert(number_in(o, s) == scientific_number(s));
    let size = if exp >= 0 {
        exp
    } else {
        -exp
    };
    lemma_ten_positive(size as nat);
    lemma_ten_positive(30);
    let p = Decimal { mantissa: ten(size as nat) as i128, scale: 0 };
    if fits(ten(size as nat)) {
        lemma_whole_decimal(p.mantissa);
    }
    if exp < 0 && base.scale - exp <= 30 {
        lemma_shifted_down(base, (-exp) as nat);
    }
    if let Some(d) = number_in(o, s) {
        coercion_keeps_the_number(Val::Deci(d), hint);
        if exp >= 0 {
            decimal_product_is_exact(base, p);
        } else {
            decimal_quotient_is_rounded(base, p, 30);
            let rp = ten(size as nat) as real;
            let q = decimal_value(d);
            let b = decimal_value(base);
            if q == b / rp {
                assert(q * rp == b) by (nonlinear_arith)
                    requires
                        q == b / rp,
                        rp > 0 as real,
                ;
                let t = ten(30) as real;
                assert((0 as real) * t == 0 as real) by (nonlinear_arith);
            }
        }
    }
}

/// A decimal divided by a power of ten that leaves it within thirty places.
#[verifier::spinoff_prover]
proof fn lemma_shifted_down(base: Decimal, e: nat)
    requires
        base.scale + e <= 30,
    ensures
        fits(ten(e)),
        decimal_quotient(base, Decimal { mantissa: ten(e) as i128, scale: 0 }, 30) matches Some(r) && decimal_value(r) == decimal_value(
            base,
        ) / (ten(e) as real),
{
    let p = Decimal { mantissa: ten(e) as i128, scale: 0 };
    let j = (base.scale + e) as nat;
    lemma_ten_positive(e);
    lemma_ten_positive(j);
    lemma_ten_positive(base.scale as nat);
    lemma_pow_adds(10, e, base.scale as nat);
    lemma_pow_increases(10, e, 30);
    lemma_pow_increases(10, j, 30);
    lemma_pow_increases(10, base.scale as nat, 30);
    assert(ten(30) == 1_000_000_000_000_000_000_000_000_000_000) by {
        reveal(pow);
        lemma_ten_30();
    }
    lemma_pow0(10);
    assert(ratio_of(base, p) == Some((base.mantissa as int, ten(j))));
    let n = abs_int(base.mantissa as int) as int;
    let d = ten(j);
    lemma_places_even(n, d, 0, 30);
    let k = places(n, d, 0, 30);
    // n * 10^j is even, so no more than j places are needed
    lemma_mod_multiples_basic(n, d);
    if k > j {
        assert((n * ten(j)) % d == 0);
    }
    assert(k <= j);
    lemma_even_stays_even(n, d, k, k);
    assert((n * ten(k)) % d == 0) by {
        if k == 30 {
            assert(j == 30);
        }
    }
    lemma_rounded(n * ten(k), d);
    let m = rounded(n * ten(k), d);
    lemma_ten_positive(k);
    lemma_pow_increases(10, k, j);
    assert(0 <= m <= n) by (nonlinear_arith)
        requires
            m * d == n * ten(k),
            0 < ten(k) <= d,
            n >= 0,
    ;
    assert forall|i: nat| i < k implies (#[trigger] (n * ten(i)) % d) * 10 <= u128::MAX by {
        lemma_mod_bound(n * ten(i), d);
    }
    assert(remainders_fit(n, d, k));
    let r = decimal_quotient(base, p, 30)->0;
    lemma_exact_quotient(base, e, m, k, j, r);
}

proof fn lemma_ten_30()
    ensures
        pow(10, 30) == 1_000_000_000_000_000_000_000_000_000_000,
{
    lemma_pow1(10);
    lemma_pow_adds(10, 1, 1);
    assert(pow(10, 2) == 100);
    lemma_pow_adds(10, 2, 2);
    assert(pow(10, 4) == 10_000);
    lemma_pow_adds(10, 4, 4);
    assert(pow(10, 8) == 100_000_000);
    lemma_pow_adds(10, 8, 8);
    assert(pow(10, 16) == 10_000_000_000_000_000);
    lemma_pow_adds(10, 16, 8);
    assert(pow(10, 24) == 1_000_000_000_000_000_000_000_000);
    lemma_pow_adds(10, 24, 4);
    assert(pow(10, 28) == 10_000_000_000_000_000_000_000_000_000);
    lemma_pow_adds(10, 28, 2);
}

proof fn lemma_exact_quotient(base: Decimal, e: nat, m: int, k: nat, j: nat, r: Decimal)
    requires
        j == base.scale + e,
        r.mantissa == m || r.mantissa == -m,
        r.mantissa == (if base.mantissa < 0 { -m } else { m }),
        r.scale == k,
        m * ten(j) == abs_int(base.mantissa as int) * ten(k),
    ensures
        decimal_value(r) == decimal_value(base) / (ten(e) as real),
{
    lemma_ten_positive(e);
    lemma_ten_positive(j);
    lemma_ten_positive(k);
    lemma_ten_positive(base.scale as nat);
    lemma_pow_adds(10, e, base.scale as nat);
    let x = r.mantissa as int;
    let b = base.mantissa as int;
    assert(x * ten(j) == b * ten(k)) by (nonlinear_arith)
        requires
            m * ten(j) == abs_int(b) * ten(k),
            b < 0 ==> x == -m && abs_int(b) == -b,
            b >= 0 ==> x == m && abs_int(b) == b,
    ;
    let rx = x as real;
    let rb = b as real;
    let tj = ten(j) as real;
    let tk = ten(k) as real;
    let te = ten(e) as real;
    let ts = ten(base.scale as nat) as real;
    assert((x * ten(j)) as real == rx * tj) by (nonlinear_arith)
        requires
            rx == x as real,
            tj == ten(j) as real,
    ;
    assert((b * ten(k)) as real == rb * tk) by (nonlinear_arith)
        requires
            rb == b as real,
            tk == ten(k) as real,
    ;
    assert(tj == te * ts) by (nonlinear_arith)
        requires
            ten(j) == ten(e) * ten(base.scale as nat),
            tj == ten(j) as real,
            te == ten(e) as real,
            ts == ten(base.scale as nat) as real,
    ;
    let q = rb / ts;
    assert(q * ts == rb) by (nonlinear_arith)
        requires
            q == rb / ts,
            ts > 0 as real,
    ;
    let w = q / te;
    assert(w * te == q) by (nonlinear_arith)
        requires
            w == q / te,
            te > 0 as real,
    ;
    let v = rx / tk;
    assert(v * tk == rx) by (nonlinear_arith)
        requires
            v == rx / tk,
            tk > 0 as real,
    ;
    assert(w * tj == rb) by (nonlinear_arith)
        requires
            w * te == q,
            q * ts == rb,
            tj == te * ts,
    ;
    let z = tk * tj;
    assert(v * z == w * z) by (nonlinear_arith)
        requires
            z == tk * tj,
            v * tk == rx,
            w * tj == rb,
            rx * tj == rb * tk,
    ;
    assert(v == w) by (nonlinear_arith)
        requires
            v * z == w * z,
            z == tk * tj,
            tk > 0 as real,
            tj > 0 as real,
    ;
}

// ── fractions ───────────────────────────────────────────────────────────────

/// `n/d` is read as the fraction, where fractions are asked for and d is not zero; without
/// being asked for it is not read at all.
pub proof fn fractions_read_back(n: int, d: int, hint: Option<Numeric>)
    requires
        fits(n),
        fits(d),
    ensures
        ({
            let t = int_text(n) + seq!['/'] + int_text(d);
            let r = value_in(ParseOptions { fraction: true, ..strict() }, t, hint);
            &&& r matches Some(v) ==> v is Rat && is_number(v) && d != 0 && number(v) == n as real / d as real
            &&& d > 0 ==> r is Some
            &&& value_in(strict(), t, hint) is None
        }),
{
    let a = int_text(n);
    let b = int_text(d);
    let t = a + seq!['/'] + b;
    written_whole_numbers_read_back(n);
    written_whole_numbers_read_back(d);
    assert(t =~= a + (seq!['/'] + b));
    assert forall|i: int| 0 <= i < a.len() implies a[i] != '/' by {
        assert(is_digit(a[i]) || a[i] == '-');
    }
    lemma_first_index(a, seq!['/'] + b, '/');
    assert(t.take(a.len() as int) =~= a);
    assert(t.skip(a.len() as int + 1) =~= b);
    assert(fraction_in(t) == reduced(n, d));
    reduced_is_in_lowest_terms(n, d);
    assert(t[a.len() as int] == '/');
    strangers_are_not_read(t, a.len() as int, hint);
    if d > 0 {
        crate::eval::rational::lemma_common_divides(abs_int(n), abs_int(d));
        let g = crate::eval::rational::common(abs_int(n), abs_int(d)) as int;
        let x = abs_int(n) as int;
        let y = abs_int(d) as int;
        assert(0 <= x / g <= x && 0 <= y / g <= y) by (nonlinear_arith)
            requires
                g >= 1,
                x >= 0,
                y >= 0,
        ;
    }
}

// ── what is done to the text first ──────────────────────────────────────────

pub open spec fn all_space(s: Seq<char>) -> bool {
    forall|i: int| 0 <= i < s.len() ==> is_space(#[trigger] s[i])
}

pub(crate) proof fn lemma_trim_front(a: Seq<char>, s: Seq<char>)
    requires
        all_space(a),
    ensures
        trim_start(a + s) == trim_start(s),
    decreases a.len(),
{
    if a.len() == 0 {
        assert(a + s =~= s);
    } else {
        assert(is_space(a[0]));
        assert((a + s).skip(1) =~= a.skip(1) + s);
        assert(all_space(a.skip(1))) by {
            assert forall|i: int| 0 <= i < a.skip(1).len() implies is_space(#[trigger] a.skip(1)[i]) by {
                assert(is_space(a[i + 1]));
            }
        }
        lemma_trim_front(a.skip(1), s);
    }
}

pub(crate) proof fn lemma_trim_back(s: Seq<char>, b: Seq<char>)
    requires
        all_space(b),
    ensures
        trim_end(s + b) == trim_end(s),
    decreases b.len(),
{
    if b.len() == 0 {
        assert(s + b =~= s);
    } else {
        assert(is_space(b[b.len() - 1]));
        assert((s + b).drop_last() =~= s + b.drop_last());
        assert(all_space(b.drop_last())) by {
            assert forall|i: int| 0 <= i < b.drop_last().len() implies is_space(#[trigger] b.drop_last()[i]) by {
                assert(is_space(b[i]));
            }
        }
        lemma_trim_back(s, b.drop_last());
    }
}

/// White space around a text is nothing to `trim`; without it, such a text is not read.
pub proof fn trimming_drops_the_space_around(a: Seq<char>, s: Seq<char>, b: Seq<char>, hint: Option<Numeric>)
    requires
        all_space(a),
        all_space(b),
        s.len() > 0,
        !is_space(s[0]),
        !is_space(s.last()),
    ensures
        value_in(ParseOptions { trim: true, ..strict() }, a + s + b, hint) == value_in(strict(), s, hint),
        a.len() + b.len() > 0 ==> value_in(strict(), a + s + b, hint) is None,
{
    let t = a + s + b;
    assert(t =~= a + (s + b));
    lemma_trim_front(a, s + b);
    assert((s + b)[0] == s[0]);
    lemma_trim_back(s, b);
    assert(trimmed(t) == s);
    let o = ParseOptions { trim: true, ..strict() };
    assert(normalised_text(o, t) == s);
    assert(number_in(o, s) == number_in(strict(), s));
    if a.len() + b.len() > 0 {
        assert(t.len() != s.len());
    }
}

proof fn lemma_without_concat(a: Seq<char>, b: Seq<char>, c: char)
    ensures
        without(a + b, c) == without(a, c) + without(b, c),
    decreases b.len(),
{
    if b.len() == 0 {
        assert(a + b =~= a);
        assert(without(a, c) + without(b, c) =~= without(a, c));
    } else {
        assert((a + b).drop_last() =~= a + b.drop_last());
        assert((a + b).last() == b.last());
        lemma_without_concat(a, b.drop_last(), c);
        if b.last() != c {
            assert((without(a, c) + without(b.drop_last(), c)).push(b.last()) =~= without(a, c) + without(b.drop_last(), c).push(
                b.last(),
            ));
        }
    }
}

proof fn lemma_without_none(s: Seq<char>, c: char)
    requires
        forall|i: int| 0 <= i < s.len() ==> s[i] != c,
    ensures
        without(s, c) == s,
    decreases s.len(),
{
    if s.len() > 0 {
        lemma_without_none(s.drop_last(), c);
        assert(s.drop_last().push(s.last()) =~= s);
    }
}

/// A separator that is declared can stand anywhere in a number, and a text without any is
/// read as ever.
pub proof fn separators_do_not_count(a: Seq<char>, b: Seq<char>, c: char, hint: Option<Numeric>)
    ensures
        ({
            let o = ParseOptions { group: Some(c), ..strict() };
            &&& value_in(o, a + seq![c] + b, hint) == value_in(o, a + b, hint)
            &&& (forall|i: int| 0 <= i < a.len() ==> a[i] != c) ==> value_in(o, a, hint) == value_in(strict(), a, hint)
        }),
{
    let o = ParseOptions { group: Some(c), ..strict() };
    lemma_without_concat(a + seq![c], b, c);
    lemma_without_concat(a, seq![c], c);
    lemma_without_concat(a, b, c);
    assert(without(seq![c], c) =~= Seq::<char>::empty()) by {
        reveal_with_fuel(without, 3);
        assert(seq![c].drop_last() =~= Seq::<char>::empty());
        assert(seq![c].last() == c);
    }
    assert(without(a, c) + Seq::<char>::empty() =~= without(a, c));
    assert(normalised_text(o, a + seq![c] + b) == normalised_text(o, a + b));
    if forall|i: int| 0 <= i < a.len() ==> a[i] != c {
        lemma_without_none(a, c);
        assert(number_in(o, a) == number_in(strict(), a));
    }
}

/// A decimal mark that is declared stands where the point would.
pub proof fn a_declared_mark_is_the_point(whole: Seq<char>, frac: Seq<char>, mark: char, hint: Option<Numeric>)
    requires
        all_digits(whole),
        all_digits(frac),
        !is_digit(mark),
    ensures
        value_in(ParseOptions { decimal: Some(mark), ..strict() }, whole + seq![mark] + frac, hint) == value_in(
            strict(),
            whole + seq!['.'] + frac,
            hint,
        ),
{
    let o = ParseOptions { decimal: Some(mark), ..strict() };
    let s = whole + seq![mark] + frac;
    let t = whole + seq!['.'] + frac;
    let u = normalised_text(o, s);
    assert(u =~= t) by {
        assert forall|i: int| 0 <= i < t.len() implies u[i] == t[i] by {
            if i < whole.len() {
                assert(is_digit(whole[i]));
            } else if i > whole.len() {
                assert(is_digit(frac[i - whole.len() - 1]));
            }
        }
    }
    assert(number_in(o, t) == number_in(strict(), t));
}

/// Whether ten digits of some script start at a code point.
pub open spec fn digits_start_at(b: int) -> bool {
    ||| b == 0x0660
    ||| b == 0x06F0
    ||| b == 0x0966
    ||| b == 0x09E6
    ||| b == 0x0A66
    ||| b == 0x0AE6
    ||| b == 0x0B66
    ||| b == 0x0BE6
    ||| b == 0x0C66
    ||| b == 0x0CE6
    ||| b == 0x0D66
    ||| b == 0x0E50
    ||| b == 0x0ED0
    ||| b == 0x0F20
    ||| b == 0x1040
    ||| b == 0x17E0
    ||| b == 0xFF10
}

/// Digits of other scripts are read as the digits of the same value.
pub proof fn digits_of_other_scripts_count(digits: Seq<int>, script: int, hint: Option<Numeric>)
    requires
        digits_start_at(script),
        forall|i: int| 0 <= i < digits.len() ==> 0 <= #[trigger] digits[i] < 10,
    ensures
        value_in(
            ParseOptions { unicode_digits: true, ..strict() },
            Seq::new(digits.len(), |i: int| (script + digits[i]) as char),
            hint,
        ) == value_in(strict(), Seq::new(digits.len(), |i: int| ('0' as int + digits[i]) as char), hint),
{
    let o = ParseOptions { unicode_digits: true, ..strict() };
    let s = Seq::new(digits.len(), |i: int| (script + digits[i]) as char);
    let t = Seq::new(digits.len(), |i: int| ('0' as int + digits[i]) as char);
    let u = normalised_text(o, s);
    assert(u =~= t) by {
        assert forall|i: int| 0 <= i < t.len() implies u[i] == t[i] by {
            assert(0 <= digits[i] < 10);
            assert(s[i] as int == script + digits[i]);
            assert(digit_block(s[i] as int) == Some(script));
        }
    }
    assert(number_in(o, t) == number_in(strict(), t));
}

/// Each option sets what it is named for and leaves the others alone; another name sets
/// nothing.
pub proof fn options_set_what_they_name(o: ParseOptions, name: Seq<char>, c: char, rest: Seq<char>)
    ensures
        with_option(o, "trim"@, None) == (ParseOptions { trim: true, ..o }),
        with_option(o, "scientific"@, None) == (ParseOptions { scientific: true, ..o }),
        with_option(o, "hex"@, None) == (ParseOptions { hex: true, ..o }),
        with_option(o, "unicode-digits"@, None) == (ParseOptions { unicode_digits: true, ..o }),
        with_option(o, "fraction"@, None) == (ParseOptions { fraction: true, ..o }),
        with_option(o, "group"@, Some(seq![c] + rest)) == (ParseOptions { group: Some(c), ..o }),
        with_option(o, "decimal"@, Some(seq![c] + rest)) == (ParseOptions { decimal: Some(c), ..o }),
        name != "trim"@ && name != "scientific"@ && name != "hex"@ && name != "unicode-digits"@ && name != "fraction"@ && name != "group"@
            && name != "decimal"@ ==> with_option(o, name, None) == o,
{
    reveal_strlit("trim");
    reveal_strlit("scientific");
    reveal_strlit("hex");
    reveal_strlit("unicode-digits");
    reveal_strlit("fraction");
    reveal_strlit("group");
    reveal_strlit("decimal");
    assert("trim"@.len() == 4 && "hex"@.len() == 3 && "scientific"@.len() == 10 && "unicode-digits"@.len() == 14 && "fraction"@.len() == 8
        && "group"@.len() == 5 && "decimal"@.len() == 7);
}

/// A fraction that is printed is read as the same number.
pub proof fn printed_fractions_are_read(r: crate::eval::rational::Rational, hint: Option<Numeric>)
    requires
        r.den > 1,
    ensures
        value_in(ParseOptions { fraction: true, ..strict() }, crate::eval::rational::rational_text(r), hint) matches Some(v) && is_number(v)
            && number(v) == crate::eval::laws::rational_value(r),
{
    reveal_strlit("/");
    assert("/"@ =~= seq!['/']);
    fractions_read_back(r.num as int, r.den as int, hint);
}

/// Whether an option is among the arguments of a `parse` behind the first, up to the `n`-th.
pub open spec fn carries(args: Seq<Expr>, n: nat, option: Seq<char>) -> bool {
    exists|k: int| 1 <= k < n && ((#[trigger] args[k]).kind matches ExprKind::Option { name, .. } && name@ == option)
}

/// An option counts exactly where the call carries it.
pub proof fn options_count_where_they_are_carried(args: Seq<Expr>, n: nat)
    requires
        n <= args.len(),
    ensures
        options_in(args, n).trim <==> carries(args, n, "trim"@),
        options_in(args, n).scientific <==> carries(args, n, "scientific"@),
        options_in(args, n).hex <==> carries(args, n, "hex"@),
        options_in(args, n).unicode_digits <==> carries(args, n, "unicode-digits"@),
        options_in(args, n).fraction <==> carries(args, n, "fraction"@),
    decreases n,
{
    if n > 1 {
        let m = (n - 1) as nat;
        options_count_where_they_are_carried(args, m);
        lemma_carries(args, n, "trim"@);
        lemma_carries(args, n, "scientific"@);
        lemma_carries(args, n, "hex"@);
        lemma_carries(args, n, "unicode-digits"@);
        lemma_carries(args, n, "fraction"@);
        options_set_what_they_name(options_in(args, m), Seq::empty(), 'x', Seq::empty());
        reveal_strlit("trim");
        reveal_strlit("scientific");
        reveal_strlit("hex");
        reveal_strlit("unicode-digits");
        reveal_strlit("fraction");
        reveal_strlit("group");
        reveal_strlit("decimal");
        assert("trim"@.len() == 4 && "hex"@.len() == 3 && "scientific"@.len() == 10 && "unicode-digits"@.len() == 14 && "fraction"@.len() == 8
            && "group"@.len() == 5 && "decimal"@.len() == 7);
    }
}

proof fn lemma_carries(args: Seq<Expr>, n: nat, option: Seq<char>)
    requires
        1 < n <= args.len(),
    ensures
        carries(args, n, option) <==> carries(args, (n - 1) as nat, option) || (args[n - 1].kind matches ExprKind::Option { name, .. }
            && name@ == option),
{
}

} // verus!
