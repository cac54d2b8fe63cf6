//! Text: decimal digits, white space, and the small pieces that messages are put
//! together from.

use vstd::prelude::*;
use vstd::string::*;
use vstd::arithmetic::power::*;

verus! {

/// `String::push` adds one character at the end.
pub assume_specification[ String::push ](s: &mut String, c: char)
    ensures
        final(s)@ == old(s)@.push(c),
;

/// The characters with the Unicode property `White_Space`.
pub open spec fn is_space(c: char) -> bool {
    let u = c as int;
    ||| 0x9 <= u <= 0xd
    ||| u == 0x20
    ||| u == 0x85
    ||| u == 0xa0
    ||| u == 0x1680
    ||| 0x2000 <= u <= 0x200a
    ||| u == 0x2028
    ||| u == 0x2029
    ||| u == 0x202f
    ||| u == 0x205f
    ||| u == 0x3000
}

/// `char::is_whitespace` holds of the characters with the property `White_Space`.
pub assume_specification[ char::is_whitespace ](c: char) -> (r: bool)
    ensures
        r == is_space(c),
;

/// The characters of a text, in order.
pub fn chars_of(s: &str) -> (r: Vec<char>)
    ensures
        r@ == s@,
{
    let mut out: Vec<char> = Vec::new();
    for c in it: s.chars()
        invariant
            out@ == s@.take(it.index@),
            it.seq() == s@,
    {
        out.push(c);
        assert(out@ =~= s@.take(it.index@ + 1));
    }
    assert(s@.take(s@.len() as int) =~= s@);
    out
}

/// The text that these characters spell.
pub fn text_of(chars: &[char]) -> (r: String)
    ensures
        r@ == chars@,
{
    let mut out: String = String::new();
    let mut i: usize = 0;
    while i < chars.len()
        invariant
            i <= chars.len(),
            out@ == chars@.take(i as int),
        decreases chars.len() - i,
    {
        out.push(chars[i]);
        i = i + 1;
        assert(out@ =~= chars@.take(i as int));
    }
    assert(chars@.take(chars@.len() as int) =~= chars@);
    out
}

// ── decimal digits ──────────────────────────────────────────────────────────

pub open spec fn is_digit(c: char) -> bool {
    '0' <= c && c <= '9'
}

pub open spec fn digit_char(d: int) -> char {
    ('0' as int + d) as char
}

pub open spec fn digit_value(c: char) -> int {
    c as int - '0' as int
}

pub open spec fn all_digits(s: Seq<char>) -> bool {
    forall|i: int| 0 <= i < s.len() ==> is_digit(#[trigger] s[i])
}

/// The number that a run of decimal digits spells.
pub open spec fn digits_value(s: Seq<char>) -> int
    decreases s.len(),
{
    if s.len() == 0 {
        0
    } else {
        digits_value(s.drop_last()) * 10 + digit_value(s.last())
    }
}

/// The decimal digits of a number, without leading zeros; zero is `0`.
pub open spec fn nat_text(n: nat) -> Seq<char>
    decreases n,
{
    if n < 10 {
        seq![digit_char(n as int)]
    } else {
        nat_text(n / 10).push(digit_char((n % 10) as int))
    }
}

/// A whole number as it is written: a minus sign where it is below zero.
pub open spec fn int_text(i: int) -> Seq<char> {
    if i < 0 {
        seq!['-'] + nat_text((-i) as nat)
    } else {
        nat_text(i as nat)
    }
}

/// Writing a number in decimal and reading it back gives the number again.
pub proof fn lemma_digits_round_trip(n: nat)
    ensures
        digits_value(nat_text(n)) == n,
        all_digits(nat_text(n)),
        nat_text(n).len() >= 1,
    decreases n,
{
    let t = nat_text(n);
    if n < 10 {
        assert(t.drop_last() =~= Seq::<char>::empty());
        assert(digits_value(t.drop_last()) == 0);
    } else {
        lemma_digits_round_trip(n / 10);
        assert(t.drop_last() =~= nat_text(n / 10));
    }
}

/// A number below 10^k has at most k digits.
pub proof fn lemma_text_length(n: nat, k: nat)
    requires
        k >= 1,
        n < pow(10, k),
    ensures
        nat_text(n).len() <= k,
    decreases k,
{
    if n >= 10 {
        lemma_pow_adds(10, (k - 1) as nat, 1);
        lemma_pow1(10);
        if k == 1 {
            lemma_pow0(10);
        }
        lemma_text_length(n / 10, (k - 1) as nat);
    }
}

/// The value of digits followed by more digits.
pub proof fn lemma_digits_concat(a: Seq<char>, b: Seq<char>)
    ensures
        digits_value(a + b) == digits_value(a) * pow(10, b.len()) + digits_value(b),
    decreases b.len(),
{
    if b.len() == 0 {
        assert(a + b =~= a);
        lemma_pow0(10);
    } else {
        assert((a + b).drop_last() =~= a + b.drop_last());
        assert((a + b).last() == b.last());
        lemma_digits_concat(a, b.drop_last());
        lemma_pow_adds(10, (b.len() - 1) as nat, 1);
        lemma_pow1(10);
        let va = digits_value(a);
        let p = pow(10, (b.len() - 1) as nat);
        assert(va * p * 10 == va * (p * 10)) by (nonlinear_arith);
    }
}

/// A run of n digits spells a number from 0 up to 10^n.
pub proof fn lemma_digits_bound(s: Seq<char>)
    requires
        all_digits(s),
    ensures
        0 <= digits_value(s) < pow(10, s.len()),
    decreases s.len(),
{
    if s.len() == 0 {
        lemma_pow0(10);
    } else {
        assert(all_digits(s.drop_last())) by {
            assert forall|i: int| 0 <= i < s.drop_last().len() implies is_digit(#[trigger] s.drop_last()[i]) by {
                assert(is_digit(s[i]));
            }
        }
        lemma_digits_bound(s.drop_last());
        lemma_pow_adds(10, (s.len() - 1) as nat, 1);
        lemma_pow1(10);
        assert(is_digit(s[s.len() - 1]));
    }
}

pub fn is_digit_char(c: char) -> (r: bool)
    ensures
        r == is_digit(c),
{
    let u: u32 = c as u32;
    48 <= u && u <= 57
}

fn char_of_digit(d: u8) -> (r: char)
    requires
        d < 10,
    ensures
        r == digit_char(d as int),
{
    (48 + d) as char
}

/// An unsigned whole number in decimal.
pub fn u128_text(n: u128) -> (r: String)
    ensures
        r@ == nat_text(n as nat),
    decreases n,
{
    if n < 10 {
        let mut s: String = String::new();
        s.push(char_of_digit(n as u8));
        assert(s@ =~= nat_text(n as nat));
        s
    } else {
        let mut s: String = u128_text(n / 10);
        s.push(char_of_digit((n % 10) as u8));
        s
    }
}

/// A whole number in decimal.
pub fn i128_text(i: i128) -> (r: String)
    ensures
        r@ == int_text(i as int),
{
    if i < 0 {
        let mut s: String = String::new();
        s.push('-');
        let m: u128 = magnitude(i);
        s.append(u128_text(m).as_str());
        assert(s@ =~= seq!['-'] + nat_text(m as nat));
        s
    } else {
        u128_text(i as u128)
    }
}

pub fn usize_text(n: usize) -> (r: String)
    ensures
        r@ == nat_text(n as nat),
{
    u128_text(n as u128)
}

/// The distance of a number from zero.
pub open spec fn abs_int(i: int) -> nat {
    if i < 0 {
        (-i) as nat
    } else {
        i as nat
    }
}

pub fn magnitude(i: i128) -> (r: u128)
    ensures
        r == abs_int(i as int),
{
    if i >= 0 {
        i as u128
    } else if i == i128::MIN {
        170141183460469231731687303715884105728
    } else {
        (-i) as u128
    }
}

/// Whether a whole number has an `i128` to stand in.
pub open spec fn fits(i: int) -> bool {
    i128::MIN <= i <= i128::MAX
}

/// The number with this sign and this distance from zero, where it fits.
pub fn signed(negative: bool, m: u128) -> (r: Option<i128>)
    ensures
        ({
            let v = if negative { -(m as int) } else { m as int };
            r == if fits(v) { Some(v as i128) } else { None }
        }),
{
    if negative {
        if m == 170141183460469231731687303715884105728 {
            Some(i128::MIN)
        } else if m < 170141183460469231731687303715884105728 {
            Some(-(m as i128))
        } else {
            None
        }
    } else if m < 170141183460469231731687303715884105728 {
        Some(m as i128)
    } else {
        None
    }
}

/// The number that a run of digits spells, where an `i128` holds it.
pub fn digits_number(digits: &[char]) -> (r: Option<i128>)
    requires
        all_digits(digits@),
    ensures
        r == if fits(digits_value(digits@)) { Some(digits_value(digits@) as i128) } else { None },
{
    let mut acc: i128 = 0;
    let mut i: usize = 0;
    assert(digits@.take(0) =~= Seq::<char>::empty());
    while i < digits.len()
        invariant
            i <= digits.len(),
            all_digits(digits@),
            acc >= 0,
            acc == digits_value(digits@.take(i as int)),
        decreases digits.len() - i,
    {
        let c: char = digits[i];
        proof {
            let t = digits@.take(i as int + 1);
            assert(t.drop_last() =~= digits@.take(i as int));
            assert(t.last() == c);
            assert(is_digit(digits@[i as int]));
            let rest = digits@.skip(i as int + 1);
            assert(digits@ =~= t + rest);
            lemma_digits_concat(t, rest);
            assert(all_digits(rest)) by {
                assert forall|j: int| 0 <= j < rest.len() implies is_digit(#[trigger] rest[j]) by {
                    assert(is_digit(digits@[i as int + 1 + j]));
                }
            }
            lemma_digits_bound(rest);
            lemma_pow_positive(10, rest.len());
            let v = digits_value(t);
            let p = pow(10, rest.len());
            assert(v >= 0 ==> v * p >= v) by (nonlinear_arith)
                requires
                    p >= 1,
            ;
        }
        let d: i128 = (c as u32 - 48) as i128;
        match acc.checked_mul(10) {
            None => {
                return None;
            },
            Some(m) => match m.checked_add(d) {
                None => {
                    return None;
                },
                Some(v) => {
                    acc = v;
                },
            },
        }
        i = i + 1;
    }
    assert(digits@.take(digits@.len() as int) =~= digits@);
    Some(acc)
}

// ── pieces of text ──────────────────────────────────────────────────────────

/// `n` copies of one character.
pub open spec fn copies(c: char, n: nat) -> Seq<char> {
    Seq::new(n, |i: int| c)
}

pub fn repeated(c: char, n: usize) -> (r: String)
    ensures
        r@ == copies(c, n as nat),
{
    let mut out: String = String::new();
    let mut i: usize = 0;
    while i < n
        invariant
            i <= n,
            out@ =~= copies(c, i as nat),
        decreases n - i,
    {
        out.push(c);
        i = i + 1;
    }
    assert(out@ =~= copies(c, n as nat));
    out
}

pub open spec fn trim_start(s: Seq<char>) -> Seq<char>
    decreases s.len(),
{
    if s.len() > 0 && is_space(s[0]) {
        trim_start(s.skip(1))
    } else {
        s
    }
}

pub open spec fn trim_end(s: Seq<char>) -> Seq<char>
    decreases s.len(),
{
    if s.len() > 0 && is_space(s.last()) {
        trim_end(s.drop_last())
    } else {
        s
    }
}

/// A text without the white space around it.
pub open spec fn trimmed(s: Seq<char>) -> Seq<char> {
    trim_end(trim_start(s))
}

/// The characters of a text without the white space around it.
pub fn trim_chars(s: &[char]) -> (r: Vec<char>)
    ensures
        r@ == trimmed(s@),
{
    let mut from: usize = 0;
    assert(s@.skip(0) =~= s@);
    while from < s.len() && s[from].is_whitespace()
        invariant
            from <= s.len(),
            trim_start(s@) == trim_start(s@.skip(from as int)),
        decreases s.len() - from,
    {
        assert(s@.skip(from as int).skip(1) =~= s@.skip(from as int + 1));
        from = from + 1;
    }
    let ghost t = s@.skip(from as int);
    assert(trim_start(s@) == t);
    let mut to: usize = s.len();
    assert(s@.subrange(from as int, to as int) =~= t);
    while to > from && s[to - 1].is_whitespace()
        invariant
            from <= to <= s.len(),
            trim_end(t) == trim_end(s@.subrange(from as int, to as int)),
        decreases to,
    {
        assert(s@.subrange(from as int, to as int).drop_last() =~= s@.subrange(from as int, to as int - 1));
        to = to - 1;
    }
    let mut out: Vec<char> = Vec::new();
    let mut i: usize = from;
    while i < to
        invariant
            from <= i <= to <= s.len(),
            out@ == s@.subrange(from as int, i as int),
        decreases to - i,
    {
        out.push(s[i]);
        i = i + 1;
        assert(out@ =~= s@.subrange(from as int, i as int));
    }
    out
}

/// A text between quotation marks, with what cannot stand there escaped: what the `Debug`
/// format of `str` writes.
pub uninterp spec fn quoted_text(s: Seq<char>) -> Seq<char>;

/// `str`'s `Debug` format, which depends on the text alone.
#[verifier::external_body]
pub(crate) fn quoted(s: &str) -> (r: String)
    ensures
        r@ == quoted_text(s@),
{
    format!("{s:?}")
}

/// Whether two texts hold the same characters.
pub fn same_text(a: &str, b: &str) -> (r: bool)
    ensures
        r == (a@ == b@),
{
    let x: Vec<char> = chars_of(a);
    let y: Vec<char> = chars_of(b);
    if x.len() != y.len() {
        return false;
    }
    let mut i: usize = 0;
    while i < x.len()
        invariant
            i <= x@.len() == y@.len(),
            x@ == a@,
            y@ == b@,
            forall|j: int| 0 <= j < i ==> #[trigger] x@[j] == y@[j],
        decreases x@.len() - i,
    {
        if x[i] != y[i] {
            return false;
        }
        i = i + 1;
    }
    assert(a@ =~= b@);
    true
}

pub fn cat2(a: &str, b: &str) -> (r: String)
    ensures
        r@ == a@ + b@,
{
    let mut s: String = a.to_owned();
    s.append(b);
    s
}

pub fn cat3(a: &str, b: &str, c: &str) -> (r: String)
    ensures
        r@ == a@ + b@ + c@,
{
    let mut s: String = cat2(a, b);
    s.append(c);
    s
}

pub fn cat4(a: &str, b: &str, c: &str, d: &str) -> (r: String)
    ensures
        r@ == a@ + b@ + c@ + d@,
{
    let mut s: String = cat3(a, b, c);
    s.append(d);
    s
}

pub fn cat5(a: &str, b: &str, c: &str, d: &str, e: &str) -> (r: String)
    ensures
        r@ == a@ + b@ + c@ + d@ + e@,
{
    let mut s: String = cat4(a, b, c, d);
    s.append(e);
    s
}

pub fn cat7(a: &str, b: &str, c: &str, d: &str, e: &str, f: &str, g: &str) -> (r: String)
    ensures
        r@ == a@ + b@ + c@ + d@ + e@ + f@ + g@,
{
    let mut s: String = cat5(a, b, c, d, e);
    s.append(f);
    s.append(g);
    s
}

pub fn cat9(a: &str, b: &str, c: &str, d: &str, e: &str, f: &str, g: &str, h: &str, i: &str) -> (r: String)
    ensures
        r@ == a@ + b@ + c@ + d@ + e@ + f@ + g@ + h@ + i@,
{
    let mut s: String = cat7(a, b, c, d, e, f, g);
    s.append(h);
    s.append(i);
    s
}

} // verus!
