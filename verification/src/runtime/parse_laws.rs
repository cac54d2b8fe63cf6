//! What compiled programs read out of texts, said of the numbers that the texts spell.

use vstd::arithmetic::power::*;
use vstd::prelude::*;

use crate::ast::{Constant, Expr, ExprKind};
use crate::codegen::steps::{constant_tag, flag_bit, option_read, options_read, Reading};
use crate::codegen::work::{refused, WorkView};
use crate::eval::decimal::{decimal_text, first_index, normal, padded_digits, ten, Decimal};
use crate::eval::laws::{
    decimal_value, lemma_first_index, lemma_padded, normal_keeps_the_value, reduced_is_in_lowest_terms,
};
use crate::eval::number_laws::lemma_whole_decimal;
use crate::eval::parse::{parsed_int, radix_digit};
use crate::eval::parse_laws::{
    all_space, digits_start_at, hex_text, lemma_exponent_at, lemma_hex, lemma_index_range, lemma_radix_ten,
    lemma_trim_back, lemma_trim_front, written_whole_numbers_read_back,
};
use crate::runtime::exact::{constant_tagged, fraction_held, held};
use crate::runtime::parse::{
    deci_read, int_read, prepared, rat_read, replaced, scientific_text, shifted_text, split_number,
    starts_with, stripped,
};
use crate::text::{abs_int, fits, int_text, is_digit, is_space};

verus! {

/// A constant's tag is the runtime's for that constant.
pub proof fn constants_keep_their_tags(c: Constant)
    ensures
        constant_tagged(constant_tag(c)) == c,
{
}

/// The bits of the options, one each.
proof fn lemma_bits()
    ensures
        flag_bit("trim"@) == Some(1u64),
        flag_bit("scientific"@) == Some(2u64),
        flag_bit("hex"@) == Some(4u64),
        flag_bit("unicode-digits"@) == Some(8u64),
        flag_bit("fraction"@) == Some(16u64),
        0u64 & 1u64 == 0 && 0u64 & 2u64 == 0 && 0u64 & 4u64 == 0 && 0u64 & 8u64 == 0 && 0u64 & 16u64 == 0,
        1u64 & 1u64 == 1 && 1u64 & 2u64 == 0 && 1u64 & 4u64 == 0 && 1u64 & 8u64 == 0 && 1u64 & 16u64 == 0,
        2u64 & 1u64 == 0 && 2u64 & 2u64 == 2 && 2u64 & 4u64 == 0 && 2u64 & 8u64 == 0 && 2u64 & 16u64 == 0,
        4u64 & 1u64 == 0 && 4u64 & 2u64 == 0 && 4u64 & 4u64 == 4 && 4u64 & 8u64 == 0 && 4u64 & 16u64 == 0,
        8u64 & 1u64 == 0 && 8u64 & 2u64 == 0 && 8u64 & 4u64 == 0 && 8u64 & 8u64 == 8 && 8u64 & 16u64 == 0,
        16u64 & 1u64 == 0 && 16u64 & 2u64 == 0 && 16u64 & 4u64 == 0 && 16u64 & 8u64 == 0 && 16u64 & 16u64 == 16,
{
    reveal_strlit("trim");
    reveal_strlit("scientific");
    reveal_strlit("hex");
    reveal_strlit("unicode-digits");
    reveal_strlit("fraction");
    assert("trim"@.len() == 4 && "hex"@.len() == 3 && "scientific"@.len() == 10 && "unicode-digits"@.len() == 14 && "fraction"@.len() == 8);
    assert(0u64 & 1u64 == 0 && 0u64 & 2u64 == 0 && 0u64 & 4u64 == 0 && 0u64 & 8u64 == 0 && 0u64 & 16u64 == 0) by (bit_vector);
    assert(1u64 & 1u64 == 1 && 1u64 & 2u64 == 0 && 1u64 & 4u64 == 0 && 1u64 & 8u64 == 0 && 1u64 & 16u64 == 0) by (bit_vector);
    assert(2u64 & 1u64 == 0 && 2u64 & 2u64 == 2 && 2u64 & 4u64 == 0 && 2u64 & 8u64 == 0 && 2u64 & 16u64 == 0) by (bit_vector);
    assert(4u64 & 1u64 == 0 && 4u64 & 2u64 == 0 && 4u64 & 4u64 == 4 && 4u64 & 8u64 == 0 && 4u64 & 16u64 == 0) by (bit_vector);
    assert(8u64 & 1u64 == 0 && 8u64 & 2u64 == 0 && 8u64 & 4u64 == 0 && 8u64 & 8u64 == 8 && 8u64 & 16u64 == 0) by (bit_vector);
    assert(16u64 & 1u64 == 0 && 16u64 & 2u64 == 0 && 16u64 & 4u64 == 0 && 16u64 & 8u64 == 0 && 16u64 & 16u64 == 16) by (bit_vector);
}

pub open spec fn none() -> Seq<char> {
    Seq::empty()
}

/// An option that a `parse` carries has its bit set in what the compiled program passes.
pub proof fn options_set_their_bits(w: WorkView, r: Reading, args: Seq<Expr>, i: nat, k: int)
    requires
        i <= k < args.len(),
        args[k].kind matches ExprKind::Option { name, .. } && flag_bit(name@) is Some,
    ensures
        args[k].kind matches ExprKind::Option { name, .. } && options_read(w, r, args, i).1.flags & flag_bit(name@)->0 == flag_bit(name@)->0,
    decreases args.len() - i,
{
    let bit = flag_bit(args[k].kind->Option_name@)->0;
    if let ExprKind::Option { name, value } = args[i as int].kind {
        let (w1, r1) = option_read(w, r, name@, value);
        if i < k {
            options_set_their_bits(w1, r1, args, i + 1, k);
        } else {
            let f = r.flags;
            assert((f | bit) & bit == bit) by (bit_vector);
            lemma_bits_stay(w1, r1, args, i + 1, bit);
        }
    } else {
        options_set_their_bits(refused(w, "a parse argument that is not an option"@), r, args, i + 1, k);
    }
}

proof fn lemma_bits_stay(w: WorkView, r: Reading, args: Seq<Expr>, i: nat, bit: u64)
    requires
        r.flags & bit == bit,
    ensures
        options_read(w, r, args, i).1.flags & bit == bit,
    decreases args.len() - i,
{
    if i < args.len() {
        if let ExprKind::Option { name, value } = args[i as int].kind {
            let (w1, r1) = option_read(w, r, name@, value);
            if let Some(b) = flag_bit(name@) {
                let f = r.flags;
                assert((f | b) & bit == bit) by (bit_vector)
                    requires
                        f & bit == bit,
                ;
            }
            lemma_bits_stay(w1, r1, args, i + 1, bit);
        } else {
            lemma_bits_stay(refused(w, "a parse argument that is not an option"@), r, args, i + 1, bit);
        }
    }
}

/// Without options a text is read as it stands: a whole number as itself.
pub proof fn compiled_whole_numbers_read_back(n: i128)
    ensures
        int_read(int_text(n as int), 0, none(), none()) == Ok::<i128, crate::runtime::exact::FailureView>(n),
{
    lemma_bits();
    written_whole_numbers_read_back(n as int);
}

/// White space around a text is nothing to `trim`.
pub proof fn compiled_trimming_drops_the_space_around(a: Seq<char>, s: Seq<char>, b: Seq<char>)
    requires
        all_space(a),
        all_space(b),
        s.len() > 0,
        !is_space(s[0]),
        !is_space(s.last()),
    ensures
        flag_bit("trim"@) matches Some(bit) && prepared(a + s + b, bit, none(), none()) == prepared(s, 0, none(), none()),
{
    lemma_bits();
    let t = a + s + b;
    assert(t =~= a + (s + b));
    lemma_trim_front(a, s + b);
    assert((s + b)[0] == s[0]);
    lemma_trim_back(s, b);
}

/// A number written in hexadecimal, with or without `0x` in front, is read as itself.
pub proof fn compiled_hexadecimal_reads_back(n: nat, upper: bool, marked: bool)
    requires
        fits(n as int),
    ensures
        flag_bit("hex"@) matches Some(bit) && int_read(
            if marked {
                "0x"@ + hex_text(n, upper)
            } else {
                hex_text(n, upper)
            },
            bit,
            none(),
            none(),
        ) == Ok::<i128, crate::runtime::exact::FailureView>(n as i128),
{
    lemma_bits();
    reveal_strlit("0x");
    reveal_strlit("0X");
    let t = hex_text(n, upper);
    let s = if marked {
        "0x"@ + t
    } else {
        t
    };
    lemma_hex(n, upper);
    lemma_unmarked(t);
    assert(radix_digit(t[0], 16) is Some);
    if marked {
        assert(s.take(2) =~= "0x"@);
        assert(s.skip(2) =~= t);
        assert(stripped(s, "0x"@) == stripped(t, "0x"@));
    }
    assert(stripped(stripped(s, "0x"@), "0X"@) == t);
    assert(parsed_int(t, 16) == Some(n as int));
    written_whole_numbers_read_back(n as int);
}

proof fn lemma_unmarked(t: Seq<char>)
    requires
        forall|i: int| 0 <= i < t.len() ==> radix_digit(#[trigger] t[i], 16) is Some,
    ensures
        stripped(t, "0x"@) == t,
        stripped(t, "0X"@) == t,
{
    reveal_strlit("0x");
    reveal_strlit("0X");
    if t.len() >= 2 {
        assert(radix_digit(t[1], 16) is Some);
        assert(t[1] != 'x' && t[1] != 'X');
        assert(t.take(2)[1] == t[1]);
        assert("0x"@[1] == 'x');
        assert("0X"@[1] == 'X');
    }
}

/// `n/d` is read as the fraction, where fractions are asked for.
pub proof fn compiled_fractions_read_back(n: int, d: int)
    requires
        fits(n),
        fits(d),
    ensures
        flag_bit("fraction"@) matches Some(bit) && (rat_read(int_text(n) + seq!['/'] + int_text(d), bit, none(), none()) matches Ok(r) ==> d != 0
            && r.den > 0 && crate::eval::laws::rational_value(fraction_held(r)) == n as real / d as real),
{
    lemma_bits();
    let a = int_text(n);
    let b = int_text(d);
    let t = a + seq!['/'] + b;
    written_whole_numbers_read_back(n);
    written_whole_numbers_read_back(d);
    assert(t =~= a + (seq!['/'] + b));
    assert forall|i: int| 0 <= i < a.len() implies a[i] != '/' by {
        assert(is_digit(a[i]) || a[i] == '-');
    }
    lemma_first_index(a, seq!['/'] + b, '/');
    assert(t.take(a.len() as int) =~= a);
    assert(t.skip(a.len() as int + 1) =~= b);
    reduced_is_in_lowest_terms(n, d);
}

/// Digits of other scripts are read as the digits of the same value.
pub proof fn compiled_digits_of_other_scripts_count(digits: Seq<int>, script: int)
    requires
        digits_start_at(script),
        forall|i: int| 0 <= i < digits.len() ==> 0 <= #[trigger] digits[i] < 10,
    ensures
        flag_bit("unicode-digits"@) matches Some(bit) && prepared(
            Seq::new(digits.len(), |i: int| (script + digits[i]) as char),
            bit,
            none(),
            none(),
        ) == Some(Seq::new(digits.len(), |i: int| ('0' as int + digits[i]) as char)),
{
    lemma_bits();
    let s = Seq::new(digits.len(), |i: int| (script + digits[i]) as char);
    let t = Seq::new(digits.len(), |i: int| ('0' as int + digits[i]) as char);
    assert(crate::eval::parse::ascii_digits(s) =~= t) by {
        assert forall|i: int| 0 <= i < t.len() implies crate::eval::parse::ascii_digits(s)[i] == t[i] by {
            assert(0 <= digits[i] < 10);
            assert(s[i] as int == script + digits[i]);
            assert(crate::eval::parse::digit_block(s[i] as int) == Some(script));
        }
    }
}

proof fn lemma_replaced_there(a: Seq<char>, b: Seq<char>, c: char)
    ensures
        replaced(a + seq![c] + b, seq![c], none()) == replaced(a + b, seq![c], none()),
    decreases a.len(),
{
    let s = a + seq![c] + b;
    let p = seq![c];
    if a.len() == 0 {
        assert(s =~= seq![c] + b);
        assert(s.take(1) =~= p);
        assert(starts_with(s, p));
        assert(s.skip(1) =~= b);
        assert(a + b =~= b);
        assert(none() + replaced(b, p, none()) =~= replaced(b, p, none()));
    } else {
        let r = a.skip(1);
        lemma_replaced_there(r, b, c);
        assert(s.skip(1) =~= r + p + b);
        assert((a + b).skip(1) =~= r + b);
        assert(s[0] == a[0] && (a + b)[0] == a[0]);
        assert(starts_with(s, p) <==> a[0] == c) by {
            assert(s.take(1) =~= seq![a[0]]);
            assert(seq![a[0]][0] == a[0] && p[0] == c);
        }
        assert(starts_with(a + b, p) <==> a[0] == c) by {
            assert((a + b).take(1) =~= seq![a[0]]);
            assert(seq![a[0]][0] == a[0] && p[0] == c);
        }
    }
}

/// A separator that is declared can stand anywhere in a number.
pub proof fn compiled_separators_do_not_count(a: Seq<char>, b: Seq<char>, c: char, flags: u64)
    requires
        flags & 1u64 == 0,
        flags & 8u64 == 0,
    ensures
        prepared(a + seq![c] + b, flags, seq![c], none()) == prepared(a + b, flags, seq![c], none()),
{
    lemma_replaced_there(a, b, c);
}

// ── scientific notation ─────────────────────────────────────────────────────

/// What is printed of a decimal splits into its mantissa and its scale.
#[verifier::spinoff_prover]
proof fn lemma_split_printed(d: Decimal)
    ensures
        split_number(decimal_text(d)) == Some((normal(d).mantissa as int, normal(d).scale as nat)),
{
    let v = normal(d);
    let t = decimal_text(d);
    let m = abs_int(v.mantissa as int);
    if v.scale == 0 {
        written_whole_numbers_read_back(v.mantissa as int);
        lemma_index_range(t, '.');
        let at = first_index(t, '.');
        if at < t.len() {
            assert(is_digit(t[at]) || t[at] == '-');
        }
    } else {
        lemma_padded(m, v.scale as nat);
        let p = padded_digits(m, v.scale as nat);
        let cut = p.len() - v.scale;
        let sign = if v.mantissa < 0 {
            seq!['-']
        } else {
            Seq::<char>::empty()
        };
        let head = sign + p.take(cut);
        let frac = p.skip(cut);
        assert(t =~= head + (seq!['.'] + frac));
        assert forall|i: int| 0 <= i < head.len() implies head[i] != '.' by {
            if i >= sign.len() {
                assert(is_digit(p[i - sign.len()]));
                assert(head[i] == p[i - sign.len()]);
            }
        }
        lemma_first_index(head, seq!['.'] + frac, '.');
        assert(t.take(head.len() as int) =~= head);
        assert(t.skip(head.len() as int + 1) =~= frac);
        let joined = head + frac;
        assert(joined =~= sign + p);
        assert(is_digit(p[0]));
        lemma_radix_ten(p);
        if v.mantissa < 0 {
            assert(joined.skip(1) =~= p);
        } else {
            assert(joined =~= p);
        }
    }
}

/// `m e x` is read as m times ten to the x, exactly.
pub proof fn compiled_scientific_notation_scales_by_tens(m: Seq<char>, upper: bool, x: Seq<char>, mantissa: int, scale: nat, exp: int)
    requires
        forall|i: int| 0 <= i < m.len() ==> m[i] != 'e' && m[i] != 'E',
        split_number(m) == Some((mantissa, scale)),
        fits(mantissa),
        parsed_int(x, 10) == Some(exp),
        i32::MIN <= exp <= i32::MAX,
    ensures
        ({
            let t = m + seq![if upper { 'E' } else { 'e' }] + x;
            &&& flag_bit("scientific"@) matches Some(bit) && (deci_read(t, bit, none(), none()) matches Ok(d) ==> (if exp >= scale {
                decimal_value(held(d)) == (mantissa * ten((exp - scale) as nat)) as real
            } else {
                decimal_value(held(d)) == mantissa as real / ten((scale - exp) as nat) as real
            })) && (exp >= scale && fits(ten((exp - scale) as nat)) && fits(mantissa * ten((exp - scale) as nat)) ==> deci_read(
                t,
                bit,
                none(),
                none(),
            ) is Ok) && (exp < scale && scale - exp <= u32::MAX ==> deci_read(t, bit, none(), none()) is Ok)
        }),
{
    lemma_bits();
    let t = m + seq![if upper { 'E' } else { 'e' }] + x;
    lemma_exponent_at(m, upper, x);
    assert(prepared(t, 2, none(), none()) == scientific_text(t));
    assert(scientific_text(t) == shifted_text(mantissa, scale, exp));
    if exp >= scale {
        let v = mantissa * ten((exp - scale) as nat);
        if fits(ten((exp - scale) as nat)) && fits(v) {
            let s = int_text(v);
            written_whole_numbers_read_back(v);
            lemma_index_range(s, '.');
            let at = first_index(s, '.');
            if at < s.len() {
                assert(is_digit(s[at]) || s[at] == '-');
            }
            assert(split_number(s) == Some((v, 0nat)));
            let d = Decimal { mantissa: v as i128, scale: 0 };
            normal_keeps_the_value(d);
            lemma_whole_decimal(v as i128);
        }
    } else if scale - exp <= u32::MAX {
        let d = Decimal { mantissa: mantissa as i128, scale: (scale - exp) as u32 };
        lemma_split_printed(d);
        normal_keeps_the_value(d);
        normal_keeps_the_value(normal(d));
    }
}

} // verus!
