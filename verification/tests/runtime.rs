//! The runtime of compiled programs.

use ahpcl::eval::decimal::Decimal;
use ahpcl::runtime::access::{
    ahpcl_array_get_bool, ahpcl_array_get_deci, ahpcl_array_get_int, ahpcl_array_get_rat, ahpcl_array_get_str,
    ahpcl_array_set_bool, ahpcl_array_set_int, ahpcl_array_set_str, ahpcl_num_cmp,
};
use ahpcl::runtime::array::{
    ahpcl_array_empty, ahpcl_array_offset, ahpcl_array_range, ahpcl_array_select, ahpcl_array_select_run, push, Array,
    Cell, Pick, KIND_INT,
};
use ahpcl::runtime::exact::{
    ahpcl_constant, ahpcl_deci_cmp, ahpcl_deci_div, ahpcl_int_div, ahpcl_int_mod, ahpcl_str_cmp, deci_apply,
    deci_div, format_decimal, format_rational, rat_add, rat_apply, rat_div, rat_mul, raw_add, raw_mul, AhpclDecimal,
    AhpclRational, Halt, OP_DIV, OP_MOD, OP_MUL, OP_POW,
};
use ahpcl::runtime::num::{
    ahpcl_array_compare, ahpcl_array_cross, ahpcl_array_dot, ahpcl_array_elementwise, ahpcl_array_hadamard,
    ahpcl_array_sum, ahpcl_array_tensor, ahpcl_array_unary, arith, array_unary_answered, unary, OP_CMP_GT, UN_FLOOR, UN_LN, UN_SQRT,
};
use ahpcl::runtime::parse::{
    ahpcl_parse_deci, ahpcl_parse_int, ahpcl_parse_rat, PARSE_FRACTION, PARSE_HEX, PARSE_SCIENTIFIC, PARSE_TRIM,
    PARSE_UNICODE_DIGITS,
};

fn d(m: i128, s: u32) -> AhpclDecimal {
    AhpclDecimal::ok(m, s)
}

fn add(a: AhpclDecimal, b: AhpclDecimal) -> AhpclDecimal {
    raw_add(a, b)
}

fn mul(a: AhpclDecimal, b: AhpclDecimal) -> AhpclDecimal {
    raw_mul(a, b)
}

fn ints(vs: &[i128]) -> Array {
    Array::vector(vs.iter().map(|v| Cell::Int(*v)).collect(), KIND_INT)
}

/// A run of single-index selectors.
fn select_indices(a: &Array, ix: &[i128]) -> Array {
    let picks = ix.iter().map(|&i| Pick::Indices(vec![i])).collect();
    ahpcl_array_select_run(a, &picks).unwrap()
}

#[test]
fn the_headline_case_holds_in_native_code_too() {
    let sum = add(d(1, 1), d(2, 1));
    assert_eq!(sum.failed, 0);
    assert_eq!(format_decimal(sum), "0.3");
    assert_eq!(ahpcl_deci_cmp(sum, d(3, 1)), 0);
}

#[test]
fn division_uses_the_true_digits() {
    assert_eq!(format_decimal(deci_div(d(58, 0), d(3, 0), 15)), "19.333333333333333");
}

#[test]
fn division_by_zero_is_flagged_rather_than_producing_infinity() {
    assert_eq!(deci_div(d(1, 0), d(0, 0), 15).failed, 1);
}

#[test]
fn overflow_is_flagged_rather_than_wrapping() {
    assert_eq!(add(d(i128::MAX, 0), d(1, 0)).failed, 1);
    assert_eq!(mul(d(i128::MAX, 0), d(2, 0)).failed, 1);
}

#[test]
fn integer_division_is_euclidean_in_native_code_too() {
    assert_eq!(ahpcl_int_div(-7, 3).unwrap(), -3);
    assert_eq!(ahpcl_int_mod(-7, 3).unwrap(), 2);
    assert_eq!(ahpcl_int_div(-7, -3).unwrap(), 3);
    assert_eq!(ahpcl_int_mod(-7, -3).unwrap(), 2);
    assert_eq!(ahpcl_int_div(7, 3).unwrap(), 2);
    assert_eq!(ahpcl_int_mod(7, 3).unwrap(), 1);
}

#[test]
fn native_parsing_honours_its_options() {
        assert_eq!(
        ahpcl_parse_int("1,234,567", 0, ",", "").unwrap(),
        1_234_567
    );
    assert_eq!(ahpcl_parse_int("  42  ", PARSE_TRIM, "", "").unwrap(), 42);
    assert_eq!(ahpcl_parse_int("0xff", PARSE_HEX, "", "").unwrap(), 255);
}

#[test]
fn native_string_comparison_matches_the_interpreter() {
    assert_eq!(ahpcl_str_cmp("abc", "abc"), 0);
    assert_eq!(ahpcl_str_cmp("abc", "abd"), -1);
    assert_eq!(ahpcl_str_cmp("😂", "a"), 1);
}

#[test]
fn rationals_stay_exact_in_native_code() {
    let third = AhpclRational::reduced(1, 3);
    let sum = rat_add(rat_add(third, third), third);
    assert_eq!(sum, AhpclRational { num: 1, den: 1, failed: 0 });
    assert_eq!(rat_mul(third, third), AhpclRational::reduced(1, 9));
}

#[test]
fn rationals_reduce_and_refuse_zero_denominators() {
    assert_eq!(AhpclRational::reduced(2, 4), AhpclRational::reduced(1, 2));
    assert_eq!(AhpclRational::reduced(1, 0).failed, 1);
    assert_eq!(rat_div(AhpclRational::reduced(1, 2), AhpclRational::reduced(0, 1)).failed, 1);
}

#[test]
fn printing_drops_trailing_zeros() {
    assert_eq!(format_decimal(d(300, 3)), "0.3");
    assert_eq!(format_decimal(d(-1500, 3)), "-1.5");
    assert_eq!(format_decimal(d(42, 0)), "42");
}

#[test]
fn the_dot_product_matches_the_interpreter() {
    let a = ints(&[1, 2, 3]);
    let b = ints(&[4, 5, 6]);
    let out = ahpcl_array_dot(&a, &b).unwrap();
    assert_eq!(out.items, vec![Cell::Int(32)]);
}

#[test]
fn the_cross_product_is_perpendicular_to_both() {
    let x = ints(&[1, 0, 0]);
    let y = ints(&[0, 1, 0]);
    let out = ahpcl_array_cross(&x, &y).unwrap();
    assert_eq!(out.items, vec![Cell::Int(0), Cell::Int(0), Cell::Int(1)]);
}

#[test]
fn the_tensor_product_concatenates_shapes() {
    let a = ints(&[1, 2]);
    let b = ints(&[3, 4, 5]);
    let out = ahpcl_array_tensor(&a, &b).unwrap();
    assert_eq!(out.shape, vec![2, 3]);
    assert_eq!(out.items.len(), 6);
    assert_eq!(out.items[0], Cell::Int(3));
    assert_eq!(out.items[5], Cell::Int(10));
}

#[test]
fn matrix_multiplication_uses_the_inner_dimension() {
    let a = Array { items: ints(&[1, 2, 3, 4]).items, shape: vec![2, 2], kind: KIND_INT };
    let b = Array { items: ints(&[5, 6, 7, 8]).items, shape: vec![2, 2], kind: KIND_INT };
    let out = ahpcl_array_dot(&a, &b).unwrap();
    assert_eq!(
        out.items,
        vec![Cell::Int(19), Cell::Int(22), Cell::Int(43), Cell::Int(50)]
    );
}

#[test]
fn a_single_value_broadcasts_across_the_other_side() {
    let a = ints(&[1, 2, 3]);
    let b = ints(&[10]);
    let out = ahpcl_array_elementwise(OP_MUL, &a, &b).unwrap();
    assert_eq!(out.items, vec![Cell::Int(10), Cell::Int(20), Cell::Int(30)]);
}

#[test]
fn a_collected_array_grows_and_keeps_its_shape_in_step() {
    let mut a = ahpcl_array_empty(KIND_INT);
    for v in [12, 30, 16] {
        push(&mut a, Cell::Int(v));
    }
    assert_eq!(a.items, vec![Cell::Int(12), Cell::Int(30), Cell::Int(16)]);
    assert_eq!(a.shape, vec![3]);
}

#[test]
fn array_a_bare_array_reference_sums_its_elements() {
    let a = ints(&[2, 4, 4, 4, 5, 9]);
    assert_eq!(ahpcl_array_sum(&a).unwrap(), Cell::Int(28));
}

#[test]
fn array_a_selector_addresses_a_dimension_not_the_flat_buffer() {
    let m = Array {
        items: ints(&[1, 2, 3, 4, 5, 6, 7, 8, 9, 10, 11, 12]).items,
        shape: vec![3, 4],
        kind: KIND_INT,
    };
    let row = select_indices(&m, &[2]);
    assert_eq!(row.shape, vec![4]);
    assert_eq!(
        row.items,
        vec![Cell::Int(5), Cell::Int(6), Cell::Int(7), Cell::Int(8)]
    );

    let one = select_indices(&m, &[2, 3]);
    assert!(one.shape.is_empty(), "collapsed to a scalar");
    assert_eq!(one.items, vec![Cell::Int(7)]);
}

#[test]
fn selectors_are_one_based() {
    let a = ints(&[10, 20, 30, 40, 50]);
    let picked = ahpcl_array_select(&a, &vec![1i128, 3]).unwrap();
    assert_eq!(picked.items, vec![Cell::Int(10), Cell::Int(30)]);
    let ranged = ahpcl_array_range(&a, 1, 5, 2).unwrap();
    assert_eq!(ranged.items, vec![Cell::Int(10), Cell::Int(30), Cell::Int(50)]);
}

#[test]
fn division_that_does_not_divide_exactly_keeps_the_true_value() {
    let a = ints(&[1]);
    let b = ints(&[3]);
    let out = ahpcl_array_elementwise(OP_DIV, &a, &b).unwrap();
    assert!(matches!(out.items[0], Cell::Deci(_)), "{:?}", out.items[0]);
}

#[test]
fn exact_failures_carry_their_codes() {
    let third = AhpclRational::reduced(1, 3);
    let zero = AhpclRational::reduced(0, 1);
    assert_eq!(ahpcl_deci_div(d(1, 0), d(0, 0), 15).unwrap_err().code, "AHPCL-RUN-0002");
    assert_eq!(ahpcl_int_div(1, 0).unwrap_err().code, "AHPCL-RUN-0002");
    assert_eq!(ahpcl_int_mod(1, 0).unwrap_err().code, "AHPCL-RUN-0002");
    assert_eq!(rat_apply(OP_MOD, third, zero).unwrap_err().code, "AHPCL-RUN-0002");
    assert_eq!(rat_apply(OP_POW, third, third).unwrap_err().code, "AHPCL-RUN-0001");
    assert_eq!(rat_apply(OP_POW, third, AhpclRational::reduced(3, 1)).unwrap(), AhpclRational::reduced(1, 27));
    assert_eq!(rat_apply(OP_POW, third, AhpclRational::reduced(-2, 1)).unwrap(), AhpclRational::reduced(9, 1));
    assert_eq!(ahpcl_constant(0, 40).unwrap_err().code, "AHPCL-PREC-0004");
    assert_eq!(format_decimal(ahpcl_constant(2, 4).unwrap()), "6.2832");
    assert_eq!(format_rational(third), "1/3");
}

#[test]
fn parse_failures_stop_the_program() {
    assert!(ahpcl_parse_int("twelve", 0, "", "").is_err());
    assert_eq!(format_decimal(ahpcl_parse_deci("1.5e2", PARSE_SCIENTIFIC, "", "").unwrap()), "150");
    assert_eq!(ahpcl_parse_rat("2/6", PARSE_FRACTION, "", "").unwrap(), AhpclRational::reduced(1, 3));
    assert_eq!(ahpcl_parse_int("١٢", PARSE_UNICODE_DIGITS, "", "").unwrap(), 12);
}

#[test]
fn arrays_check_their_shapes() {
    let two = ints(&[1, 2]);
    let three = ints(&[1, 2, 3]);
    assert!(ahpcl_array_elementwise(OP_MUL, &two, &three).is_err());
    assert!(ahpcl_array_hadamard(&two, &three).is_err());
    let wide = Array { items: ints(&[1, 2, 3, 4, 5, 6]).items, shape: vec![2, 3], kind: KIND_INT };
    let tall = Array { items: ints(&[1, 2, 3, 4, 5, 6]).items, shape: vec![3, 2], kind: KIND_INT };
    assert!(matches!(ahpcl_array_hadamard(&wide, &tall), Err(Halt::Fail(f)) if f.code == "AHPCL-RUN-0002"));
    assert_eq!(ahpcl_array_hadamard(&wide, &wide).unwrap().items[5], Cell::Int(36));
    let ten = AhpclDecimal { mantissa: 10, scale: 1, failed: 0 };
    assert_eq!(format_decimal(deci_apply(OP_POW, ten, d(50, 0)).unwrap()), "1");
    assert!(ahpcl_array_dot(&two, &three).is_err());
    assert!(ahpcl_array_cross(&two, &two).is_err());
    assert_eq!(ahpcl_array_range(&three, 1, 3, 0).unwrap_err().code, "AHPCL-RUN-0001");
    assert_eq!(ahpcl_array_range(&three, 2, 9, 1).unwrap_err().code, "AHPCL-RUN-0003");
    assert_eq!(ahpcl_array_offset(&three, &vec![2]).unwrap(), 2);
    assert!(ahpcl_array_offset(&three, &vec![1, 1]).is_err());
}

#[test]
fn elements_are_read_as_their_kind() {
    let mut a = ints(&[1, 0, 7]);
    assert_eq!(ahpcl_array_get_bool(&a, 2).unwrap(), 0);
    assert_eq!(format_decimal(ahpcl_array_get_deci(&a, 3).unwrap()), "7");
    assert_eq!(ahpcl_array_get_rat(&a, 3).unwrap(), AhpclRational::reduced(7, 1));
    assert_eq!(ahpcl_array_get_str(&a, 3).unwrap(), "7");
    ahpcl_array_set_bool(&mut a, 1, 1).unwrap();
    assert_eq!(a.items[0], Cell::Bool(true));
    assert_eq!(ahpcl_array_get_int(&a, 1).unwrap(), 1);
    ahpcl_array_set_str(&mut a, 1, "x".to_string()).unwrap();
    assert_eq!(ahpcl_array_get_deci(&a, 1).unwrap().failed, 1);
    assert_eq!(ahpcl_array_get_int(&a, 9).unwrap_err().code, "AHPCL-RUN-0003");
    assert!(ahpcl_array_set_int(&mut a, 0, 1).is_err());
}

#[test]
fn tagged_values_promote() {
    let half = Cell::Rat(AhpclRational::reduced(1, 2));
    assert_eq!(arith(OP_MUL, &Cell::Int(3), &half).unwrap(), Cell::Rat(AhpclRational::reduced(3, 2)));
    assert_eq!(ahpcl_num_cmp(&Cell::Int(1), &Cell::Deci(d(15, 1))).unwrap(), -1);
    assert_eq!(unary(UN_FLOOR, &Cell::Deci(d(-25, 1)), 15).unwrap(), Cell::Int(-3));
    assert_eq!(unary(UN_SQRT, &Cell::Int(16), 15).unwrap(), Cell::Deci(d(4, 0)));
    assert!(unary(UN_SQRT, &Cell::Int(-1), 15).is_err());
    let compared = ahpcl_array_compare(OP_CMP_GT, &ints(&[1, 5]), &ints(&[2])).unwrap();
    assert_eq!(compared.items, vec![Cell::Bool(false), Cell::Bool(true)]);
}

#[test]
fn elements_that_ask_take_the_answers() {
    let a = ints(&[2, 3]);
    assert!(matches!(ahpcl_array_unary(UN_LN, &a, 3), Err(Halt::Ask(_))));
    let answers = vec![Some(Decimal { mantissa: 690, scale: 3 }), Some(Decimal { mantissa: 11, scale: 1 })];
    let r = array_unary_answered(UN_LN, &a, 3, &answers).unwrap();
    assert_eq!(r.shape, vec![2]);
    assert_eq!(r.items[0], Cell::Deci(d(69, 2)));
    assert_eq!(r.items[1], Cell::Deci(d(11, 1)));
    assert!(matches!(array_unary_answered(UN_LN, &a, 3, &vec![None, None]), Err(Halt::Fail(_))));
    let roots = array_unary_answered(UN_SQRT, &ints(&[16, 25]), 3, &vec![None, None]).unwrap();
    assert_eq!(roots.items[1], Cell::Deci(d(5, 0)));
}
