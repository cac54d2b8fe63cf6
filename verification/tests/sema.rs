//! Ranges, types and scopes.

use ahpcl::ast::{Dim, Rank, Sign};
use ahpcl::diagnostics::position::Span;
use ahpcl::sema::interval::{Interval, State};
use ahpcl::sema::scope::{closest, edit_distance, Declared, Scopes, Variable};
use ahpcl::sema::types::{rank_matches, sign_mul, sign_pow, sign_sub, Base, Shape, Type};
use ahpcl::sema::verify::smallest_width;

fn t(base: Base) -> Type {
    Type::scalar(base)
}

fn signed(base: Base, sign: Sign) -> Type {
    Type { base, sign: Some(sign), shape: None, precision: None }
}

fn var() -> Variable {
    Variable { ty: Type::scalar(Base::Num), declared_at: Span::new(0, 1), read_only: false }
}

#[test]
fn arithmetic_tracks_ranges() {
    let a = Interval::new(1, 10);
    let b = Interval::new(2, 3);
    assert_eq!(a.add(b), Interval::new(3, 13));
    assert_eq!(a.sub(b), Interval::new(-2, 8));
    assert_eq!(a.mul(b), Interval::new(2, 30));
}

#[test]
fn multiplication_considers_sign_flips() {
    let a = Interval::new(-3, 2);
    let b = Interval::new(-4, 5);
    assert_eq!(a.mul(b), Interval::new(-15, 12));
}

#[test]
fn a_condition_narrows_a_range() {
    let n = Interval::new(0, 100);
    assert_eq!(n.above(1), Interval::new(2, 100));
    assert_eq!(n.below(50), Interval::new(0, 49));
}

#[test]
fn the_countdown_from_the_docs_reaches_a_fixed_point() {
    let entry = Interval::exact(100);
    let mut n = entry;
    for _ in 0..8 {
        let body = n.above(1).sub(Interval::exact(1));
        let next = n.widen(n.join(body));
        if next == n {
            break;
        }
        n = next;
    }
    assert_eq!(n.lo, None, "widened to unbounded below");

    for _ in 0..4 {
        let body = n.above(1).sub(Interval::exact(1));
        let next = entry.join(body);
        if next == n {
            break;
        }
        n = next;
    }
    assert_eq!(n, Interval::new(1, 100), "narrowing recovers the true range");
    assert!(!n.contains(0), "+int is verified: n is never 0");
}

#[test]
fn widening_stops_a_climbing_range_from_iterating_forever() {
    let mut i = Interval::new(0, 1);
    for _ in 0..3 {
        let next = i.add(Interval::exact(1)).join(i);
        i = i.widen(next);
    }
    assert_eq!(i.hi, None, "an endpoint that keeps moving goes to unbounded");
    assert_eq!(i.lo, Some(0), "the stable end stays put");
}

#[test]
fn states_join_across_branches() {
    let mut a = State::default();
    a.set("x", Interval::exact(1));
    let mut b = State::default();
    b.set("x", Interval::exact(5));
    assert_eq!(a.join(&b).get("x"), Interval::new(1, 5));
}

#[test]
fn an_empty_range_marks_an_unreachable_branch() {
    assert!(Interval::new(5, 10).below(3).is_empty());
}

#[test]
fn narrower_numerics_fit_into_wider_ones() {
    assert!(t(Base::Int).fits_in(&t(Base::Deci)));
    assert!(t(Base::Deci).fits_in(&t(Base::Rat)));
    assert!(t(Base::Int).fits_in(&t(Base::Num)));
    assert!(t(Base::Rat).fits_in(&t(Base::Num)));
}

#[test]
fn wider_numerics_do_not_fit_into_narrower_ones() {
    assert!(!t(Base::Num).fits_in(&t(Base::Int)));
    assert!(!t(Base::Rat).fits_in(&t(Base::Deci)));
}

#[test]
fn a_promise_goes_in_but_never_comes_out() {
    assert!(signed(Base::Int, Sign::Positive).fits_in(&t(Base::Int)));
    assert!(!t(Base::Num).fits_in(&signed(Base::Num, Sign::Positive)));
}

#[test]
fn types_text_and_numbers_do_not_mix() {
    assert!(!t(Base::Str).fits_in(&t(Base::Num)));
    assert!(!t(Base::Num).fits_in(&t(Base::Str)));
    assert!(!t(Base::Bool).fits_in(&t(Base::Num)), "bool is outside the numeric hierarchy");
}

#[test]
fn unknown_dimensions_agree_with_anything() {
    let known = Shape(vec![Dim::Known(3), Dim::Known(4)]);
    let partial = Shape(vec![Dim::Unknown, Dim::Known(4)]);
    assert!(known.agrees_with(&partial));
    assert!(partial.agrees_with(&known));
}

#[test]
fn a_known_dimension_mismatch_is_caught_even_beside_an_unknown() {
    let a = Shape(vec![Dim::Unknown, Dim::Known(3)]);
    let b = Shape(vec![Dim::Known(4), Dim::Known(2)]);
    assert!(!a.agrees_with(&b), "3 and 2 contradict each other");
}

#[test]
fn different_ranks_never_agree() {
    assert!(!Shape(vec![Dim::Known(3)]).agrees_with(&Shape(vec![Dim::Known(3), Dim::Known(1)])));
}

#[test]
fn subtraction_always_widens() {
    assert_eq!(sign_sub(Some(Sign::Positive), Some(Sign::Positive)), None);
}

#[test]
fn two_negatives_multiply_positive() {
    assert_eq!(
        sign_mul(Some(Sign::Negative), Some(Sign::Negative)),
        Some(Sign::Positive)
    );
}

#[test]
fn a_negative_base_gives_an_unknown_sign_under_a_power() {
    assert_eq!(sign_pow(Some(Sign::Negative)), None);
    assert_eq!(sign_pow(Some(Sign::Positive)), Some(Sign::Positive));
}

#[test]
fn rank_names_cross_check_shapes() {
    assert!(rank_matches(Rank::Vector, &Shape(vec![Dim::Known(3)])));
    assert!(!rank_matches(Rank::Matrix, &Shape(vec![Dim::Known(3)])));
    assert!(rank_matches(Rank::Tensor, &Shape(vec![Dim::Known(2), Dim::Known(2), Dim::Known(2)])));
    assert!(!rank_matches(Rank::Tensor, &Shape(vec![Dim::Known(3), Dim::Known(4)])));
}

#[test]
fn a_block_scope_ends_at_its_closing_brace() {
    let mut s = Scopes::new();
    s.push();
    s.declare("y", var());
    assert!(s.lookup("y").is_some());
    s.pop();
    assert!(s.lookup("y").is_none(), "'y' does not outlive the block");
}

#[test]
fn scope_shadowing_is_legal_and_reported() {
    let mut s = Scopes::new();
    s.declare("y", var());
    s.push();
    match s.declare("y", var()) {
        Declared::Shadows { .. } => {}
        Declared::Fresh => panic!("expected the inner 'y' to shadow the outer one"),
    }
}

#[test]
fn redeclaring_in_the_same_scope_is_not_shadowing() {
    let mut s = Scopes::new();
    s.declare("y", var());
    assert!(matches!(s.declare("y", var()), Declared::Fresh));
}

#[test]
fn a_close_name_is_suggested() {
    let names = vec!["widths", "heights", "areas"];
    assert_eq!(closest("width", &names), Some("widths"));
    assert_eq!(closest("completely-different", &names), None);
}

#[test]
fn widths_and_distances_are_exact() {
    assert_eq!(smallest_width(0, 127, None), Some(8));
    assert_eq!(smallest_width(0, 128, None), Some(16));
    assert_eq!(smallest_width(1, 255, Some(Sign::Positive)), Some(8));
    assert_eq!(edit_distance("kitten", "sitting"), 3);
    assert_eq!(edit_distance("", "abc"), 3);
}

#[test]
fn ranges_show_their_ends() {
    assert_eq!(Interval::new(1, 10).render(), "[1, 10]");
    assert_eq!(Interval::unknown().above(4).render(), "[5, ∞]");
    assert_eq!(Interval::new(-2, 3).neg(), Interval::new(-3, 2));
    assert_eq!(Interval::exact(i128::MAX).add(Interval::exact(1)), Interval::unknown());
    assert_eq!(Interval::new(0, 9).meet(Interval::new(5, 20)), Interval::new(5, 9));
}

#[test]
fn types_join_and_show() {
    assert_eq!(Base::Int.join(Base::Deci), Some(Base::Deci));
    assert_eq!(Base::Str.join(Base::Int), None);
    assert_eq!(Base::from_name("infnum"), Some(Base::InfNum));
    assert_eq!(Shape(vec![Dim::Known(2), Dim::Unknown]).render(), "[2, ?]");
    assert_eq!(Shape(vec![Dim::Known(2), Dim::Known(3)]).total(), Some(6));
    assert_eq!(sign_mul(Some(Sign::Positive), None), None);
    assert!(signed(Base::Int, Sign::Positive).render().contains("+int"));
}

#[test]
fn a_join_holds_nothing_beyond_its_two_ranges() {
    let a = Interval::new(-2, 1);
    let b = Interval::new(5, 9);
    let j = a.join(b);
    assert_eq!(j, Interval::new(-2, 9));
    assert_eq!(j.join(a), j);
    assert_eq!(j.join(b), j);
}
