use kalc_kman::executor::Executor;
use kalc_kman::lexer::Lexer;
use kalc_kman::token::{Flt, FloatReq, Num};
use kalc_kman::{kalc, kalc_i64, Error};

/// Turns a literal the library hands out into the `f64` it stands for.
fn num_to_f64(n: &Num) -> f64 {
    match n {
        Num::I(i) => *i as f64,
        Num::F(Flt::Dec(d)) => std::str::from_utf8(d).unwrap().parse().unwrap(),
        Num::F(Flt::Bits(b)) => f64::from_bits(*b),
    }
}

/// Performs one floating-point operation the evaluator asked for.
fn do_float(q: &FloatReq) -> u64 {
    match q {
        FloatReq::Add(a, b) => (num_to_f64(a) + num_to_f64(b)).to_bits(),
        FloatReq::Sub(a, b) => (num_to_f64(a) - num_to_f64(b)).to_bits(),
        FloatReq::Mul(a, b) => (num_to_f64(a) * num_to_f64(b)).to_bits(),
        FloatReq::Div(a, b) => (num_to_f64(a) / num_to_f64(b)).to_bits(),
        FloatReq::Pow(a, b) => num_to_f64(a).powf(num_to_f64(b)).to_bits(),
        FloatReq::Sin(a) => num_to_f64(a).sin().to_bits(),
        FloatReq::Cos(a) => num_to_f64(a).cos().to_bits(),
        FloatReq::Sqrt(a) => num_to_f64(a).sqrt().to_bits(),
    }
}

/// The full pipeline with the floating-point work supplied, as a caller
/// of the library would run it.
fn compute_f64(formula: &str) -> Result<f64, Error> {
    let mut ex = kalc(formula)?;
    let mut req = ex.execute();
    let mut rounds = 0;
    while let Some(q) = req {
        req = ex.resume(do_float(&q));
        rounds += 1;
        assert!(rounds < 10_000);
    }
    Ok(num_to_f64(&ex.value()?))
}

#[test]
fn add() {
    assert_eq!(kalc_i64("2 + 2").unwrap(), 4);
    assert_eq!(kalc_i64("2 + 2 + 2").unwrap(), 6)
}

#[test]
fn sub() {
    assert_eq!(kalc_i64("10 - 4").unwrap(), 6);
    assert_eq!(kalc_i64("10 - 2 - 2").unwrap(), 6);
}

#[test]
fn mul() {
    assert_eq!(kalc_i64("2 * 3").unwrap(), 6);
    assert_eq!(kalc_i64("3(3)").unwrap(), 9)
}

#[test]
fn div() {
    assert_eq!(kalc_i64("6 / 2").unwrap(), 3);
}

#[test]
fn order() {
    assert_eq!(kalc_i64("2(3-1)").unwrap(), 4);
    assert_eq!(kalc_i64("2(3-(2 - 1))").unwrap(), 4)
}

#[test]
fn sin() {
    assert_eq!(compute_f64("sin(1)").unwrap(), 0.8414709848078965)
}

#[test]
fn cos_of_zero() {
    assert_eq!(compute_f64("cos(0)").unwrap(), 1.0)
}

#[test]
fn sqrt_of_four() {
    assert_eq!(compute_f64("sqrt(4)").unwrap(), 2.0)
}

#[test]
fn pow_two_cubed() {
    assert_eq!(compute_f64("pow(2, 3)").unwrap(), 8.0)
}

#[test]
fn float_addition() {
    assert_eq!(compute_f64("1.5 + 2").unwrap(), 3.5)
}

#[test]
fn division_by_zero_is_zero() {
    assert_eq!(kalc_i64("5 / 0").unwrap(), 0);
    assert_eq!(compute_f64("5.5 / 0.0").unwrap(), 0.0);
}

#[test]
fn division_truncates_toward_zero() {
    assert_eq!(kalc_i64("7 / 2").unwrap(), 3);
    assert_eq!(kalc_i64("0 - 7 / 2").unwrap(), -3);
}

#[test]
fn float_literal_truncates() {
    assert_eq!(kalc_i64("7.9").unwrap(), 7);
    assert_eq!(kalc_i64("0.5").unwrap(), 0);
}

#[test]
fn integer_result_widens_to_float() {
    assert_eq!(compute_f64("2 + 2").unwrap(), 4.0)
}

#[test]
fn evaluating_a_literal_is_a_noop() {
    let mut lexer = Lexer::default();
    lexer.parse("5").unwrap();
    let mut ex = Executor::new(lexer);
    assert!(ex.execute().is_none());
    assert_eq!(ex.get_i64().unwrap(), 5);
    assert!(ex.execute().is_none());
    assert_eq!(ex.get_i64().unwrap(), 5);
}

#[test]
fn unknown_function_is_rejected() {
    assert_eq!(kalc_i64("foo(1)"), Err(Error::InvalidFunction { offset: 3 }));
}

#[test]
fn invalid_character_is_rejected() {
    assert_eq!(kalc_i64("2 # 2"), Err(Error::InvalidCharacter { offset: 2 }));
}

#[test]
fn two_decimal_points_are_rejected() {
    assert!(matches!(kalc_i64("1.2.3"), Err(Error::MalformedNumber { .. })));
}

#[test]
fn oversized_integer_is_rejected() {
    assert!(matches!(
        kalc_i64("99999999999999999999"),
        Err(Error::MalformedNumber { .. })
    ));
    assert_eq!(kalc_i64("9223372036854775807").unwrap(), i64::MAX);
}

#[test]
fn too_deep_nesting_is_rejected() {
    let formula = format!("{}1{}", "(".repeat(65), ")".repeat(65));
    assert!(matches!(kalc_i64(&formula), Err(Error::TooDeep { .. })));
    let shallow = format!("{}1{}", "(".repeat(64), ")".repeat(64));
    assert_eq!(kalc_i64(&shallow).unwrap(), 1);
}

#[test]
fn unreduced_tree_is_reported() {
    assert_eq!(kalc_i64("+"), Err(Error::NotReduced));
    assert_eq!(kalc_i64(""), Err(Error::NotReduced));
}

#[test]
fn float_work_is_reported_to_the_integer_reader() {
    assert_eq!(kalc_i64("1.5 + 2"), Err(Error::FloatNeeded));
    assert_eq!(kalc_i64("sin(1)"), Err(Error::FloatNeeded));
}

#[test]
fn integer_addition_wraps() {
    assert_eq!(kalc_i64("9223372036854775807 + 1").unwrap(), i64::MIN);
}

#[test]
fn adjacent_groups_multiply() {
    assert_eq!(kalc_i64("(2)(3)").unwrap(), 6);
}

#[test]
fn separators_are_ignored() {
    assert_eq!(kalc_i64("1_000 + 2 000").unwrap(), 3000);
}

#[test]
fn operators_fold_in_encounter_order() {
    // without parentheses the fold is strictly left to right, not by
    // mathematical precedence
    assert_eq!(kalc_i64("2+3*4").unwrap(), 20);
}

#[test]
fn non_ascii_input_is_rejected_at_its_byte() {
    assert_eq!(kalc_i64("2é"), Err(Error::InvalidCharacter { offset: 1 }));
}

#[test]
fn pow_with_one_argument_never_reduces() {
    assert_eq!(kalc_i64("pow(23)"), Err(Error::NotReduced));
}

#[test]
fn error_messages() {
    assert_eq!(Error::NotReduced.message(), "the tree is not reduced to a literal");
    assert_eq!(Error::InvalidCharacter { offset: 0 }.message(), "invalid character");
}
