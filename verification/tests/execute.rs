use calculator::rat::Rat;
use calculator::token::execute;
use calculator::token::EvalError;

/// Evaluate a line and return its value as a float.
fn val(s: &str) -> f64 {
    match execute(String::from(s)) {
        Ok(r) => {
            assert!(r.den > 0, "denominator must stay positive");
            r.num as f64 / r.den as f64
        }
        Err(e) => panic!("expected a value for {:?}, got {:?}", s, e),
    }
}

/// Evaluate a line and return the error it reports.
fn err(s: &str) -> EvalError {
    match execute(String::from(s)) {
        Ok(r) => panic!("expected an error for {:?}, got {:?}", s, r),
        Err(e) => e,
    }
}

#[test]
fn precedence_multiplication_binds_first() {
    assert_eq!(val("2+3*4"), 14.0);
}

#[test]
fn precedence_brackets_override() {
    assert_eq!(val("(2+3)*4"), 20.0);
}

#[test]
fn left_associative_subtraction() {
    assert_eq!(val("8-4-2"), 2.0);
}

#[test]
fn left_associative_division() {
    assert_eq!(val("8/4/2"), 1.0);
}

#[test]
fn unary_minus_leading() {
    assert_eq!(val("-5+3"), -2.0);
}

#[test]
fn unary_minus_chained() {
    assert_eq!(val("--5"), 5.0);
}

#[test]
fn unary_minus_after_operator() {
    assert_eq!(val("2*-3"), -6.0);
}

#[test]
fn subtraction_of_negative() {
    assert_eq!(val("5--3"), 8.0);
}

#[test]
fn bracketed_atom() {
    assert_eq!(val("(5)"), 5.0);
}

#[test]
fn empty_brackets_are_malformed() {
    assert_eq!(err("()"), EvalError::MalformedExpression);
}

#[test]
fn unary_minus_before_bracket_applies_to_next_number() {
    // A pending sign is consumed by the next literal, even across `(`:
    // -(3+4) evaluates as (-3+4).
    assert_eq!(val("-(3+4)"), 1.0);
}

#[test]
fn division_by_zero() {
    assert_eq!(err("5/0"), EvalError::DivisionByZero);
}

#[test]
fn zero_divided_by_zero() {
    assert_eq!(err("0/0"), EvalError::DivisionByZero);
}

#[test]
fn division_by_bracketed_zero() {
    assert_eq!(err("5/(2-2)"), EvalError::DivisionByZero);
}

#[test]
fn leading_minus_on_final_literal() {
    assert_eq!(val("-5"), -5.0);
}

#[test]
fn pending_sign_survives_spaces() {
    assert_eq!(val("- 5"), -5.0);
}

#[test]
fn whitespace_is_skipped() {
    assert_eq!(val("  1 +   2 "), 3.0);
    assert_eq!(
        execute(String::from("  1 +   2 ")),
        execute(String::from("1+2"))
    );
}

#[test]
fn invalid_character() {
    assert_eq!(err("2&3"), EvalError::InvalidCharacter);
}

#[test]
fn evaluation_is_repeatable() {
    let first = execute(String::from("2+3*4"));
    let second = execute(String::from("2+3*4"));
    assert_eq!(first, second);
    let first_err = execute(String::from("5/0"));
    let second_err = execute(String::from("5/0"));
    assert_eq!(first_err, second_err);
}

#[test]
fn oversized_literal_is_malformed_number() {
    assert_eq!(err("99999999999999999999"), EvalError::MalformedNumber);
}

#[test]
fn largest_literal_still_parses() {
    assert_eq!(val("9223372036854775807-9223372036854775807"), 0.0);
}

#[test]
fn product_overflow_is_reported() {
    assert_eq!(
        err("9000000000000000000*9000000000000000000"),
        EvalError::Overflow
    );
}

#[test]
fn dangling_operator_is_malformed() {
    assert_eq!(err("1+"), EvalError::MalformedExpression);
}

#[test]
fn empty_input_is_malformed() {
    assert_eq!(err(""), EvalError::MalformedExpression);
    assert_eq!(err("   "), EvalError::MalformedExpression);
}

#[test]
fn lone_operator_defaults_to_zero_operands() {
    assert_eq!(val("+"), 0.0);
}

#[test]
fn unmatched_close_bracket_as_operand() {
    assert_eq!(err("2+)"), EvalError::InternalInvariantViolation);
}

#[test]
fn exact_fraction() {
    assert_eq!(val("5/2"), 2.5);
    let r = execute(String::from("1/3")).unwrap();
    assert_eq!(r, Rat { num: 1, den: 3 });
}

#[test]
fn nested_brackets_reduce_inside_out() {
    assert_eq!(val("2*(3+(4+5))"), 24.0);
}

#[test]
fn redundant_double_brackets_are_rejected() {
    // A bracket pair is elided only once its content has folded to a single
    // node, and one elision pass runs per fold; doubled brackets around the
    // same content leave the reduction stuck with the outer pair.
    assert_eq!(err("((2+3))*2"), EvalError::MalformedExpression);
}

#[test]
fn mixed_precedence_sum_of_products() {
    assert_eq!(val("2*3+4*5"), 26.0);
}

#[test]
fn deep_bracket_depth_beats_outer_operators() {
    assert_eq!(val("2*(3+4)"), 14.0);
    assert_eq!(val("(1+2)*(3+4)"), 21.0);
}
