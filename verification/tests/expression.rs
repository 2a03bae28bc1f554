use infix_eval::emitter::{EmitResult, VariableMap};
use infix_eval::expression::{Expression, ExpressionCreationError};
use infix_eval::typing::Kind;
use infix_eval::{BindVariablesError, EvalError, ParserError, TokenizerError};

fn bindings(pairs: &[(&str, f32)]) -> VariableMap {
    let mut map = VariableMap::new();
    for (name, number) in pairs {
        map.insert(name.to_string(), number.to_bits());
    }
    map
}

fn number(result: EmitResult) -> f32 {
    match result.as_float_bits() {
        Some(bits) => f32::from_bits(bits),
        None => panic!("value is boolean, not a number"),
    }
}

fn boolean(result: EmitResult) -> bool {
    match result.as_bool() {
        Some(value) => value,
        None => panic!("value is number, not a boolean"),
    }
}

#[test]
fn expression_test_1() {
    let expr = Expression::new("1+2").unwrap();
    let res: f32 = number(expr.eval().unwrap());

    assert_eq!(res, 3.0);
}

#[test]
fn expression_test_2() {
    let expr = Expression::new("1 + 2 * 3").unwrap();
    let res: f32 = number(expr.eval().unwrap());

    assert_eq!(res, 7.0);
}

#[test]
fn expression_test_3() {
    let expr = Expression::new("(1 + 2) * 3").unwrap();
    let res: f32 = number(expr.eval().unwrap());

    assert_eq!(res, 9.0);
}

#[test]
fn expression_test_4() {
    let expr = Expression::new("5 * (3 + 4) - 2").unwrap();
    let res: f32 = number(expr.eval().unwrap());

    assert_eq!(res, 33.0);
}

#[test]
fn expression_test_5() {
    let mut expr = Expression::new("{a} > {b} && ({c} <= {d} || {e} >= {f}/{g})").unwrap();
    expr.bind_variables(&bindings(&[("a", 3.0), ("b", 5.0), ("c", 9.0), ("d", 4.0), ("e", 1.0), ("f", 9.0), ("g", 3.0)]))
    .unwrap();
    let false_res: bool = boolean(expr.eval().unwrap());

    assert_eq!(false_res, false);

    expr.bind_variables(&bindings(&[("a", 6.0), ("b", 5.0), ("c", 9.0), ("d", 4.0), ("e", 4.0), ("f", 9.0), ("g", 3.0)]))
    .unwrap();

    let true_res: bool = boolean(expr.eval().unwrap());

    assert_eq!(true_res, true);
}

#[test]
fn expression_test_6() {
    let expr = Expression::new("true || (false && true)").unwrap();
    let res: bool = boolean(expr.eval().unwrap());

    assert_eq!(res, true);
}

#[test]
fn expression_test_7() {
    let expr = Expression::new("true || false && true").unwrap();
    let res: bool = boolean(expr.eval().unwrap());

    assert_eq!(res, true);
}

#[test]
fn subtraction_associates_to_the_left() {
    let expr = Expression::new("5 - 3 - 1").unwrap();
    assert_eq!(number(expr.eval().unwrap()), 1.0);
}

#[test]
fn division_associates_to_the_left() {
    let expr = Expression::new("8 / 4 / 2").unwrap();
    assert_eq!(number(expr.eval().unwrap()), 1.0);
}

#[test]
fn an_open_parenthesis_is_reported() {
    match Expression::new("(1 + 2") {
        Err(ExpressionCreationError::ParserError(error)) => {
            assert_eq!(error, ParserError::ExtraLeftParenthesis)
        }
        other => panic!("unexpected: {:?}", other),
    }
}

#[test]
fn a_closing_parenthesis_without_partner_is_reported() {
    match Expression::new("1 + 2)") {
        Err(ExpressionCreationError::ParserError(error)) => {
            assert_eq!(error, ParserError::NoMatchingLeftParenthesis)
        }
        other => panic!("unexpected: {:?}", other),
    }
}

#[test]
fn unrecognized_text_is_reported() {
    match Expression::new("1 + x") {
        Err(ExpressionCreationError::TokenizerError(error)) => {
            assert_eq!(error, TokenizerError::NoTokenMatched("x".to_string()))
        }
        other => panic!("unexpected: {:?}", other),
    }
}

#[test]
fn the_text_is_kept() {
    let expr = Expression::new("1 + {x}").unwrap();
    assert_eq!(expr.str_expr, "1 + {x}");
}

#[test]
fn variables_must_be_bound_before_evaluation() {
    let mut expr = Expression::new("{x} + 1").unwrap();
    assert_eq!(expr.eval(), Err(EvalError::NoVariables));
    assert_eq!(
        expr.bind_variables(&bindings(&[("y", 1.0)])),
        Err(BindVariablesError::UnknownVariable("x".to_string()))
    );
    assert_eq!(expr.eval(), Err(EvalError::NoVariables));
    expr.bind_variables(&bindings(&[("x", 1.0)])).unwrap();
    assert_eq!(number(expr.eval().unwrap()), 2.0);
}

#[test]
fn evaluating_twice_gives_the_same() {
    let mut expr = Expression::new("{x} * {x} - 1 / {y}").unwrap();
    expr.bind_variables(&bindings(&[("x", 1.5), ("y", 3.0)]))
        .unwrap();
    let first = expr.eval().unwrap();
    let second = expr.eval().unwrap();
    assert_eq!(first.as_float_bits(), second.as_float_bits());
    assert_eq!(number(first), 1.5f32 * 1.5f32 - 1.0f32 / 3.0f32);
}

#[test]
fn binding_again_needs_no_new_expression() {
    let mut expr = Expression::new("{x} + 1 < {y}").unwrap();
    expr.bind_variables(&bindings(&[("x", 1.0), ("y", 3.0)]))
        .unwrap();
    assert_eq!(boolean(expr.eval().unwrap()), true);
    expr.bind_variables(&bindings(&[("x", 2.0), ("y", 3.0)]))
        .unwrap();
    assert_eq!(boolean(expr.eval().unwrap()), false);
    expr.bind_variables(&bindings(&[("x", 1.0), ("y", 3.0)]))
        .unwrap();
    assert_eq!(boolean(expr.eval().unwrap()), true);
}

#[test]
fn an_empty_text_is_an_expression_without_value() {
    let expr = Expression::new("").unwrap();
    assert_eq!(expr.checked_eval(), None);
}

#[test]
fn an_ill_typed_expression_has_no_value() {
    let expr = Expression::new("1 + true").unwrap();
    assert_eq!(expr.checked_eval(), None);
    let expr = Expression::new("1 < 2 < 3").unwrap();
    assert_eq!(expr.checked_eval(), None);
}

#[test]
fn operators_without_operands_lack_values() {
    let expr = Expression::new("1 +").unwrap();
    assert_eq!(expr.eval(), Err(EvalError::NotEnoughValues));
    let expr = Expression::new("1 2").unwrap();
    assert_eq!(expr.eval(), Err(EvalError::TooMuchValues));
}

#[test]
fn relational_operators_bind_tighter_than_logical_ones() {
    let expr = Expression::new("1 < 2 && 2.5 >= 2.5 || 1 = 2").unwrap();
    assert_eq!(boolean(expr.eval().unwrap()), true);
    let expr = Expression::new("1 + 1 = 2").unwrap();
    assert_eq!(boolean(expr.eval().unwrap()), true);
    let expr = Expression::new("0.1 + 0.2 = 0.3").unwrap();
    assert_eq!(boolean(expr.eval().unwrap()), 0.1f32 + 0.2f32 == 0.3f32);
}

#[test]
fn division_by_zero_gives_infinity() {
    let expr = Expression::new("1 / 0").unwrap();
    assert_eq!(number(expr.eval().unwrap()), f32::INFINITY);
    let expr = Expression::new("0 / 0 = 0 / 0").unwrap();
    assert_eq!(boolean(expr.eval().unwrap()), false);
}

#[test]
fn the_type_of_an_expression_is_known_once_it_is_built() {
    assert_eq!(
        Expression::new("{a} > {b} && ({c} <= {d} || {e} >= {f}/{g})")
            .unwrap()
            .result_type(),
        Some(Ok(Kind::Boolean))
    );
    assert_eq!(
        Expression::new("5 * (3 + 4) - 2").unwrap().result_type(),
        Some(Ok(Kind::Number))
    );
    assert_eq!(Expression::new("1 + true").unwrap().result_type(), None);
    assert_eq!(Expression::new("").unwrap().result_type(), None);
    assert_eq!(
        Expression::new("1 +").unwrap().result_type(),
        Some(Err(EvalError::NotEnoughValues))
    );
}

#[test]
fn a_copy_of_an_expression_evaluates_alike() {
    let mut expr = Expression::new("{x} * 2").unwrap();
    expr.bind_variables(&bindings(&[("x", 4.0)])).unwrap();
    let copy = expr.clone();
    assert_eq!(copy.str_expr, "{x} * 2");
    assert_eq!(number(copy.eval().unwrap()), 8.0);
}

#[test]
fn nested_parentheses_are_followed() {
    let expr = Expression::new("((1 + 2) * (3 + (4 - 1))) / 2").unwrap();
    assert_eq!(number(expr.eval().unwrap()), 9.0);
    let expr = Expression::new("2 * 3 + 4 * 5 - 6 / 3").unwrap();
    assert_eq!(number(expr.eval().unwrap()), 24.0);
}
