use infix_eval::emitter::{
    apply, contains_variable, duplicate, EmitResult, Emitter, EvalError, VariableMap,
};
use infix_eval::parser::{OperatorType, Value};
use infix_eval::typing::{make_kind, Kind};
use infix_eval::BindVariablesError;

fn bindings(pairs: &[(&str, f32)]) -> VariableMap {
    let mut map = VariableMap::new();
    for (name, number) in pairs {
        map.insert(name.to_string(), number.to_bits());
    }
    map
}

#[test]
fn test_new() {
    // 1 + 2
    let no_vars = Emitter::new(vec![
        Value::Number(1.0f32.to_bits()),
        Value::Number(2.0f32.to_bits()),
        Value::Operator(OperatorType::Plus),
    ]);

    assert_eq!(
        *no_vars.no_var_rpn(),
        Some(vec![
            Value::Number(1.0f32.to_bits()),
            Value::Number(2.0f32.to_bits()),
            Value::Operator(OperatorType::Plus),
        ])
    );

    let with_vars = Emitter::new(vec![
        Value::Number(1.0f32.to_bits()),
        Value::Variable("x".to_string()),
        Value::Operator(OperatorType::Plus),
    ]);

    assert_eq!(*with_vars.no_var_rpn(), None);
}

#[test]
fn test_bind_variables() {
    let mut emitter = Emitter::new(vec![
        Value::Number(1.0f32.to_bits()),
        Value::Variable("x".to_string()),
        Value::Operator(OperatorType::Plus),
    ]);

    let var_map: VariableMap = bindings(&[("x", 3.0)]);
    emitter.bind_variables(&var_map).unwrap();
    assert_eq!(
        *emitter.no_var_rpn(),
        Some(vec![
            Value::Number(1.0f32.to_bits()),
            Value::Number(3.0f32.to_bits()),
            Value::Operator(OperatorType::Plus),
        ])
    );
}

#[test]
#[should_panic]
fn test_bind_variables_panic() {
    let mut emitter = Emitter::new(vec![
        Value::Number(1.0f32.to_bits()),
        Value::Variable("x".to_string()),
        Value::Operator(OperatorType::Plus),
    ]);

    let var_map: VariableMap = bindings(&[("y", 3.0)]);
    emitter.bind_variables(&var_map).unwrap();
    assert_eq!(
        *emitter.no_var_rpn(),
        Some(vec![
            Value::Number(1.0f32.to_bits()),
            Value::Number(3.0f32.to_bits()),
            Value::Operator(OperatorType::Plus),
        ])
    );
}

#[test]
fn emitter_test_1() {
    // 1 + 2
    let rpn = vec![
        Value::Number(1.0f32.to_bits()),
        Value::Number(2.0f32.to_bits()),
        Value::Operator(OperatorType::Plus),
    ];
    let emitter = Emitter::new(rpn);

    assert_eq!(emitter.eval().unwrap(), EmitResult::Number(3.0f32.to_bits()));
}

#[test]
fn emitter_test_2() {
    // 1 + 2 * 3
    let rpn = vec![
        Value::Number(1.0f32.to_bits()),
        Value::Number(2.0f32.to_bits()),
        Value::Number(3.0f32.to_bits()),
        Value::Operator(OperatorType::Times),
        Value::Operator(OperatorType::Plus),
    ];
    let emitter = Emitter::new(rpn);

    assert_eq!(emitter.eval().unwrap(), EmitResult::Number(7.0f32.to_bits()));
}

#[test]
fn emitter_test_3() {
    // (1 + 2) * 3
    let rpn = vec![
        Value::Number(1.0f32.to_bits()),
        Value::Number(2.0f32.to_bits()),
        Value::Operator(OperatorType::Plus),
        Value::Number(3.0f32.to_bits()),
        Value::Operator(OperatorType::Times),
    ];
    let emitter = Emitter::new(rpn);

    assert_eq!(emitter.eval().unwrap(), EmitResult::Number(9.0f32.to_bits()));
}

#[test]
fn emitter_test_4() {
    // 5 * (3 + 4) - 2
    let rpn = vec![
        Value::Number(5.0f32.to_bits()),
        Value::Number(3.0f32.to_bits()),
        Value::Number(4.0f32.to_bits()),
        Value::Operator(OperatorType::Plus),
        Value::Operator(OperatorType::Times),
        Value::Number(2.0f32.to_bits()),
        Value::Operator(OperatorType::Minus),
    ];
    let emitter = Emitter::new(rpn);

    assert_eq!(emitter.eval().unwrap(), EmitResult::Number(33.0f32.to_bits()));
}

#[test]
fn emitter_test_5() {
    // a > b && (c <= d || e >= f/g)
    let rpn = vec![
        Value::Variable("a".to_string()),
        Value::Variable("b".to_string()),
        Value::Operator(OperatorType::GT),
        Value::Variable("c".to_string()),
        Value::Variable("d".to_string()),
        Value::Operator(OperatorType::LE),
        Value::Variable("e".to_string()),
        Value::Variable("f".to_string()),
        Value::Variable("g".to_string()),
        Value::Operator(OperatorType::Divide),
        Value::Operator(OperatorType::GE),
        Value::Operator(OperatorType::Or),
        Value::Operator(OperatorType::And),
    ];
    let mut emitter = Emitter::new(rpn);
    emitter
        .bind_variables(&bindings(&[("a", 3.0), ("b", 5.0), ("c", 9.0), ("d", 4.0), ("e", 1.0), ("f", 9.0), ("g", 3.0)]))
        .unwrap();

    assert_eq!(emitter.eval().unwrap(), EmitResult::Boolean(false));

    emitter
        .bind_variables(&bindings(&[("a", 6.0), ("b", 5.0), ("c", 9.0), ("d", 4.0), ("e", 4.0), ("f", 9.0), ("g", 3.0)]))
        .unwrap();

    assert_eq!(emitter.eval().unwrap(), EmitResult::Boolean(true));
}

#[test]
fn emitter_test_6() {
    let rpn = vec![Value::Boolean(true)];
    let emitter = Emitter::new(rpn);
    assert_eq!(emitter.eval().unwrap(), EmitResult::Boolean(true));

    let rpn = vec![Value::Boolean(false)];
    let emitter = Emitter::new(rpn);
    assert_eq!(emitter.eval().unwrap(), EmitResult::Boolean(false));
}

#[test]
fn emitter_test_7() {
    let rpn = vec![
        Value::Boolean(true),
        Value::Boolean(false),
        Value::Operator(OperatorType::And),
        Value::Boolean(true),
        Value::Operator(OperatorType::Or),
    ];
    let emitter = Emitter::new(rpn);
    assert_eq!(emitter.eval().unwrap(), EmitResult::Boolean(true));
}

#[test]
fn an_unknown_variable_is_named() {
    let mut emitter = Emitter::new(vec![
        Value::Number(1.0f32.to_bits()),
        Value::Variable("x".to_string()),
        Value::Operator(OperatorType::Plus),
    ]);
    let var_map: VariableMap = bindings(&[("y", 3.0)]);
    assert_eq!(
        emitter.bind_variables(&var_map),
        Err(BindVariablesError::UnknownVariable("x".to_string()))
    );
    assert_eq!(*emitter.no_var_rpn(), None);
    assert_eq!(emitter.eval(), Err(EvalError::NoVariables));
}

#[test]
fn the_first_unknown_variable_is_named() {
    let mut emitter = Emitter::new(vec![
        Value::Variable("a".to_string()),
        Value::Variable("b".to_string()),
        Value::Variable("c".to_string()),
        Value::Operator(OperatorType::Plus),
        Value::Operator(OperatorType::Plus),
    ]);
    assert_eq!(
        emitter.bind_variables(&bindings(&[("a", 1.0)])),
        Err(BindVariablesError::UnknownVariable("b".to_string()))
    );
}

#[test]
fn a_failed_binding_keeps_the_last_good_one() {
    let mut emitter = Emitter::new(vec![
        Value::Variable("x".to_string()),
        Value::Number(1.0f32.to_bits()),
        Value::Operator(OperatorType::Plus),
    ]);
    emitter.bind_variables(&bindings(&[("x", 2.0)])).unwrap();
    assert_eq!(
        emitter.bind_variables(&bindings(&[("y", 5.0)])),
        Err(BindVariablesError::UnknownVariable("x".to_string()))
    );
    assert_eq!(emitter.eval().unwrap(), EmitResult::Number(3.0f32.to_bits()));
    assert_eq!(
        *emitter.rpn(),
        vec![
            Value::Variable("x".to_string()),
            Value::Number(1.0f32.to_bits()),
            Value::Operator(OperatorType::Plus),
        ]
    );
}

#[test]
fn names_that_are_not_used_are_ignored() {
    let mut emitter = Emitter::new(vec![
        Value::Variable("x".to_string()),
        Value::Number(1.0f32.to_bits()),
        Value::Operator(OperatorType::Minus),
    ]);
    emitter
        .bind_variables(&bindings(&[("x", 2.0), ("y", 7.0), ("z", 9.0)]))
        .unwrap();
    assert_eq!(emitter.eval().unwrap(), EmitResult::Number(1.0f32.to_bits()));
}

#[test]
fn an_operator_needs_two_values() {
    let emitter = Emitter::new(vec![
        Value::Number(1.0f32.to_bits()),
        Value::Operator(OperatorType::Plus),
    ]);
    assert_eq!(emitter.eval(), Err(EvalError::NotEnoughValues));
    let emitter = Emitter::new(vec![Value::Operator(OperatorType::LeftParenthesis)]);
    assert_eq!(emitter.eval(), Err(EvalError::NotEnoughValues));
}

#[test]
fn one_value_must_be_left() {
    let emitter = Emitter::new(vec![
        Value::Number(1.0f32.to_bits()),
        Value::Number(2.0f32.to_bits()),
    ]);
    assert_eq!(emitter.eval(), Err(EvalError::TooMuchValues));
}

#[test]
fn variables_must_be_bound_first() {
    let emitter = Emitter::new(vec![Value::Variable("x".to_string())]);
    assert_eq!(emitter.eval(), Err(EvalError::NoVariables));
    assert_eq!(emitter.checked_eval(), Some(Err(EvalError::NoVariables)));
}

#[test]
fn the_lower_value_is_the_left_operand() {
    let emitter = Emitter::new(vec![
        Value::Number(5.0f32.to_bits()),
        Value::Number(3.0f32.to_bits()),
        Value::Operator(OperatorType::Minus),
    ]);
    assert_eq!(emitter.eval().unwrap(), EmitResult::Number(2.0f32.to_bits()));
    let emitter = Emitter::new(vec![
        Value::Number(6.0f32.to_bits()),
        Value::Number(3.0f32.to_bits()),
        Value::Operator(OperatorType::Divide),
    ]);
    assert_eq!(emitter.eval().unwrap(), EmitResult::Number(2.0f32.to_bits()));
    let emitter = Emitter::new(vec![
        Value::Number(5.0f32.to_bits()),
        Value::Number(3.0f32.to_bits()),
        Value::Operator(OperatorType::GT),
    ]);
    assert_eq!(emitter.eval().unwrap(), EmitResult::Boolean(true));
}

#[test]
fn evaluation_is_not_defined_for_operands_of_the_wrong_type() {
    let emitter = Emitter::new(vec![
        Value::Number(1.0f32.to_bits()),
        Value::Boolean(true),
        Value::Operator(OperatorType::Plus),
    ]);
    assert_eq!(emitter.checked_eval(), None);
    let emitter = Emitter::new(vec![
        Value::Number(1.0f32.to_bits()),
        Value::Number(2.0f32.to_bits()),
        Value::Operator(OperatorType::And),
    ]);
    assert_eq!(emitter.checked_eval(), None);
    let emitter = Emitter::new(vec![
        Value::Boolean(false),
        Value::Boolean(true),
        Value::Operator(OperatorType::Eq),
    ]);
    assert_eq!(emitter.checked_eval(), None);
    let emitter = Emitter::new(vec![
        Value::Number(1.0f32.to_bits()),
        Value::Number(2.0f32.to_bits()),
        Value::Operator(OperatorType::LeftParenthesis),
    ]);
    assert_eq!(emitter.checked_eval(), None);
}

#[test]
fn evaluation_is_not_defined_for_an_empty_sequence() {
    let emitter = Emitter::new(vec![]);
    assert_eq!(emitter.checked_eval(), None);
}

#[test]
fn checked_evaluation_agrees_with_evaluation() {
    let emitter = Emitter::new(vec![
        Value::Number(1.0f32.to_bits()),
        Value::Number(2.0f32.to_bits()),
        Value::Number(3.0f32.to_bits()),
        Value::Operator(OperatorType::Times),
        Value::Operator(OperatorType::Plus),
    ]);
    assert_eq!(
        emitter.checked_eval(),
        Some(Ok(EmitResult::Number(7.0f32.to_bits())))
    );
    assert_eq!(emitter.checked_eval(), Some(emitter.eval()));
}

#[test]
fn results_convert_to_their_own_type_only() {
    assert_eq!(EmitResult::Boolean(true).as_bool(), Some(true));
    assert_eq!(EmitResult::Boolean(true).as_float_bits(), None);
    assert_eq!(
        EmitResult::Number(2.5f32.to_bits()).as_float_bits(),
        Some(2.5f32.to_bits())
    );
    assert_eq!(EmitResult::Number(2.5f32.to_bits()).as_bool(), None);
}

#[test]
fn results_are_equal_as_numbers_are() {
    assert_eq!(
        EmitResult::Number(0.0f32.to_bits()),
        EmitResult::Number((-0.0f32).to_bits())
    );
    assert_ne!(
        EmitResult::Number(f32::NAN.to_bits()),
        EmitResult::Number(f32::NAN.to_bits())
    );
    assert_ne!(EmitResult::Number(1.0f32.to_bits()), EmitResult::Boolean(true));
}

#[test]
fn the_type_of_the_result_is_known_before_binding() {
    let emitter = Emitter::new(vec![
        Value::Variable("x".to_string()),
        Value::Number(1.0f32.to_bits()),
        Value::Operator(OperatorType::Plus),
    ]);
    assert_eq!(emitter.result_type(), Some(Ok(Kind::Number)));
    let emitter = Emitter::new(vec![
        Value::Variable("x".to_string()),
        Value::Number(1.0f32.to_bits()),
        Value::Operator(OperatorType::LE),
        Value::Boolean(true),
        Value::Operator(OperatorType::Or),
    ]);
    assert_eq!(emitter.result_type(), Some(Ok(Kind::Boolean)));
    let emitter = Emitter::new(vec![
        Value::Variable("x".to_string()),
        Value::Boolean(true),
        Value::Operator(OperatorType::Plus),
    ]);
    assert_eq!(emitter.result_type(), None);
    let emitter = Emitter::new(vec![
        Value::Variable("x".to_string()),
        Value::Operator(OperatorType::Plus),
    ]);
    assert_eq!(emitter.result_type(), Some(Err(EvalError::NotEnoughValues)));
    let emitter = Emitter::new(vec![
        Value::Variable("x".to_string()),
        Value::Variable("y".to_string()),
    ]);
    assert_eq!(emitter.result_type(), Some(Err(EvalError::TooMuchValues)));
    assert_eq!(Emitter::new(vec![]).result_type(), None);
}

#[test]
fn the_type_of_the_result_is_that_of_the_value() {
    let mut emitter = Emitter::new(vec![
        Value::Variable("x".to_string()),
        Value::Number(1.0f32.to_bits()),
        Value::Operator(OperatorType::GE),
    ]);
    assert_eq!(emitter.result_type(), Some(Ok(Kind::Boolean)));
    emitter.bind_variables(&bindings(&[("x", 1.0)])).unwrap();
    assert_eq!(emitter.eval(), Ok(EmitResult::Boolean(true)));
    assert_eq!(emitter.result_type(), Some(Ok(Kind::Boolean)));
}

#[test]
fn operators_make_the_types_of_the_table() {
    assert_eq!(
        make_kind(OperatorType::Plus, Kind::Number, Kind::Number),
        Some(Kind::Number)
    );
    assert_eq!(
        make_kind(OperatorType::Eq, Kind::Number, Kind::Number),
        Some(Kind::Boolean)
    );
    assert_eq!(
        make_kind(OperatorType::And, Kind::Boolean, Kind::Boolean),
        Some(Kind::Boolean)
    );
    assert_eq!(make_kind(OperatorType::And, Kind::Number, Kind::Number), None);
    assert_eq!(make_kind(OperatorType::Eq, Kind::Boolean, Kind::Boolean), None);
    assert_eq!(make_kind(OperatorType::Plus, Kind::Number, Kind::Boolean), None);
    assert_eq!(
        make_kind(OperatorType::LeftParenthesis, Kind::Number, Kind::Number),
        None
    );
}

#[test]
fn a_copy_holds_what_was_bound() {
    let mut emitter = Emitter::new(vec![
        Value::Variable("x".to_string()),
        Value::Number(1.0f32.to_bits()),
        Value::Operator(OperatorType::Plus),
    ]);
    emitter.bind_variables(&bindings(&[("x", 4.0)])).unwrap();
    let copy = emitter.clone();
    assert_eq!(copy.rpn(), emitter.rpn());
    assert_eq!(copy.no_var_rpn(), emitter.no_var_rpn());
    assert_eq!(copy.eval(), Ok(EmitResult::Number(5.0f32.to_bits())));
}

#[test]
fn sequences_are_copied_and_searched_for_variables() {
    let values = vec![
        Value::Number(1.0f32.to_bits()),
        Value::Boolean(false),
        Value::Operator(OperatorType::Or),
    ];
    assert_eq!(duplicate(&values), values);
    assert!(!contains_variable(&values));
    let values = vec![Value::Boolean(false), Value::Variable("v".to_string())];
    assert_eq!(duplicate(&values), values);
    assert!(contains_variable(&values));
}

#[test]
fn operators_apply_to_operands_of_their_types() {
    let two = EmitResult::Number(2.0f32.to_bits());
    let three = EmitResult::Number(3.0f32.to_bits());
    assert_eq!(
        apply(OperatorType::Minus, two, three),
        Some(EmitResult::Number((-1.0f32).to_bits()))
    );
    assert_eq!(
        apply(OperatorType::LT, two, three),
        Some(EmitResult::Boolean(true))
    );
    assert_eq!(
        apply(OperatorType::GE, two, three),
        Some(EmitResult::Boolean(false))
    );
    assert_eq!(
        apply(
            OperatorType::Or,
            EmitResult::Boolean(false),
            EmitResult::Boolean(true)
        ),
        Some(EmitResult::Boolean(true))
    );
    assert_eq!(apply(OperatorType::And, two, three), None);
    assert_eq!(apply(OperatorType::Plus, two, EmitResult::Boolean(true)), None);
    assert_eq!(apply(OperatorType::LeftParenthesis, two, three), None);
}
