use infix_eval::parser::{tokens_to_rpn, OperatorType, ParserError, Value};
use infix_eval::tokenizer::{Token, TokenList, TokenType};

#[test]
fn parser_test_1() {
    // "1 + 4/2" -> "1 4 2 / +"
    let tokens: TokenList = vec![
        Token {
            value: "1".to_string(),
            token_type: TokenType::Number,
        },
        Token {
            value: "+".to_string(),
            token_type: TokenType::Operator,
        },
        Token {
            value: "4".to_string(),
            token_type: TokenType::Number,
        },
        Token {
            value: "/".to_string(),
            token_type: TokenType::Operator,
        },
        Token {
            value: "2".to_string(),
            token_type: TokenType::Number,
        },
    ];

    let rpn = tokens_to_rpn(tokens);
    assert_eq!(
        rpn.unwrap(),
        vec![
            Value::Number(1.0f32.to_bits()),
            Value::Number(4.0f32.to_bits()),
            Value::Number(2.0f32.to_bits()),
            Value::Operator(OperatorType::Divide),
            Value::Operator(OperatorType::Plus)
        ]
    );
}

#[test]
fn parser_test_2() {
    // "1 + 2 * 3" -> "1 2 3 * +"
    let tokens: TokenList = vec![
        Token {
            value: "1".to_string(),
            token_type: TokenType::Number,
        },
        Token {
            value: "+".to_string(),
            token_type: TokenType::Operator,
        },
        Token {
            value: "2".to_string(),
            token_type: TokenType::Number,
        },
        Token {
            value: "*".to_string(),
            token_type: TokenType::Operator,
        },
        Token {
            value: "3".to_string(),
            token_type: TokenType::Number,
        },
    ];

    let rpn = tokens_to_rpn(tokens);
    assert_eq!(
        rpn.unwrap(),
        vec![
            Value::Number(1.0f32.to_bits()),
            Value::Number(2.0f32.to_bits()),
            Value::Number(3.0f32.to_bits()),
            Value::Operator(OperatorType::Times),
            Value::Operator(OperatorType::Plus),
        ]
    );
}

#[test]
fn parser_test_3() {
    // "(1 + 2) * 3" -> "1 2 + 3 *"
    let tokens: TokenList = vec![
        Token {
            value: "(".to_string(),
            token_type: TokenType::Parenthesis,
        },
        Token {
            value: "1".to_string(),
            token_type: TokenType::Number,
        },
        Token {
            value: "+".to_string(),
            token_type: TokenType::Operator,
        },
        Token {
            value: "2".to_string(),
            token_type: TokenType::Number,
        },
        Token {
            value: ")".to_string(),
            token_type: TokenType::Parenthesis,
        },
        Token {
            value: "*".to_string(),
            token_type: TokenType::Operator,
        },
        Token {
            value: "3".to_string(),
            token_type: TokenType::Number,
        },
    ];

    let rpn = tokens_to_rpn(tokens);
    assert_eq!(
        rpn.unwrap(),
        vec![
            Value::Number(1.0f32.to_bits()),
            Value::Number(2.0f32.to_bits()),
            Value::Operator(OperatorType::Plus),
            Value::Number(3.0f32.to_bits()),
            Value::Operator(OperatorType::Times),
        ]
    );
}

#[test]
fn parser_test_4() {
    // "5 * (3 + 4) - 2" -> "5 3 4 + * 2 -"
    let tokens: TokenList = vec![
        Token {
            value: "5".to_string(),
            token_type: TokenType::Number,
        },
        Token {
            value: "*".to_string(),
            token_type: TokenType::Operator,
        },
        Token {
            value: "(".to_string(),
            token_type: TokenType::Parenthesis,
        },
        Token {
            value: "3".to_string(),
            token_type: TokenType::Number,
        },
        Token {
            value: "+".to_string(),
            token_type: TokenType::Operator,
        },
        Token {
            value: "4".to_string(),
            token_type: TokenType::Number,
        },
        Token {
            value: ")".to_string(),
            token_type: TokenType::Parenthesis,
        },
        Token {
            value: "-".to_string(),
            token_type: TokenType::Operator,
        },
        Token {
            value: "2".to_string(),
            token_type: TokenType::Number,
        },
    ];

    let rpn = tokens_to_rpn(tokens);
    assert_eq!(
        rpn.unwrap(),
        vec![
            Value::Number(5.0f32.to_bits()),
            Value::Number(3.0f32.to_bits()),
            Value::Number(4.0f32.to_bits()),
            Value::Operator(OperatorType::Plus),
            Value::Operator(OperatorType::Times),
            Value::Number(2.0f32.to_bits()),
            Value::Operator(OperatorType::Minus),
        ]
    );
}

#[test]
fn parser_test_5() {
    // "a || b && c" -> "a b c && ||"
    let tokens: TokenList = vec![
        Token {
            value: "a".to_string(),
            token_type: TokenType::Variable,
        },
        Token {
            value: "||".to_string(),
            token_type: TokenType::Operator,
        },
        Token {
            value: "b".to_string(),
            token_type: TokenType::Variable,
        },
        Token {
            value: "&&".to_string(),
            token_type: TokenType::Operator,
        },
        Token {
            value: "c".to_string(),
            token_type: TokenType::Variable,
        },
    ];

    let rpn = tokens_to_rpn(tokens);
    assert_eq!(
        rpn.unwrap(),
        vec![
            Value::Variable("a".to_string()),
            Value::Variable("b".to_string()),
            Value::Variable("c".to_string()),
            Value::Operator(OperatorType::And),
            Value::Operator(OperatorType::Or),
        ]
    );
}

#[test]
fn parser_test_6() {
    // "a > b && (c <= d || e >= f)" -> "a b > c d <= e f >= || &&"
    let tokens: TokenList = vec![
        Token {
            value: "a".to_string(),
            token_type: TokenType::Variable,
        },
        Token {
            value: ">".to_string(),
            token_type: TokenType::Operator,
        },
        Token {
            value: "b".to_string(),
            token_type: TokenType::Variable,
        },
        Token {
            value: "&&".to_string(),
            token_type: TokenType::Operator,
        },
        Token {
            value: "(".to_string(),
            token_type: TokenType::Parenthesis,
        },
        Token {
            value: "c".to_string(),
            token_type: TokenType::Variable,
        },
        Token {
            value: "<=".to_string(),
            token_type: TokenType::Operator,
        },
        Token {
            value: "d".to_string(),
            token_type: TokenType::Variable,
        },
        Token {
            value: "||".to_string(),
            token_type: TokenType::Operator,
        },
        Token {
            value: "e".to_string(),
            token_type: TokenType::Variable,
        },
        Token {
            value: ">=".to_string(),
            token_type: TokenType::Operator,
        },
        Token {
            value: "f".to_string(),
            token_type: TokenType::Variable,
        },
        Token {
            value: ")".to_string(),
            token_type: TokenType::Parenthesis,
        },
    ];

    let rpn = tokens_to_rpn(tokens);
    assert_eq!(
        rpn.unwrap(),
        vec![
            Value::Variable("a".to_string()),
            Value::Variable("b".to_string()),
            Value::Operator(OperatorType::GT),
            Value::Variable("c".to_string()),
            Value::Variable("d".to_string()),
            Value::Operator(OperatorType::LE),
            Value::Variable("e".to_string()),
            Value::Variable("f".to_string()),
            Value::Operator(OperatorType::GE),
            Value::Operator(OperatorType::Or),
            Value::Operator(OperatorType::And),
        ]
    );
}

#[test]
fn parser_test_7() {
    let tokens: TokenList = vec![
        Token {
            token_type: TokenType::Boolean,
            value: "true".to_string(),
        },
        Token {
            token_type: TokenType::Operator,
            value: "||".to_string(),
        },
        Token {
            token_type: TokenType::Boolean,
            value: "false".to_string(),
        },
    ];

    let rpn = tokens_to_rpn(tokens);
    assert_eq!(
        rpn.unwrap(),
        vec![
            Value::Boolean(true),
            Value::Boolean(false),
            Value::Operator(OperatorType::Or)
        ]
    )
}

#[test]
fn test_eval_nums() {
    assert_eq!(f32::from_bits(OperatorType::Plus.eval_nums(2.0f32.to_bits(), 3.0f32.to_bits())), 5.0);
    assert_eq!(f32::from_bits(OperatorType::Minus.eval_nums(5.0f32.to_bits(), 3.0f32.to_bits())), 2.0);
    assert_eq!(f32::from_bits(OperatorType::Times.eval_nums(2.0f32.to_bits(), 3.0f32.to_bits())), 6.0);
    assert_eq!(f32::from_bits(OperatorType::Divide.eval_nums(6.0f32.to_bits(), 3.0f32.to_bits())), 2.0);
}

#[test]
fn test_eval_comparison() {
    assert_eq!(OperatorType::LT.eval_comparison(2.0f32.to_bits(), 3.0f32.to_bits()), true);
    assert_eq!(OperatorType::LT.eval_comparison(5.0f32.to_bits(), 3.0f32.to_bits()), false);

    assert_eq!(OperatorType::LE.eval_comparison(3.0f32.to_bits(), 3.0f32.to_bits()), true);
    assert_eq!(OperatorType::LE.eval_comparison(5.0f32.to_bits(), 3.0f32.to_bits()), false);

    assert_eq!(OperatorType::GT.eval_comparison(6.0f32.to_bits(), 3.0f32.to_bits()), true);
    assert_eq!(OperatorType::GT.eval_comparison(1.0f32.to_bits(), 3.0f32.to_bits()), false);

    assert_eq!(OperatorType::GE.eval_comparison(3.0f32.to_bits(), 3.0f32.to_bits()), true);
    assert_eq!(OperatorType::GE.eval_comparison(2.0f32.to_bits(), 3.0f32.to_bits()), false);

    assert_eq!(OperatorType::Eq.eval_comparison(3.0f32.to_bits(), 3.0f32.to_bits()), true);
    assert_eq!(OperatorType::Eq.eval_comparison(4.0f32.to_bits(), 3.0f32.to_bits()), false);
    assert_eq!(OperatorType::Eq.eval_comparison(2.0f32.to_bits(), 3.0f32.to_bits()), false);
}

#[test]
fn test_eval_conditional() {
    assert_eq!(OperatorType::And.eval_conditional(true, true), true);
    assert_eq!(OperatorType::And.eval_conditional(true, false), false);
    assert_eq!(OperatorType::And.eval_conditional(false, true), false);
    assert_eq!(OperatorType::And.eval_conditional(false, false), false);

    assert_eq!(OperatorType::Or.eval_conditional(true, true), true);
    assert_eq!(OperatorType::Or.eval_conditional(true, false), true);
    assert_eq!(OperatorType::Or.eval_conditional(false, true), true);
    assert_eq!(OperatorType::Or.eval_conditional(false, false), false);
}

fn token(token_type: TokenType, value: &str) -> Token {
    Token {
        token_type,
        value: value.to_string(),
    }
}

#[test]
fn operators_of_one_rank_associate_to_the_left() {
    // "5 - 3 - 1" -> "5 3 - 1 -"
    let tokens: TokenList = vec![
        token(TokenType::Number, "5"),
        token(TokenType::Operator, "-"),
        token(TokenType::Number, "3"),
        token(TokenType::Operator, "-"),
        token(TokenType::Number, "1"),
    ];
    assert_eq!(
        tokens_to_rpn(tokens).unwrap(),
        vec![
            Value::Number(5.0f32.to_bits()),
            Value::Number(3.0f32.to_bits()),
            Value::Operator(OperatorType::Minus),
            Value::Number(1.0f32.to_bits()),
            Value::Operator(OperatorType::Minus),
        ]
    );
}

#[test]
fn every_rank_is_below_the_next() {
    // "a || b && c = d < e + f * g" -> "a b c d e f g * + < = && ||"
    let tokens: TokenList = vec![
        token(TokenType::Variable, "a"),
        token(TokenType::Operator, "||"),
        token(TokenType::Variable, "b"),
        token(TokenType::Operator, "&&"),
        token(TokenType::Variable, "c"),
        token(TokenType::Operator, "="),
        token(TokenType::Variable, "d"),
        token(TokenType::Operator, "<"),
        token(TokenType::Variable, "e"),
        token(TokenType::Operator, "+"),
        token(TokenType::Variable, "f"),
        token(TokenType::Operator, "*"),
        token(TokenType::Variable, "g"),
    ];
    assert_eq!(
        tokens_to_rpn(tokens).unwrap(),
        vec![
            Value::Variable("a".to_string()),
            Value::Variable("b".to_string()),
            Value::Variable("c".to_string()),
            Value::Variable("d".to_string()),
            Value::Variable("e".to_string()),
            Value::Variable("f".to_string()),
            Value::Variable("g".to_string()),
            Value::Operator(OperatorType::Times),
            Value::Operator(OperatorType::Plus),
            Value::Operator(OperatorType::LT),
            Value::Operator(OperatorType::Eq),
            Value::Operator(OperatorType::And),
            Value::Operator(OperatorType::Or),
        ]
    );
}

#[test]
fn priorities_are_those_of_the_table() {
    assert_eq!(OperatorType::Or.get_priority(), 1);
    assert_eq!(OperatorType::And.get_priority(), 2);
    assert_eq!(OperatorType::Eq.get_priority(), 3);
    assert_eq!(OperatorType::LT.get_priority(), 4);
    assert_eq!(OperatorType::LE.get_priority(), 4);
    assert_eq!(OperatorType::GT.get_priority(), 4);
    assert_eq!(OperatorType::GE.get_priority(), 4);
    assert_eq!(OperatorType::Plus.get_priority(), 5);
    assert_eq!(OperatorType::Minus.get_priority(), 5);
    assert_eq!(OperatorType::Times.get_priority(), 6);
    assert_eq!(OperatorType::Divide.get_priority(), 6);
}

#[test]
fn operators_are_read_from_their_spelling() {
    assert_eq!(OperatorType::from_str("+"), OperatorType::Plus);
    assert_eq!(OperatorType::from_str("-"), OperatorType::Minus);
    assert_eq!(OperatorType::from_str("*"), OperatorType::Times);
    assert_eq!(OperatorType::from_str("/"), OperatorType::Divide);
    assert_eq!(OperatorType::from_str("&&"), OperatorType::And);
    assert_eq!(OperatorType::from_str("||"), OperatorType::Or);
    assert_eq!(OperatorType::from_str("<"), OperatorType::LT);
    assert_eq!(OperatorType::from_str("<="), OperatorType::LE);
    assert_eq!(OperatorType::from_str(">"), OperatorType::GT);
    assert_eq!(OperatorType::from_str(">="), OperatorType::GE);
    assert_eq!(OperatorType::from_str("="), OperatorType::Eq);
    assert_eq!(OperatorType::recognize("=="), None);
    assert_eq!(OperatorType::recognize("&"), None);
    assert_eq!(OperatorType::recognize(""), None);
    assert_eq!(OperatorType::recognize("("), None);
}

#[test]
fn a_closing_parenthesis_needs_an_open_one() {
    // "1 + 2)"
    let tokens: TokenList = vec![
        token(TokenType::Number, "1"),
        token(TokenType::Operator, "+"),
        token(TokenType::Number, "2"),
        token(TokenType::Parenthesis, ")"),
    ];
    assert_eq!(
        tokens_to_rpn(tokens),
        Err(ParserError::NoMatchingLeftParenthesis)
    );
    assert_eq!(
        tokens_to_rpn(vec![token(TokenType::Parenthesis, ")")]),
        Err(ParserError::NoMatchingLeftParenthesis)
    );
}

#[test]
fn an_open_parenthesis_needs_a_closing_one() {
    // "(1 + 2"
    let tokens: TokenList = vec![
        token(TokenType::Parenthesis, "("),
        token(TokenType::Number, "1"),
        token(TokenType::Operator, "+"),
        token(TokenType::Number, "2"),
    ];
    assert_eq!(tokens_to_rpn(tokens), Err(ParserError::ExtraLeftParenthesis));
}

#[test]
fn no_tokens_give_no_postfix() {
    assert_eq!(tokens_to_rpn(vec![]).unwrap(), vec![]);
}

#[test]
fn number_literals_are_read_as_the_nearest_single() {
    let literals = [
        "0",
        "1",
        "4",
        "2.5",
        "0.1",
        "0.2",
        "0.3",
        "3.14159265358979",
        "16777217",
        "123456789.125",
        "0.000000000000000000000000000000000000000000001",
        "0.0000000000000000000000000000000000000000000007",
        "340282346638528859811704183484516925440",
        "340282356779733661637539395458142568447",
        "340282356779733661637539395458142568448",
        "99999999999999999999999999999999999999999999",
        "0007.500",
        "1.17549435",
        "8.5",
        "33",
    ];
    for literal in literals {
        let expected: f32 = literal.parse().unwrap();
        let rpn = tokens_to_rpn(vec![token(TokenType::Number, literal)]).unwrap();
        match rpn.as_slice() {
            [Value::Number(bits)] => assert_eq!(*bits, expected.to_bits(), "{}", literal),
            _ => panic!("one number expected for {}", literal),
        }
    }
}

#[test]
fn values_are_equal_as_numbers_are() {
    assert_eq!(
        Value::Number(0.0f32.to_bits()),
        Value::Number((-0.0f32).to_bits())
    );
    assert_ne!(
        Value::Number(f32::NAN.to_bits()),
        Value::Number(f32::NAN.to_bits())
    );
    assert_ne!(Value::Number(1.0f32.to_bits()), Value::Boolean(true));
    assert_ne!(
        Value::Variable("x".to_string()),
        Value::Variable("y".to_string())
    );
    assert_eq!(
        Value::Variable("x".to_string()),
        Value::Variable("x".to_string())
    );
    assert_ne!(
        Value::Operator(OperatorType::LT),
        Value::Operator(OperatorType::LE)
    );
}

#[test]
fn arithmetic_is_that_of_the_machine() {
    let samples: [f32; 16] = [
        0.0,
        -0.0,
        1.0,
        -1.0,
        3.0,
        0.1,
        0.2,
        1.0e-40,
        -3.5e-42,
        16777216.0,
        1.0e38,
        -3.0e38,
        f32::MAX,
        f32::MIN_POSITIVE,
        f32::INFINITY,
        f32::NEG_INFINITY,
    ];
    for a in samples {
        for b in samples {
            let cases = [
                (OperatorType::Plus, a + b),
                (OperatorType::Minus, a - b),
                (OperatorType::Times, a * b),
                (OperatorType::Divide, a / b),
            ];
            for (op, expected) in cases {
                let result = f32::from_bits(op.eval_nums(a.to_bits(), b.to_bits()));
                if expected.is_nan() {
                    assert!(result.is_nan(), "{:?} {} {}", op, a, b);
                } else {
                    assert_eq!(result.to_bits(), expected.to_bits(), "{:?} {} {}", op, a, b);
                }
            }
        }
    }
}

#[test]
fn division_by_zero_is_no_error() {
    let zero = 0.0f32.to_bits();
    let one = 1.0f32.to_bits();
    assert_eq!(
        f32::from_bits(OperatorType::Divide.eval_nums(one, zero)),
        f32::INFINITY
    );
    assert_eq!(
        f32::from_bits(OperatorType::Divide.eval_nums((-1.0f32).to_bits(), zero)),
        f32::NEG_INFINITY
    );
    assert!(f32::from_bits(OperatorType::Divide.eval_nums(zero, zero)).is_nan());
}

#[test]
fn comparisons_are_those_of_the_machine() {
    let samples: [f32; 14] = [
        0.0,
        -0.0,
        1.0,
        -1.0,
        0.1,
        1.0e-40,
        -1.0e-40,
        16777216.0,
        f32::MAX,
        f32::MIN,
        f32::INFINITY,
        f32::NEG_INFINITY,
        f32::NAN,
        -f32::NAN,
    ];
    for a in samples {
        for b in samples {
            let (x, y) = (a.to_bits(), b.to_bits());
            assert_eq!(OperatorType::LT.eval_comparison(x, y), a < b, "{} < {}", a, b);
            assert_eq!(OperatorType::LE.eval_comparison(x, y), a <= b, "{} <= {}", a, b);
            assert_eq!(OperatorType::GT.eval_comparison(x, y), a > b, "{} > {}", a, b);
            assert_eq!(OperatorType::GE.eval_comparison(x, y), a >= b, "{} >= {}", a, b);
            assert_eq!(OperatorType::Eq.eval_comparison(x, y), a == b, "{} = {}", a, b);
        }
    }
}
