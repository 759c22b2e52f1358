use calculator::converter::{precedence, shunting_yard};
use calculator::evaluator::{postfix_evaluation, EvalError, Evaluate, Expr, Operator};
use calculator::parser::{number_to_token, parse_all_tokens, parse_token};
use calculator::token::Token;

/// What a fragment reads as as a double, as its bit pattern.
fn reading(s: &str) -> Option<u64> {
    s.trim().parse::<f64>().ok().map(f64::to_bits)
}

fn tokenize(s: &str) -> Token {
    parse_token(s.to_string(), reading(s))
}

fn tokenize_all(fragments: &[&str]) -> Vec<Token> {
    let input: Vec<String> = fragments.iter().map(|s| s.to_string()).collect();
    let numbers: Vec<Option<u64>> = fragments.iter().map(|s| reading(s)).collect();
    parse_all_tokens(input, numbers)
}

fn value(e: &Expr) -> f64 {
    match e {
        Expr::Integer(n) => *n as f64,
        Expr::Float(b) => f64::from_bits(*b),
        Expr::Binary(op, a, b) => {
            let (a, b) = (value(a), value(b));
            match op {
                Operator::Plus => a + b,
                Operator::Minus => a - b,
                Operator::Multiply => a * b,
                Operator::Divide => a / b,
            }
        }
    }
}

fn evaluate(tokens: &Vec<Token>) -> Result<f64, EvalError> {
    postfix_evaluation(tokens).map(|e| value(&e))
}

fn float(x: f64) -> Token {
    Token::Float(x.to_bits())
}

#[test]
fn test_resolve_expression() {
    let tokens_int = vec![
        Token::Integer(2),
        Token::Integer(3),
        Token::Integer(4),
        Token::Integer(1),
        Token::Minus,
        Token::Multiply,
        Token::Integer(5),
        Token::Divide,
        Token::Plus,
    ];
    assert_eq!(evaluate(&tokens_int), Ok(3.8));
}

#[test]
fn test_shunting_yard() {
    let infix_tokens = vec![
        Token::Integer(2),
        Token::Plus,
        Token::Integer(3),
        Token::Multiply,
        Token::OpenContext,
        Token::Integer(4),
        Token::Minus,
        Token::Integer(1),
        Token::CloseContext,
        Token::Divide,
        Token::Integer(5),
    ];
    let postfix_tokens = vec![
        Token::Integer(2),
        Token::Integer(3),
        Token::Integer(4),
        Token::Integer(1),
        Token::Minus,
        Token::Multiply,
        Token::Integer(5),
        Token::Divide,
        Token::Plus,
    ];
    assert_eq!(shunting_yard(&infix_tokens), postfix_tokens);
}

#[test]
fn test_parse_token() {
    assert_eq!(tokenize("+"), Token::Plus);
    assert_eq!(tokenize("-"), Token::Minus);
    assert_eq!(tokenize("*"), Token::Multiply);
    assert_eq!(tokenize("/"), Token::Divide);
    assert_eq!(tokenize("1"), Token::Integer(1));
    assert_eq!(tokenize("1.05"), float(1.05));
    assert_eq!(tokenize("-10"), Token::Integer(-10));
    assert_eq!(tokenize("-10.3"), float(-10.3));
    assert_eq!(tokenize("("), Token::OpenContext);
    assert_eq!(tokenize("["), Token::OpenContext);
    assert_eq!(tokenize("{"), Token::OpenContext);
    assert_eq!(tokenize(")"), Token::CloseContext);
    assert_eq!(tokenize("]"), Token::CloseContext);
    assert_eq!(tokenize("}"), Token::CloseContext);
}

#[test]
fn test_parse_all_tokens() {
    assert_eq!(tokenize_all(&["1", "+", "1"]), vec![Token::Integer(1), Token::Plus, Token::Integer(1)]);
    assert_eq!(
        tokenize_all(&["failure", "1", "+", "1"]),
        vec![Token::Error, Token::Integer(1), Token::Plus, Token::Integer(1)]
    );
}

#[test]
fn surrounding_white_space_is_ignored() {
    assert_eq!(tokenize(" + "), Token::Plus);
    assert_eq!(tokenize("\t(\n"), Token::OpenContext);
    assert_eq!(tokenize(" 7 "), Token::Integer(7));
    assert_eq!(parse_token("  }".to_string(), None), Token::CloseContext);
}

#[test]
fn unreadable_fragments_give_error() {
    assert_eq!(tokenize("failure"), Token::Error);
    assert_eq!(tokenize(""), Token::Error);
    assert_eq!(tokenize("++"), Token::Error);
    assert_eq!(tokenize("1 + 1"), Token::Error);
}

#[test]
fn a_symbol_wins_over_its_number_reading() {
    assert_eq!(parse_token("-".to_string(), Some(5.0f64.to_bits())), Token::Minus);
}

#[test]
fn whole_doubles_become_integers() {
    assert_eq!(number_to_token(3.0f64.to_bits()), Token::Integer(3));
    assert_eq!(number_to_token(65536.0f64.to_bits()), Token::Integer(65536));
    assert_eq!(number_to_token((-1.0f64).to_bits()), Token::Integer(-1));
    assert_eq!(number_to_token(0.0f64.to_bits()), Token::Integer(0));
    assert_eq!(number_to_token((-0.0f64).to_bits()), Token::Integer(0));
    assert_eq!(number_to_token(2147483647.0f64.to_bits()), Token::Integer(i32::MAX));
    assert_eq!(number_to_token((-2147483648.0f64).to_bits()), Token::Integer(i32::MIN));
    assert_eq!(tokenize("1e3"), Token::Integer(1000));
    assert_eq!(tokenize("2.50e1"), Token::Integer(25));
}

#[test]
fn whole_doubles_outside_i32_are_clamped() {
    assert_eq!(number_to_token(2147483648.0f64.to_bits()), Token::Integer(i32::MAX));
    assert_eq!(number_to_token((-2147483649.0f64).to_bits()), Token::Integer(i32::MIN));
    assert_eq!(number_to_token(1e10f64.to_bits()), Token::Integer(i32::MAX));
    assert_eq!(number_to_token((-1e300f64).to_bits()), Token::Integer(i32::MIN));
    assert_eq!(number_to_token(4503599627370496.0f64.to_bits()), Token::Integer(i32::MAX));
}

#[test]
fn fractions_and_non_finite_values_stay_float() {
    assert_eq!(number_to_token(0.5f64.to_bits()), float(0.5));
    assert_eq!(number_to_token((-2.75f64).to_bits()), float(-2.75));
    assert_eq!(number_to_token(1e-320f64.to_bits()), float(1e-320));
    assert_eq!(number_to_token(4503599627370495.5f64.to_bits()), float(4503599627370495.5));
    assert_eq!(number_to_token(f64::INFINITY.to_bits()), float(f64::INFINITY));
    assert_eq!(number_to_token(f64::NAN.to_bits()), Token::Float(f64::NAN.to_bits()));
}

#[test]
fn tokenizing_twice_gives_the_same_token() {
    for s in ["1.05", "-10", "+", "(", "failure", " 3 "] {
        assert_eq!(tokenize(s), tokenize(s));
    }
}

#[test]
fn number_strings_round_trip() {
    match tokenize("1.05") {
        Token::Float(b) => assert_eq!(f64::from_bits(b).to_string(), "1.05"),
        other => panic!("expected a float, got {:?}", other),
    }
    assert_eq!(tokenize("-10"), Token::Integer(-10));
    assert_eq!(tokenize("1"), Token::Integer(1));
}

#[test]
fn precedence_table() {
    assert_eq!(precedence(Token::Plus), 1);
    assert_eq!(precedence(Token::Minus), 1);
    assert_eq!(precedence(Token::Multiply), 2);
    assert_eq!(precedence(Token::Divide), 2);
    assert_eq!(precedence(Token::OpenContext), 0);
    assert_eq!(precedence(Token::Integer(4)), 0);
}

#[test]
fn equal_precedence_groups_to_the_left() {
    let infix = vec![Token::Integer(8), Token::Minus, Token::Integer(3), Token::Minus, Token::Integer(2)];
    let postfix = shunting_yard(&infix);
    assert_eq!(
        postfix,
        vec![Token::Integer(8), Token::Integer(3), Token::Minus, Token::Integer(2), Token::Minus]
    );
    assert_eq!(evaluate(&postfix), Ok(3.0));
    let infix = vec![Token::Integer(16), Token::Divide, Token::Integer(4), Token::Divide, Token::Integer(2)];
    assert_eq!(evaluate(&shunting_yard(&infix)), Ok(2.0));
}

#[test]
fn error_tokens_are_dropped_by_the_converter() {
    let infix = vec![Token::Error, Token::Integer(1), Token::Plus, Token::Error, Token::Integer(1)];
    assert_eq!(shunting_yard(&infix), vec![Token::Integer(1), Token::Integer(1), Token::Plus]);
}

#[test]
fn unmatched_grouping_is_tolerated() {
    let infix = vec![Token::OpenContext, Token::Integer(1), Token::Plus, Token::Integer(2)];
    assert_eq!(
        shunting_yard(&infix),
        vec![Token::Integer(1), Token::Integer(2), Token::Plus, Token::OpenContext]
    );
    let infix = vec![Token::Integer(1), Token::Plus, Token::Integer(2), Token::CloseContext, Token::Multiply, Token::Integer(3)];
    assert_eq!(
        shunting_yard(&infix),
        vec![Token::Integer(1), Token::Integer(2), Token::Plus, Token::Integer(3), Token::Multiply]
    );
}

#[test]
fn converting_then_evaluating_scenario() {
    let infix = tokenize_all(&["2", "+", "3", "*", "(", "4", "-", "1", ")", "/", "5"]);
    let postfix = shunting_yard(&infix);
    assert_eq!(
        postfix,
        vec![
            Token::Integer(2),
            Token::Integer(3),
            Token::Integer(4),
            Token::Integer(1),
            Token::Minus,
            Token::Multiply,
            Token::Integer(5),
            Token::Divide,
            Token::Plus,
        ]
    );
    assert_eq!(evaluate(&postfix), Ok(3.8));
}

#[test]
fn converting_then_evaluating_with_floats() {
    let infix = tokenize_all(&["[", "1.5", "+", "2.5", "]", "*", "{", "10", "-", "4", "}"]);
    assert_eq!(evaluate(&shunting_yard(&infix)), Ok(24.0));
}

#[test]
fn division_by_zero_gives_infinity() {
    let postfix = vec![Token::Integer(4), Token::Integer(0), Token::Divide];
    assert_eq!(evaluate(&postfix), Ok(f64::INFINITY));
    let postfix = vec![Token::Integer(0), Token::Integer(0), Token::Divide];
    assert!(evaluate(&postfix).unwrap().is_nan());
}

#[test]
fn empty_postfix_underflows() {
    assert_eq!(postfix_evaluation(&vec![]), Err(EvalError::StackUnderflow));
}

#[test]
fn operator_without_operands_underflows() {
    assert_eq!(postfix_evaluation(&vec![Token::Integer(1), Token::Plus]), Err(EvalError::StackUnderflow));
    assert_eq!(postfix_evaluation(&vec![Token::Multiply]), Err(EvalError::StackUnderflow));
}

#[test]
fn leftover_operands_are_malformed() {
    assert_eq!(
        postfix_evaluation(&vec![Token::Integer(1), Token::Integer(2)]),
        Err(EvalError::MalformedResult)
    );
    assert_eq!(
        postfix_evaluation(&vec![Token::Integer(1), Token::Integer(2), Token::Integer(3), Token::Plus]),
        Err(EvalError::MalformedResult)
    );
}

#[test]
fn grouping_and_error_tokens_are_skipped_by_the_evaluator() {
    let postfix = vec![Token::OpenContext, Token::Integer(6), Token::Error, Token::Integer(3), Token::Divide, Token::CloseContext];
    assert_eq!(evaluate(&postfix), Ok(2.0));
}

#[test]
fn evaluator_builds_the_expression_tree() {
    let postfix = vec![Token::Integer(1), float(0.5), Token::Minus];
    assert_eq!(
        postfix_evaluation(&postfix),
        Ok(Expr::Binary(Operator::Minus, Box::new(Expr::Integer(1)), Box::new(Expr::Float(0.5f64.to_bits()))))
    );
}

#[test]
fn evaluate_combines_two_expressions() {
    let e = Token::Multiply.evaluate(Expr::Integer(2), Expr::Integer(3));
    assert_eq!(e, Expr::Binary(Operator::Multiply, Box::new(Expr::Integer(2)), Box::new(Expr::Integer(3))));
    assert_eq!(value(&e), 6.0);
}
