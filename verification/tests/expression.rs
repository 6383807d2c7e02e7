use miniopgenerator::error::EvalError;
use miniopgenerator::expression::ExpressionNode;
use miniopgenerator::operator::Operator;
use miniopgenerator::parser::{calculate, calculate_fraction, evaluate, parse_expression};
use miniopgenerator::rational::Rational;
use miniopgenerator::token::{find_parentheses_indices, tokenize, Token};

fn leaf(n: i64) -> ExpressionNode {
    ExpressionNode::Leaf(Rational::from_integer(n))
}

fn binary(left: ExpressionNode, op: Operator, right: ExpressionNode) -> ExpressionNode {
    ExpressionNode::Binary(Box::new(left), op, Box::new(right))
}

#[test]
fn operator_symbols() {
    assert_eq!(Operator::Add.to_string(), "+");
    assert_eq!(Operator::Subtract.to_string(), "-");
    assert_eq!(Operator::Multiply.to_string(), "*");
    assert_eq!(Operator::Divide.to_string(), "/");
    assert_eq!(Operator::from_char('/'), Some(Operator::Divide));
    assert_eq!(Operator::from_char('x'), None);
}

#[test]
fn operator_from_index() {
    assert_eq!(Operator::from_index(0), Operator::Add);
    assert_eq!(Operator::from_index(1), Operator::Subtract);
    assert_eq!(Operator::from_index(2), Operator::Multiply);
    assert_eq!(Operator::from_index(3), Operator::Divide);
    assert_eq!(Operator::from_index(-1), Operator::Divide);
}

#[test]
fn tokenize_splits_on_spaces_and_parentheses() {
    assert_eq!(
        tokenize("3 + (4 * 2)"),
        Some(vec![
            Token::Number(3),
            Token::Symbol(Operator::Add),
            Token::Open,
            Token::Number(4),
            Token::Symbol(Operator::Multiply),
            Token::Number(2),
            Token::Close,
        ])
    );
    assert_eq!(tokenize(""), Some(vec![]));
    assert_eq!(tokenize("   "), Some(vec![]));
    assert_eq!(tokenize("(12)"), Some(vec![Token::Open, Token::Number(12), Token::Close]));
    assert_eq!(tokenize("007"), Some(vec![Token::Number(7)]));
    assert_eq!(tokenize("9223372036854775807"), Some(vec![Token::Number(i64::MAX)]));
}

#[test]
fn tokenize_rejects_other_words() {
    assert_eq!(tokenize("2+3"), None);
    assert_eq!(tokenize("1/2"), None);
    assert_eq!(tokenize("-5"), None);
    assert_eq!(tokenize("2 x 3"), None);
    assert_eq!(tokenize("9223372036854775808"), None);
    assert_eq!(tokenize("2 ++ 3"), None);
}

#[test]
fn parentheses_indices() {
    let tokens = tokenize("(3 + 4) * (2 - 1)").unwrap();
    assert_eq!(find_parentheses_indices(&tokens), (Some(0), Some(10)));
    let tokens = tokenize("3 + (4 * 2)").unwrap();
    assert_eq!(find_parentheses_indices(&tokens), (Some(2), Some(6)));
    let tokens = tokenize("3 + 4").unwrap();
    assert_eq!(find_parentheses_indices(&tokens), (None, None));
    let tokens = tokenize(") (").unwrap();
    assert_eq!(find_parentheses_indices(&tokens), (Some(1), Some(0)));
    assert_eq!(find_parentheses_indices(&vec![]), (None, None));
}

#[test]
fn parse_builds_left_leaning_chains() {
    assert_eq!(parse_expression("7"), Ok(leaf(7)));
    assert_eq!(
        parse_expression("3 + 4 * 2"),
        Ok(binary(binary(leaf(3), Operator::Add, leaf(4)), Operator::Multiply, leaf(2)))
    );
    assert_eq!(
        parse_expression("3 + (4 * 2)"),
        Ok(binary(leaf(3), Operator::Add, binary(leaf(4), Operator::Multiply, leaf(2))))
    );
    assert_eq!(
        parse_expression("((3))+ 4"),
        Ok(binary(leaf(3), Operator::Add, leaf(4)))
    );
}

#[test]
fn parse_rejects_malformed_text() {
    for text in ["", "3 +", "+ 3", "3 4", "(3 + 4", "3 + 4)", "()", "3 + + 4", "3 + (4 * )", "a + b", "(", ")"] {
        assert_eq!(parse_expression(text), Err(EvalError::ParseError), "{}", text);
        assert_eq!(evaluate(text), Err(EvalError::ParseError), "{}", text);
    }
}

#[test]
fn evaluate_tree_directly() {
    let tree = binary(leaf(3), Operator::Add, binary(leaf(4), Operator::Multiply, leaf(2)));
    assert_eq!(tree.evaluate(), Ok(Rational::from_integer(11)));
    let tree = binary(leaf(2), Operator::Divide, leaf(0));
    assert_eq!(tree.evaluate(), Err(EvalError::DivisionByZero));
    let tree = binary(leaf(i64::MAX), Operator::Multiply, leaf(2));
    assert_eq!(tree.evaluate(), Err(EvalError::Overflow));
    let tree = binary(binary(leaf(1), Operator::Divide, leaf(0)), Operator::Add, binary(leaf(i64::MAX), Operator::Add, leaf(1)));
    assert_eq!(tree.evaluate(), Err(EvalError::DivisionByZero));
    let tree = binary(binary(leaf(i64::MAX), Operator::Add, leaf(1)), Operator::Add, binary(leaf(1), Operator::Divide, leaf(0)));
    assert_eq!(tree.evaluate(), Err(EvalError::Overflow));
}

#[test]
fn subtraction_scenario() {
    let tree = binary(leaf(7), Operator::Subtract, leaf(3));
    assert_eq!(miniopgenerator::render::render_with(&tree, &vec![]), "7 - 3");
    assert_eq!(calculate_fraction("7 - 3"), Ok("4".to_string()));
}

#[test]
fn division_scenario() {
    let tree = binary(leaf(2), Operator::Divide, leaf(5));
    assert_eq!(miniopgenerator::render::render_with(&tree, &vec![]), "2 / 5");
    assert_eq!(calculate_fraction("2 / 5"), Ok("2/5".to_string()));
}

#[test]
fn nested_scenario() {
    assert_eq!(calculate_fraction("3 + (4 * 2)"), Ok("11".to_string()));
    let tree = binary(leaf(3), Operator::Add, binary(leaf(4), Operator::Multiply, leaf(2)));
    assert_eq!(miniopgenerator::render::render_with(&tree, &vec![false]), "3 + (4 * 2)");
    assert_eq!(miniopgenerator::render::render_with(&tree, &vec![true]), "3 + (4 * 2)");
    assert_eq!(calculate_fraction("3 + 4 * 2"), Ok("14".to_string()));
}

#[test]
fn evaluate_reads_left_to_right() {
    assert_eq!(evaluate("2 + 3 * 4"), Ok(Rational::from_integer(20)));
    assert_eq!(evaluate("2 + (3 * 4)"), Ok(Rational::from_integer(14)));
    assert_eq!(evaluate("(2 + 3) * 4"), Ok(Rational::from_integer(20)));
    assert_eq!(evaluate("8 - 3 - 2"), Ok(Rational::from_integer(3)));
    assert_eq!(evaluate("8 - (3 - 2)"), Ok(Rational::from_integer(7)));
    assert_eq!(evaluate("8 / 4 / 2"), Ok(Rational::from_integer(1)));
    assert_eq!(evaluate("1 / 2 + 1 / 3"), Rational::new(1, 2));
    assert_eq!(evaluate("(1 / 2) + (1 / 3)"), Rational::new(5, 6));
    assert_eq!(evaluate("3 - 5"), Ok(Rational::from_integer(-2)));
    assert_eq!(evaluate("((((5))))"), Ok(Rational::from_integer(5)));
    assert_eq!(evaluate("1+(2)"), Err(EvalError::ParseError));
    assert_eq!(evaluate("(1)+ (2)"), Ok(Rational::from_integer(3)));
}

#[test]
fn subtraction_from_one_gives_zero() {
    let tree = binary(leaf(1), Operator::Subtract, leaf(1));
    assert_eq!(miniopgenerator::render::render_with(&tree, &vec![]), "1 - 1");
    assert_eq!(calculate_fraction("1 - 1"), Ok("0".to_string()));
    assert_eq!(tree.evaluate(), Ok(Rational::from_integer(0)));
}

#[test]
fn evaluate_reports_arithmetic_failures() {
    assert_eq!(evaluate("3 / 0"), Err(EvalError::DivisionByZero));
    assert_eq!(evaluate("3 / (2 - 2)"), Err(EvalError::DivisionByZero));
    assert_eq!(evaluate("9223372036854775807 + 1"), Err(EvalError::Overflow));
    assert_eq!(evaluate("9223372036854775807 * 9223372036854775807"), Err(EvalError::Overflow));
    assert_eq!(calculate_fraction("3 / 0"), Err(EvalError::DivisionByZero));
    assert_eq!(calculate_fraction("3 +"), Err(EvalError::ParseError));
}

#[test]
fn calculate_on_two_numbers() {
    assert_eq!(calculate(2, 3, Operator::Add), Ok("5".to_string()));
    assert_eq!(calculate(2, 3, Operator::Subtract), Ok("-1".to_string()));
    assert_eq!(calculate(2, 3, Operator::Multiply), Ok("6".to_string()));
    assert_eq!(calculate(6, 4, Operator::Divide), Ok("1'1/2".to_string()));
    assert_eq!(calculate(4, 2, Operator::Divide), Ok("2".to_string()));
    assert_eq!(calculate(2, 4, Operator::Divide), Ok("1/2".to_string()));
    assert_eq!(calculate(4, 4, Operator::Divide), Ok("1".to_string()));
    assert_eq!(calculate(1, 0, Operator::Divide), Err(EvalError::DivisionByZero));
    assert_eq!(calculate(i64::MAX, 1, Operator::Add), Err(EvalError::Overflow));
}
