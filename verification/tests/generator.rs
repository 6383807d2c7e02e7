use miniopgenerator::error::EvalError;
use miniopgenerator::exercise::{generate_exercises, generate_expression, render, GenerationConfig};
use miniopgenerator::expression::ExpressionNode;
use miniopgenerator::generator::{build_expression_tree, generate_right, sibling_bounds, sibling_value};
use miniopgenerator::operator::Operator;
use miniopgenerator::parser::evaluate;
use miniopgenerator::rational::Rational;
use rand::rngs::StdRng;
use rand::SeedableRng;

fn number(node: &ExpressionNode) -> i64 {
    match node {
        ExpressionNode::Leaf(v) => {
            assert_eq!(v.denominator(), 1);
            v.numerator()
        }
        ExpressionNode::Binary(_, _, _) => panic!("an operation where a number belongs"),
    }
}

fn operators(node: &ExpressionNode) -> usize {
    match node {
        ExpressionNode::Leaf(_) => 0,
        ExpressionNode::Binary(left, _, right) => 1 + operators(left) + operators(right),
    }
}

fn check_shape(node: &ExpressionNode, realm: i64) {
    match node {
        ExpressionNode::Leaf(_) => panic!("a tree of the builder has an operator"),
        ExpressionNode::Binary(left, op, right) => {
            let v = number(left);
            assert!(1 <= v && v < realm);
            let value = node.evaluate().unwrap();
            match op {
                Operator::Divide => {
                    let n = number(right);
                    assert!(v < n && n < v + realm);
                    assert!(0 < value.numerator() && value.numerator() < value.denominator());
                }
                Operator::Subtract => {
                    let n = number(right);
                    assert!(if v == 1 { n == 1 } else { 1 <= n && n < v });
                    assert!(value.numerator() >= 0);
                }
                _ => match **right {
                    ExpressionNode::Leaf(_) => {
                        let n = number(right);
                        assert!(1 <= n && n < realm);
                    }
                    ExpressionNode::Binary(_, _, _) => check_shape(right, realm),
                },
            }
        }
    }
}

#[test]
fn sibling_bounds_by_operator() {
    assert_eq!(sibling_bounds(Operator::Divide, 4, 10), Some((1, 10)));
    assert_eq!(sibling_bounds(Operator::Add, 4, 10), Some((1, 10)));
    assert_eq!(sibling_bounds(Operator::Multiply, 1, 10), Some((1, 10)));
    assert_eq!(sibling_bounds(Operator::Subtract, 4, 10), Some((1, 4)));
    assert_eq!(sibling_bounds(Operator::Subtract, 1, 10), None);
}

#[test]
fn sibling_value_by_operator() {
    assert_eq!(sibling_value(Operator::Divide, 4, 3), 7);
    assert_eq!(sibling_value(Operator::Subtract, 4, 3), 1);
    assert_eq!(sibling_value(Operator::Add, 4, 3), 3);
    assert_eq!(sibling_value(Operator::Multiply, 4, 3), 3);
    assert_eq!(sibling_value(Operator::Divide, i32::MAX - 1, i32::MAX - 1), 2 * (i32::MAX as i64 - 1));
}

#[test]
fn generate_right_keeps_the_policy() {
    let mut rng = StdRng::seed_from_u64(3);
    for _ in 0..500 {
        let n = number(&generate_right(&mut rng, 4, Operator::Divide, 10));
        assert!(4 < n && n < 14);
        let n = number(&generate_right(&mut rng, 4, Operator::Subtract, 10));
        assert!(1 <= n && n < 4);
        let n = number(&generate_right(&mut rng, 1, Operator::Subtract, 10));
        assert_eq!(n, 1);
        let n = number(&generate_right(&mut rng, 4, Operator::Add, 10));
        assert!(1 <= n && n < 10);
    }
}

#[test]
fn built_trees_keep_the_policy() {
    for seed in 0..200u64 {
        let mut rng = StdRng::seed_from_u64(seed);
        for depth in 0..5usize {
            let tree = build_expression_tree(&mut rng, depth, 10);
            assert!(1 <= operators(&tree) && operators(&tree) <= depth.max(1));
            check_shape(&tree, 10);
        }
    }
}

#[test]
fn built_trees_with_the_smallest_realm() {
    let mut rng = StdRng::seed_from_u64(11);
    for _ in 0..200 {
        let tree = build_expression_tree(&mut rng, 3, 2);
        check_shape(&tree, 2);
    }
}

#[test]
fn built_trees_differ() {
    let mut rng = StdRng::seed_from_u64(5);
    let first = build_expression_tree(&mut rng, 2, 1000);
    let mut other = false;
    for _ in 0..50 {
        other = other || build_expression_tree(&mut rng, 2, 1000) != first;
    }
    assert!(other);
}

#[test]
fn rendered_text_evaluates_to_the_value_of_the_tree() {
    for seed in 0..300u64 {
        let mut rng = StdRng::seed_from_u64(seed);
        let tree = build_expression_tree(&mut rng, 4, 20);
        let text = render(&tree, &mut rng);
        assert_eq!(evaluate(&text), tree.evaluate(), "{}", text);
    }
}

#[test]
fn render_tosses_coins() {
    let tree = ExpressionNode::Binary(
        Box::new(ExpressionNode::Leaf(Rational::from_integer(3))),
        Operator::Add,
        Box::new(ExpressionNode::Binary(
            Box::new(ExpressionNode::Leaf(Rational::from_integer(4))),
            Operator::Subtract,
            Box::new(ExpressionNode::Leaf(Rational::from_integer(2))),
        )),
    );
    let mut rng = StdRng::seed_from_u64(1);
    let mut with = false;
    let mut without = false;
    for _ in 0..200 {
        let text = render(&tree, &mut rng);
        with = with || text == "3 + (4 - 2)";
        without = without || text == "3 + 4 - 2";
        assert!(text == "3 + (4 - 2)" || text == "3 + 4 - 2");
    }
    assert!(with && without);
}

#[test]
fn generated_expressions_have_a_value() {
    let mut rng = StdRng::seed_from_u64(9);
    for _ in 0..500 {
        let text = generate_expression(&mut rng, 10);
        let value = evaluate(&text).unwrap();
        assert!(value.denominator() >= 1, "{}", text);
    }
}

#[test]
fn generate_exercises_numbers_from_one() {
    let mut rng = StdRng::seed_from_u64(21);
    let config = GenerationConfig::new(25, 10).unwrap();
    let list = generate_exercises(&mut rng, &config).unwrap();
    assert_eq!(list.len(), 25);
    for (i, exercise) in list.iter().enumerate() {
        assert_eq!(exercise.index, i + 1);
        assert_eq!(evaluate(&exercise.text), Ok(exercise.canonical_answer));
    }
}

#[test]
fn generate_exercises_succeeds_over_the_safe_realm() {
    assert_eq!(miniopgenerator::exercise::SAFE_REALM, 1 << 20);
    for seed in 0..20u64 {
        let mut rng = StdRng::seed_from_u64(seed);
        let config = GenerationConfig::new(500, miniopgenerator::exercise::SAFE_REALM).unwrap();
        let list = generate_exercises(&mut rng, &config).unwrap();
        assert_eq!(list.len(), 500);
        assert_eq!(list[499].index, 500);
    }
}

#[test]
fn generate_exercises_of_none() {
    let mut rng = StdRng::seed_from_u64(4);
    let config = GenerationConfig { count: 0, realm: 10 };
    assert_eq!(generate_exercises(&mut rng, &config), Ok(vec![]));
}

#[test]
fn generate_exercises_reports_overflow() {
    let config = GenerationConfig::new(2000, i32::MAX).unwrap();
    let mut rng = StdRng::seed_from_u64(2);
    assert_eq!(generate_exercises(&mut rng, &config), Err(EvalError::Overflow));
}

#[test]
fn configuration_is_checked() {
    assert_eq!(GenerationConfig::new(0, 10), None);
    assert_eq!(GenerationConfig::new(5, 1), None);
    assert_eq!(GenerationConfig::new(5, -3), None);
    assert_eq!(GenerationConfig::new(5, 2), Some(GenerationConfig { count: 5, realm: 2 }));
}
