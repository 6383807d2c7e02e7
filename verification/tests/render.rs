use miniopgenerator::exercise::decorate;
use miniopgenerator::expression::ExpressionNode;
use miniopgenerator::operator::Operator;
use miniopgenerator::parser::evaluate;
use miniopgenerator::rational::Rational;
use miniopgenerator::render::{add_braces, fits_chain, render_with};

fn leaf(n: i64) -> ExpressionNode {
    ExpressionNode::Leaf(Rational::from_integer(n))
}

fn binary(left: ExpressionNode, op: Operator, right: ExpressionNode) -> ExpressionNode {
    ExpressionNode::Binary(Box::new(left), op, Box::new(right))
}

const OPERATORS: [Operator; 4] = [Operator::Add, Operator::Subtract, Operator::Multiply, Operator::Divide];

#[test]
fn render_leaf_and_flat_operation() {
    assert_eq!(render_with(&leaf(42), &vec![]), "42");
    assert_eq!(render_with(&binary(leaf(1), Operator::Multiply, leaf(20)), &vec![true]), "1 * 20");
}

#[test]
fn render_coin_decides_where_the_value_allows() {
    let tree = binary(leaf(3), Operator::Add, binary(leaf(4), Operator::Subtract, leaf(2)));
    assert_eq!(render_with(&tree, &vec![true]), "3 + (4 - 2)");
    assert_eq!(render_with(&tree, &vec![false]), "3 + 4 - 2");
    assert_eq!(render_with(&tree, &vec![]), "3 + (4 - 2)");
    let tree = binary(leaf(3), Operator::Multiply, binary(leaf(4), Operator::Divide, leaf(2)));
    assert_eq!(render_with(&tree, &vec![false]), "3 * 4 / 2");
}

#[test]
fn render_forces_parentheses_where_the_value_needs_them() {
    let tree = binary(leaf(3), Operator::Multiply, binary(leaf(4), Operator::Add, leaf(2)));
    assert_eq!(render_with(&tree, &vec![false]), "3 * (4 + 2)");
    let tree = binary(leaf(9), Operator::Subtract, binary(leaf(4), Operator::Subtract, leaf(2)));
    assert_eq!(render_with(&tree, &vec![false]), "9 - (4 - 2)");
    let tree = binary(leaf(9), Operator::Divide, binary(leaf(4), Operator::Multiply, leaf(2)));
    assert_eq!(render_with(&tree, &vec![false]), "9 / (4 * 2)");
}

#[test]
fn render_left_operand_without_parentheses() {
    let tree = binary(binary(leaf(3), Operator::Add, leaf(4)), Operator::Multiply, leaf(2));
    assert_eq!(render_with(&tree, &vec![]), "3 + 4 * 2");
    assert_eq!(evaluate("3 + 4 * 2"), tree.evaluate());
}

#[test]
fn render_takes_coins_in_order() {
    let inner = binary(leaf(3), Operator::Add, binary(leaf(4), Operator::Add, leaf(5)));
    let tree = binary(leaf(1), Operator::Add, binary(leaf(2), Operator::Add, inner));
    assert_eq!(render_with(&tree, &vec![false, false, false]), "1 + 2 + 3 + 4 + 5");
    assert_eq!(render_with(&tree, &vec![true, false, false]), "1 + 2 + 3 + (4 + 5)");
    assert_eq!(render_with(&tree, &vec![false, true, false]), "1 + 2 + (3 + 4 + 5)");
    assert_eq!(render_with(&tree, &vec![false, false, true]), "1 + (2 + 3 + 4 + 5)");
    assert_eq!(render_with(&tree, &vec![false]), "1 + (2 + (3 + 4 + 5))");
}

#[test]
fn fits_chain_follows_the_left_spine() {
    let sum = binary(leaf(4), Operator::Subtract, leaf(2));
    assert!(fits_chain(Operator::Add, &sum));
    assert!(!fits_chain(Operator::Multiply, &sum));
    assert!(!fits_chain(Operator::Subtract, &sum));
    assert!(fits_chain(Operator::Divide, &leaf(3)));
    let mixed = binary(binary(leaf(1), Operator::Multiply, leaf(2)), Operator::Add, leaf(3));
    assert!(!fits_chain(Operator::Add, &mixed));
}

#[test]
fn rendering_keeps_the_value_for_every_pair_of_operators() {
    for outer in OPERATORS {
        for inner in OPERATORS {
            for heads in [false, true] {
                let tree = binary(leaf(7), outer, binary(leaf(5), inner, leaf(3)));
                let text = render_with(&tree, &vec![heads]);
                assert_eq!(evaluate(&text), tree.evaluate(), "{}", text);
                let tree = binary(binary(leaf(7), outer, leaf(5)), inner, leaf(3));
                let text = render_with(&tree, &vec![heads]);
                assert_eq!(evaluate(&text), tree.evaluate(), "{}", text);
            }
        }
    }
}

#[test]
fn rendering_keeps_the_value_for_deeper_trees() {
    for a in OPERATORS {
        for b in OPERATORS {
            for c in OPERATORS {
                for coins in 0..8u8 {
                    let coins = vec![coins & 1 != 0, coins & 2 != 0, coins & 4 != 0];
                    let tree = binary(leaf(11), a, binary(binary(leaf(7), b, leaf(5)), c, binary(leaf(3), a, leaf(2))));
                    let text = render_with(&tree, &coins);
                    assert_eq!(evaluate(&text), tree.evaluate(), "{}", text);
                }
            }
        }
    }
}

#[test]
fn add_braces_wraps_the_first_operation() {
    assert_eq!(add_braces("3 + 4 * 2"), "(3 + 4) * 2");
    assert_eq!(add_braces("12 / 34 - 5 + 6"), "(12 / 34) - 5 + 6");
    assert_eq!(add_braces("3 + 4"), "3 + 4");
    assert_eq!(add_braces("3"), "3");
    assert_eq!(add_braces(""), "");
    assert_eq!(add_braces("+-"), "()+-");
}

#[test]
fn add_braces_keeps_the_value_of_flat_text() {
    for outer in OPERATORS {
        for inner in OPERATORS {
            let text = render_with(&binary(binary(leaf(7), outer, leaf(5)), inner, leaf(3)), &vec![]);
            assert_eq!(evaluate(&add_braces(&text)), evaluate(&text), "{}", text);
        }
    }
}

#[test]
fn decorate_leaves_closed_text_alone() {
    assert_eq!(decorate("3 + (4 * 2)".to_string(), true), "3 + (4 * 2)");
    assert_eq!(decorate("3 + 4 - 2".to_string(), true), "(3 + 4) - 2");
    assert_eq!(decorate("3 + 4 - 2".to_string(), false), "3 + 4 - 2");
    assert_eq!(decorate("".to_string(), true), "");
}
