//! The constrained random builder of expression trees. The tree grows on
//! its right branch only; the operand beside a subtraction or a division is
//! a number chosen so that the difference is not negative and the quotient
//! is a proper fraction.

use vstd::prelude::*;
use rand::rngs::StdRng;
use rand::Rng;
use crate::expression::ExpressionNode;
use crate::operator::Operator;
use crate::fraction::{lemma_normalize, lemma_normalize_sign, normalize, Frac};
use crate::rational::Rational;
use crate::roundtrip::natural;

verus! {

/// The random number generator of the `rand` crate.
#[verifier::external_type_specification]
#[verifier::external_body]
pub struct ExStdRng(StdRng);

/// `Rng::gen_range` on the half-open range `low..high`: some number of the
/// range. The call panics on an empty range, which the precondition
/// excludes.
#[verifier::external_body]
fn draw_range(rng: &mut StdRng, low: i32, high: i32) -> (r: i32)
    requires
        low < high,
    ensures
        low <= r < high,
{
    rng.gen_range(low..high)
}

/// `Rng::gen_ratio` with one chance in two: a fair coin, of which nothing
/// is known.
#[verifier::external_body]
pub(crate) fn draw_coin(rng: &mut StdRng) -> (heads: bool) {
    rng.gen_ratio(1, 2)
}

/// Every left operand in the tree is a number: the tree grows on its right
/// branch only.
pub open spec fn right_comb(node: ExpressionNode) -> bool
    decreases node,
{
    match node {
        ExpressionNode::Leaf(_) => true,
        ExpressionNode::Binary(left, _, right) => *left is Leaf && right_comb(*right),
    }
}

/// The leaf that holds the whole number `n`.
pub open spec fn number(n: int) -> ExpressionNode {
    ExpressionNode::Leaf(Rational::integer(n as i64))
}

/// `node` is a number that may stand to the right of `op` when `left`
/// stands to its left: above `left` and below `left + realm` for a
/// division; below `left` for a subtraction, or equal to it when `left` is
/// one; any number from one up to `realm` otherwise.
pub open spec fn sibling_fits(op: Operator, left: int, node: ExpressionNode, realm: int) -> bool {
    exists|n: int|
        #![trigger number(n)]
        node == number(n) && match op {
            Operator::Divide => left < n < left + realm,
            Operator::Subtract => if left == 1 {
                n == 1
            } else {
                1 <= n < left
            },
            _ => 1 <= n < realm,
        }
}

/// `node` is a tree that the builder can return for this depth and realm:
/// a number from one up to `realm`, an operator, and to its right either a
/// fitting number or, beside an addition or a multiplication and with
/// depth to spare, another such tree.
pub open spec fn generated(node: ExpressionNode, depth: nat, realm: int) -> bool
    decreases depth,
{
    match node {
        ExpressionNode::Leaf(_) => false,
        ExpressionNode::Binary(left, op, right) => exists|v: int|
            #![trigger number(v)]
            {
                &&& *left == number(v)
                &&& 1 <= v < realm
                &&& {
                    ||| sibling_fits(op, v, *right, realm)
                    ||| {
                        &&& depth > 1
                        &&& op == Operator::Add || op == Operator::Multiply
                        &&& generated(*right, (depth - 1) as nat, realm)
                    }
                }
            },
    }
}

/// The range from which the number beside `op` is drawn when `left` stands
/// on the other side; none where no draw is made, which is beside a
/// subtraction from one.
pub fn sibling_bounds(op: Operator, left: i32, realm: i32) -> (r: Option<(i32, i32)>)
    ensures
        r == match op {
            Operator::Subtract => if left == 1 {
                None
            } else {
                Some((1i32, left))
            },
            _ => Some((1i32, realm)),
        },
{
    match op {
        Operator::Subtract => if left == 1 {
            None
        } else {
            Some((1, left))
        },
        _ => Some((1, realm)),
    }
}

/// The number beside `op` for a draw: the draw above `left` for a
/// division, the draw below `left` for a subtraction, the draw itself
/// otherwise.
pub fn sibling_value(op: Operator, left: i32, draw: i32) -> (r: i64)
    ensures
        r == match op {
            Operator::Divide => left + draw,
            Operator::Subtract => left - draw,
            _ => draw as int,
        },
{
    match op {
        Operator::Divide => left as i64 + draw as i64,
        Operator::Subtract => left as i64 - draw as i64,
        _ => draw as i64,
    }
}

/// Draws the number that stands to the right of `op`.
pub fn generate_right(
    rng: &mut StdRng,
    left: i32,
    op: Operator,
    realm: i32,
) -> (node: ExpressionNode)
    requires
        realm > 1,
        left >= 1,
    ensures
        sibling_fits(op, left as int, node, realm as int),
{
    let n: i64 = match sibling_bounds(op, left, realm) {
        None => left as i64,
        Some((low, high)) => {
            let draw = draw_range(rng, low, high);
            sibling_value(op, left, draw)
        },
    };
    let node = ExpressionNode::Leaf(Rational::from_integer(n));
    assert(node == number(n as int));
    node
}

/// Builds a random expression of at most `depth` operators (and at least
/// one) over numbers from one up to `realm`.
pub fn build_expression_tree(
    rng: &mut StdRng,
    depth: usize,
    realm: i32,
) -> (node: ExpressionNode)
    requires
        realm > 1,
    ensures
        generated(node, depth as nat, realm as int),
    decreases depth,
{
    let v: i32 = draw_range(rng, 1, realm);
    let op = Operator::from_index(draw_range(rng, 0, 4));
    let left = ExpressionNode::Leaf(Rational::from_integer(v as i64));
    assert(left == number(v as int));
    let deeper = depth > 1 && draw_coin(rng);
    let right = match op {
        Operator::Add | Operator::Multiply => if deeper {
            build_expression_tree(rng, depth - 1, realm)
        } else {
            generate_right(rng, v, op, realm)
        },
        _ => generate_right(rng, v, op, realm),
    };
    ExpressionNode::Binary(Box::new(left), op, Box::new(right))
}

/// Every subtraction in the tree has a value that is not negative, every
/// division a value strictly between zero and one, and nothing divides by
/// zero.
pub open spec fn well_behaved(node: ExpressionNode) -> bool
    decreases node,
{
    match node {
        ExpressionNode::Leaf(_) => true,
        ExpressionNode::Binary(left, op, right) => {
            &&& well_behaved(*left)
            &&& well_behaved(*right)
            &&& node.value() matches Some(v) && match op {
                Operator::Subtract => v.num >= 0,
                Operator::Divide => 0 < v.num < v.den,
                _ => true,
            }
        },
    }
}

/// The difference of two whole numbers, the first not below the second, is
/// not negative.
proof fn lemma_difference(a: int, b: int)
    requires
        a >= b,
    ensures
        Frac::integer(a).minus(Frac::integer(b)).num >= 0,
{
    assert(a * 1 - b * 1 == a - b && 1 * 1 == 1) by (nonlinear_arith);
    lemma_normalize_sign(a - b, 1);
}

/// The quotient of a positive whole number by a greater one lies strictly
/// between zero and one.
proof fn lemma_quotient(a: int, b: int)
    requires
        0 < a < b,
    ensures
        0 < Frac::integer(a).over(Frac::integer(b)).num < Frac::integer(a).over(
            Frac::integer(b),
        ).den,
{
    let x = normalize(a, b);
    lemma_normalize(a, b);
    lemma_normalize_sign(a, b);
    assert(x.num < x.den) by (nonlinear_arith)
        requires
            x.num * b == a * x.den,
            0 < a < b,
            x.den > 0,
            x.num > 0,
    ;
}

/// What the builder returns is a valid tree over natural numbers, and it
/// is well behaved: by construction no subtraction in it is negative, no
/// division improper, and its value exists.
pub proof fn lemma_generated_behaves(node: ExpressionNode, depth: nat, realm: int)
    requires
        1 < realm <= i32::MAX,
        generated(node, depth, realm),
    ensures
        node.valid(),
        natural(node),
        right_comb(node),
        well_behaved(node),
        node.value() is Some,
    decreases depth,
{
    match node {
        ExpressionNode::Leaf(_) => {},
        ExpressionNode::Binary(left, op, right) => {
            let v = choose|v: int|
                #![trigger number(v)]
                {
                    &&& *left == number(v)
                    &&& 1 <= v < realm
                    &&& {
                        ||| sibling_fits(op, v, *right, realm)
                        ||| {
                            &&& depth > 1
                            &&& op == Operator::Add || op == Operator::Multiply
                            &&& generated(*right, (depth - 1) as nat, realm)
                        }
                    }
                };
            Rational::lemma_integer(v as i64);
            assert(left.valid() && natural(*left) && well_behaved(*left) && right_comb(*left));
            assert(left.value() == Some(Frac::integer(v)));
            if sibling_fits(op, v, *right, realm) {
                let n = choose|n: int|
                    #![trigger number(n)]
                    *right == number(n) && match op {
                        Operator::Divide => v < n < v + realm,
                        Operator::Subtract => if v == 1 {
                            n == 1
                        } else {
                            1 <= n < v
                        },
                        _ => 1 <= n < realm,
                    };
                Rational::lemma_integer(n as i64);
                assert(right.valid() && natural(*right) && well_behaved(*right) && right_comb(
                    *right,
                ));
                match op {
                    Operator::Subtract => lemma_difference(v, n),
                    Operator::Divide => lemma_quotient(v, n),
                    _ => {},
                }
            } else {
                lemma_generated_behaves(*right, (depth - 1) as nat, realm);
            }
        },
    }
}

} // verus!
