//! Exercises: a random expression as text, with the canonical answer that
//! reading the text gives.

use vstd::prelude::*;
use rand::rngs::StdRng;
use crate::braces::{decorated, lemma_decorated_roundtrip};
use crate::fraction::Frac;
use crate::error::EvalError;
use crate::expression::ExpressionNode;
use crate::generator::{
    build_expression_tree, draw_coin, generated, lemma_generated_behaves, number, sibling_fits,
};
use crate::operator::Operator;
use crate::parser::{evaluate, parse_text, text_outcome};
use crate::rational::{Rational, LIMIT};
use crate::render::{add_braces, later_coins, operand, render_text, render_with, rendering};
use crate::text::chars_of;

verus! {

/// How many exercises to make, and the bound below which their numbers
/// are drawn.
#[derive(Clone, Copy, Debug, PartialEq, Eq, Structural)]
pub struct GenerationConfig {
    pub count: usize,
    pub realm: i32,
}

/// One row of output: its place counted from one, the expression, and the
/// answer.
#[derive(Debug, PartialEq, Eq)]
pub struct Exercise {
    pub index: usize,
    pub text: String,
    pub canonical_answer: Rational,
}

/// The depth to which expressions of exercises are built.
pub const DEPTH: usize = 2;

/// The greatest realm for which no answer of an exercise can overflow:
/// three numbers below twice the realm and two operations stay within
/// 64 bits.
pub const SAFE_REALM: i32 = 1_048_576;

impl GenerationConfig {
    /// At least one exercise, over a realm of more than one.
    pub open spec fn valid(self) -> bool {
        self.count > 0 && self.realm > 1
    }

    /// The configuration, if it is a valid one.
    pub fn new(count: usize, realm: i32) -> (r: Option<GenerationConfig>)
        ensures
            r == if (GenerationConfig { count, realm }).valid() {
                Some(GenerationConfig { count, realm })
            } else {
                None
            },
    {
        if count > 0 && realm > 1 {
            Some(GenerationConfig { count, realm })
        } else {
            None
        }
    }
}

/// `text` is what some tree of the builder renders to, under some coins.
pub open spec fn expression_of(text: Seq<char>, tree: ExpressionNode, realm: int) -> bool {
    &&& generated(tree, DEPTH as nat, realm)
    &&& exists|coins: Seq<bool>, heads: bool| #[trigger]
        decorated(render_text(tree, coins), heads) == text
}

/// The exercise at place `i` is well made: it carries its place counted
/// from one, its text is that of some tree of the builder, and its answer
/// is both what reading the text gives and the exact value of that tree.
pub open spec fn well_made(exercise: Exercise, i: int, realm: int) -> bool {
    &&& exercise.index == i + 1
    &&& text_outcome(exercise.text@) == Ok::<Frac, EvalError>(
        exercise.canonical_answer@,
    )
    &&& exists|tree: ExpressionNode| #[trigger]
        expression_of(exercise.text@, tree, realm) && tree.value() == Some(
            exercise.canonical_answer@,
        )
}

/// The number of right operands in the tree that are operations: the
/// places at which a rendering takes a coin.
pub open spec fn coin_places(node: ExpressionNode) -> nat
    decreases node,
{
    match node {
        ExpressionNode::Leaf(_) => 0,
        ExpressionNode::Binary(left, _, right) => coin_places(*left) + coin_places(*right) + if *right
            is Binary {
            1nat
        } else {
            0nat
        },
    }
}

/// A rendering takes one coin at each coin place, from the front of the
/// coins given.
pub proof fn lemma_rendering_takes(node: ExpressionNode, coins: Seq<bool>)
    requires
        coins.len() >= coin_places(node),
    ensures
        rendering(node, coins).coins == coins.skip(coin_places(node) as int),
    decreases node,
{
    match node {
        ExpressionNode::Leaf(_) => {
            assert(coins.skip(0) =~= coins);
        },
        ExpressionNode::Binary(left, op, right) => {
            let l = rendering(*left, coins);
            let r = rendering(*right, l.coins);
            lemma_rendering_takes(*left, coins);
            lemma_rendering_takes(*right, l.coins);
            let taken = coin_places(*left) + coin_places(*right);
            assert(r.coins =~= coins.skip(taken as int));
            if *right is Binary {
                assert(operand(op, *right, l.coins).coins == later_coins(r.coins));
                assert(later_coins(r.coins) =~= coins.skip(taken as int + 1));
            } else {
                assert(operand(op, *right, l.coins).coins == r.coins);
            }
        },
    }
}

/// Tosses one coin for each right operand of the tree that is an
/// operation, and puts the coins behind those that `coins` holds, in the
/// order in which a rendering takes them: a rendering of the tree under
/// the new coins uses up every one of them.
fn draw_coins(node: &ExpressionNode, rng: &mut StdRng, coins: &mut Vec<bool>)
    ensures
        final(coins)@.len() == old(coins)@.len() + coin_places(*node),
        final(coins)@.take(old(coins)@.len() as int) == old(coins)@,
        rendering(*node, final(coins)@.skip(old(coins)@.len() as int)).coins.len() == 0,
    decreases node,
{
    match node {
        ExpressionNode::Leaf(_) => {},
        ExpressionNode::Binary(left, _, right) => {
            draw_coins(left, rng, coins);
            draw_coins(right, rng, coins);
            match **right {
                ExpressionNode::Binary(_, _, _) => {
                    let heads = draw_coin(rng);
                    coins.push(heads);
                },
                ExpressionNode::Leaf(_) => {},
            }
        },
    }
    proof {
        lemma_rendering_takes(*node, coins@.skip(old(coins)@.len() as int));
    }
}

/// The text of a tree, with a coin tossed for every right operand that is
/// an operation: the coin decides where parentheses are free to stand or
/// not.
pub fn render(node: &ExpressionNode, rng: &mut StdRng) -> (s: String)
    ensures
        exists|coins: Seq<bool>| s@ == #[trigger] render_text(*node, coins),
{
    let mut coins: Vec<bool> = Vec::new();
    draw_coins(node, rng, &mut coins);
    render_with(node, &coins)
}

/// The text with its first operation in parentheses, if the coin shows
/// heads and the text does not end with a closing parenthesis.
pub fn decorate(text: String, heads: bool) -> (s: String)
    ensures
        s@ == decorated(text@, heads),
{
    if !heads {
        return text;
    }
    let chars = chars_of(text.as_str());
    if chars.len() > 0 && chars[chars.len() - 1] == ')' {
        text
    } else {
        add_braces(text.as_str())
    }
}

/// A random expression over numbers from one up to `realm`, as text.
pub fn generate_expression(rng: &mut StdRng, realm: i32) -> (text: String)
    requires
        realm > 1,
    ensures
        exists|tree: ExpressionNode| #[trigger] expression_of(text@, tree, realm as int),
{
    let tree = build_expression_tree(rng, DEPTH, realm);
    let mut coins: Vec<bool> = Vec::new();
    draw_coins(&tree, rng, &mut coins);
    let plain = render_with(&tree, &coins);
    let chars = chars_of(plain.as_str());
    let closed = chars.len() > 0 && chars[chars.len() - 1] == ')';
    let heads = !closed && draw_coin(rng);
    let text = decorate(plain, heads);
    proof {
        assert(expression_of(text@, tree, realm as int));
    }
    text
}

/// A number that fits beside an operator has a weight from one up to
/// twice the realm less two.
proof fn lemma_sibling_weight(op: Operator, left: int, node: ExpressionNode, realm: int)
    requires
        1 <= left < realm <= i32::MAX,
        sibling_fits(op, left, node, realm),
    ensures
        1 <= node.weight() <= 2 * realm - 2,
{
    let n = choose|n: int|
        #![trigger number(n)]
        node == number(n) && match op {
            Operator::Divide => left < n < left + realm,
            Operator::Subtract => if left == 1 {
                n == 1
            } else {
                1 <= n < left
            },
            _ => 1 <= n < realm,
        };
    Rational::lemma_integer(n as i64);
    assert(node.weight() == Frac::integer(n).height());
}

/// The product of three numbers of an exercise over a safe realm, with
/// the factor of its two operations, is within the limit.
proof fn lemma_safe_product(a: nat, b: nat, c: nat)
    requires
        a <= 1_048_575,
        b <= 1_048_575,
        c <= 2_097_150,
    ensures
        2 * a * (2 * b * c) <= LIMIT,
        2 * a * c <= LIMIT,
{
    assert(b * c <= 1_048_575 * 2_097_150) by (nonlinear_arith)
        requires
            b <= 1_048_575,
            c <= 2_097_150,
    ;
    let inner = 2 * b * c;
    assert(inner == 2 * (b * c)) by (nonlinear_arith)
        requires
            inner == 2 * b * c,
    ;
    assert(a * inner <= 1_048_575 * 4_398_042_316_500) by (nonlinear_arith)
        requires
            a <= 1_048_575,
            inner <= 4_398_042_316_500,
    ;
    assert(2 * a * (2 * b * c) == 2 * (a * inner)) by (nonlinear_arith)
        requires
            inner == 2 * b * c,
    ;
    assert(a * c <= 1_048_575 * 2_097_150) by (nonlinear_arith)
        requires
            a <= 1_048_575,
            c <= 2_097_150,
    ;
    assert(2 * a * c == 2 * (a * c)) by (nonlinear_arith);
}

/// Over a safe realm the weight of a tree of the builder, at the depth of
/// exercises, is within the limit.
pub proof fn lemma_generated_weight(tree: ExpressionNode, realm: int)
    requires
        1 < realm <= SAFE_REALM,
        generated(tree, DEPTH as nat, realm),
    ensures
        tree.weight() <= LIMIT,
{
    match tree {
        ExpressionNode::Leaf(_) => {},
        ExpressionNode::Binary(left, op, right) => {
            let v = choose|v: int|
                #![trigger number(v)]
                {
                    &&& *left == number(v)
                    &&& 1 <= v < realm
                    &&& {
                        ||| sibling_fits(op, v, *right, realm)
                        ||| {
                            &&& DEPTH > 1
                            &&& op == Operator::Add || op == Operator::Multiply
                            &&& generated(*right, (DEPTH - 1) as nat, realm)
                        }
                    }
                };
            Rational::lemma_integer(v as i64);
            assert(left.weight() == Frac::integer(v).height());
            if sibling_fits(op, v, *right, realm) {
                lemma_sibling_weight(op, v, *right, realm);
                lemma_safe_product(left.weight(), 1, right.weight());
            } else {
                match *right {
                    ExpressionNode::Leaf(_) => {},
                    ExpressionNode::Binary(second, inner_op, third) => {
                        let below = (DEPTH - 1) as nat;
                        let w = choose|w: int|
                            #![trigger number(w)]
                            {
                                &&& *second == number(w)
                                &&& 1 <= w < realm
                                &&& {
                                    ||| sibling_fits(inner_op, w, *third, realm)
                                    ||| {
                                        &&& below > 1
                                        &&& inner_op == Operator::Add || inner_op
                                            == Operator::Multiply
                                        &&& generated(*third, (below - 1) as nat, realm)
                                    }
                                }
                            };
                        Rational::lemma_integer(w as i64);
                        assert(second.weight() == Frac::integer(w).height());
                        lemma_sibling_weight(inner_op, w, *third, realm);
                        assert(right.weight() == 2 * second.weight() * third.weight());
                        lemma_safe_product(left.weight(), second.weight(), third.weight());
                    },
                }
            }
        },
    }
}

/// Reading undoes rendering for every tree of the builder: whatever the
/// coins showed, the text is an expression, and the tree that is read from
/// it has the exact value of the tree that was rendered. Where evaluating
/// the text and evaluating the tree in machine integers both give a value,
/// it is that value; and where the weight of the tree is within the limit,
/// both give it.
pub proof fn lemma_generated_roundtrip(
    tree: ExpressionNode,
    depth: nat,
    realm: int,
    coins: Seq<bool>,
    heads: bool,
)
    requires
        1 < realm <= i32::MAX,
        generated(tree, depth, realm),
    ensures
        tree.value() is Some,
        parse_text(decorated(render_text(tree, coins), heads)) matches Some(read) && read.value()
            == tree.value(),
        text_outcome(decorated(render_text(tree, coins), heads)) matches Ok(v) ==> tree.value()
            == Some(v),
        tree.outcome() matches Ok(v) ==> tree.value() == Some(v),
        text_outcome(decorated(render_text(tree, coins), heads)) matches Err(e) ==> e
            == EvalError::Overflow,
        tree.weight() <= LIMIT ==> tree.outcome() is Ok && text_outcome(
            decorated(render_text(tree, coins), heads),
        ) == tree.outcome(),
{
    lemma_generated_behaves(tree, depth, realm);
    lemma_decorated_roundtrip(tree, coins, heads);
    let read = parse_text(decorated(render_text(tree, coins), heads))->0;
    read.lemma_outcome_value();
    tree.lemma_outcome_value();
    if tree.weight() <= LIMIT {
        read.lemma_weight_outcome();
        tree.lemma_weight_outcome();
    }
}

/// The text of an expression of the builder has a value, which is the
/// value of the tree it was rendered from; reading it in machine integers
/// gives that value, or finds that it does not fit.
pub proof fn lemma_expression_outcome(text: Seq<char>, tree: ExpressionNode, realm: int)
    requires
        1 < realm <= i32::MAX,
        expression_of(text, tree, realm),
    ensures
        tree.value() is Some,
        text_outcome(text) matches Ok(v) ==> tree.value() == Some(v),
        text_outcome(text) matches Err(e) ==> e == EvalError::Overflow,
        realm <= SAFE_REALM ==> text_outcome(text) is Ok && text_outcome(text) == tree.outcome(),
{
    let (coins, heads) = choose|coins: Seq<bool>, heads: bool| #[trigger]
        decorated(render_text(tree, coins), heads) == text;
    lemma_generated_roundtrip(tree, DEPTH as nat, realm, coins, heads);
    if realm <= SAFE_REALM {
        lemma_generated_weight(tree, realm);
    }
}

/// Makes the exercises of a configuration, as many as it counts, with
/// places from one on. Over a realm up to `SAFE_REALM` this succeeds
/// whatever is drawn. Over a greater realm it fails with `Overflow` if the
/// answer to one of the exercises does not fit, which is the only failure
/// there is.
pub fn generate_exercises(
    rng: &mut StdRng,
    config: &GenerationConfig,
) -> (r: Result<Vec<Exercise>, EvalError>)
    requires
        config.realm > 1,
    ensures
        config.realm <= SAFE_REALM ==> r is Ok,
        match r {
            Ok(list) => list.len() == config.count && forall|i: int|
                0 <= i < list.len() ==> well_made(#[trigger] list@[i], i, config.realm as int),
            Err(e) => e == EvalError::Overflow,
        },
{
    let mut list: Vec<Exercise> = Vec::new();
    let mut i: usize = 0;
    while i < config.count
        invariant
            i <= config.count,
            config.realm > 1,
            list.len() == i,
            forall|k: int| 0 <= k < list.len() ==> well_made(
                #[trigger] list@[k],
                k,
                config.realm as int,
            ),
        decreases config.count - i,
    {
        let text = generate_expression(rng, config.realm);
        proof {
            let tree = choose|tree: ExpressionNode| #[trigger]
                expression_of(text@, tree, config.realm as int);
            lemma_expression_outcome(text@, tree, config.realm as int);
        }
        let answer = match evaluate(text.as_str()) {
            Ok(answer) => answer,
            Err(e) => {
                return Err(e);
            },
        };
        let exercise = Exercise { index: i + 1, text, canonical_answer: answer };
        list.push(exercise);
        i = i + 1;
    }
    Ok(list)
}

} // verus!
