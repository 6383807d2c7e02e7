//! Rendering and reading agree: the text of a tree over natural numbers
//! reads back to a tree of the same value, whatever the coins showed.

use vstd::prelude::*;
use crate::canonical::canonical_text;
use crate::decimal::{digits, lemma_digits_shape, lemma_digits_value};
use crate::expression::ExpressionNode;
use crate::fraction::Frac;
use crate::operator::{lemma_reassociate, Operator};
use crate::parser::{parse_chain, parse_expr, parse_term, parse_text, text_outcome};
use crate::rational::Rational;
use crate::render::{chain_fits, later_coins, next_coin, operand, render_text, rendering};
use crate::token::{
    is_separator, joined, lemma_tokens_close, lemma_tokens_open, lemma_tokens_space,
    lemma_tokens_word, prepend, tokens, Token,
};

verus! {

/// Every leaf of the tree is a natural number.
pub open spec fn natural(node: ExpressionNode) -> bool
    decreases node,
{
    match node {
        ExpressionNode::Leaf(v) => v@.den == 1 && v@.num >= 0,
        ExpressionNode::Binary(left, _, right) => natural(*left) && natural(*right),
    }
}

/// A natural number is spelled by its digits.
pub proof fn lemma_canonical_natural(n: nat)
    ensures
        canonical_text(Frac::integer(n as int)) == digits(n),
{
}

/// The digits of a number up to the limit, before the end or a separator,
/// are a number token.
pub proof fn lemma_tokens_number(n: i64, rest: Seq<char>)
    requires
        n >= 0,
        rest.len() == 0 || is_separator(rest[0]),
    ensures
        tokens(digits(n as nat) + rest) == prepend(Token::Number(n), tokens(rest)),
{
    let w = digits(n as nat);
    lemma_digits_shape(n as nat);
    lemma_digits_value(n as nat);
    lemma_tokens_word(w, rest);
}

/// An operator between two spaces is a symbol token.
pub proof fn lemma_tokens_sign(op: Operator, rest: Seq<char>)
    ensures
        tokens(seq![' ', op.symbol(), ' '] + rest) == prepend(Token::Symbol(op), tokens(rest)),
{
    let w = seq![op.symbol()];
    let after = seq![' '] + rest;
    assert(seq![' ', op.symbol(), ' '] + rest =~= seq![' '] + (w + after));
    lemma_tokens_space(w + after);
    lemma_tokens_word(w, after);
    lemma_tokens_space(rest);
}

/// The text of a tree, before the end or a separator, has the tokens of
/// its rendering.
pub proof fn lemma_rendering_tokens(node: ExpressionNode, coins: Seq<bool>, rest: Seq<char>)
    requires
        node.valid(),
        natural(node),
        rest.len() == 0 || is_separator(rest[0]),
    ensures
        tokens(rendering(node, coins).text + rest) == joined(
            rendering(node, coins).tokens,
            tokens(rest),
        ),
    decreases node, 0nat,
{
    match node {
        ExpressionNode::Leaf(v) => {
            let n = v@.num as i64;
            lemma_canonical_natural(n as nat);
            lemma_tokens_number(n, rest);
        },
        ExpressionNode::Binary(left, op, right) => {
            let l = rendering(*left, coins);
            let r = operand(op, *right, l.coins);
            let sign = seq![' ', op.symbol(), ' '];
            let tail = sign + (r.text + rest);
            assert(rendering(node, coins).text + rest =~= l.text + tail);
            lemma_rendering_tokens(*left, coins, tail);
            lemma_tokens_sign(op, r.text + rest);
            lemma_operand_tokens(op, *right, l.coins, rest);
        },
    }
}

/// The text of a right operand, before the end or a separator, has the
/// tokens of its rendering.
pub proof fn lemma_operand_tokens(
    op: Operator,
    node: ExpressionNode,
    coins: Seq<bool>,
    rest: Seq<char>,
)
    requires
        node.valid(),
        natural(node),
        rest.len() == 0 || is_separator(rest[0]),
    ensures
        tokens(operand(op, node, coins).text + rest) == joined(
            operand(op, node, coins).tokens,
            tokens(rest),
        ),
    decreases node, 1nat,
{
    let r = rendering(node, coins);
    if node is Binary && (next_coin(r.coins) || !chain_fits(op, node)) {
        let tail = seq![')'] + rest;
        assert(operand(op, node, coins).text + rest =~= seq!['('] + (r.text + tail));
        lemma_tokens_open(r.text + tail);
        lemma_rendering_tokens(node, coins, tail);
        lemma_tokens_close(rest);
    } else {
        lemma_rendering_tokens(node, coins, rest);
    }
}

/// A number token is read as its leaf.
pub proof fn lemma_read_number(n: i64, rest: Seq<Token>)
    ensures
        parse_term(seq![Token::Number(n)] + rest) == Some(
            (ExpressionNode::Leaf(Rational::integer(n)), rest),
        ),
{
}

/// An operator and a term extend a chain by one operation.
pub proof fn lemma_read_step(
    acc: ExpressionNode,
    op: Operator,
    term_tokens: Seq<Token>,
    term: ExpressionNode,
    rest: Seq<Token>,
)
    requires
        parse_term(term_tokens + rest) == Some((term, rest)),
    ensures
        parse_chain(acc, seq![Token::Symbol(op)] + (term_tokens + rest)) == parse_chain(
            ExpressionNode::Binary(Box::new(acc), op, Box::new(term)),
            rest,
        ),
{
    let ts = seq![Token::Symbol(op)] + (term_tokens + rest);
    assert(ts.skip(1) =~= term_tokens + rest);
}

/// Without coins a rendering leaves none.
pub proof fn lemma_no_coins(node: ExpressionNode, coins: Seq<bool>)
    ensures
        coins.len() == 0 ==> rendering(node, coins).coins.len() == 0,
    decreases node,
{
    match node {
        ExpressionNode::Leaf(_) => {},
        ExpressionNode::Binary(left, op, right) => {
            let l = rendering(*left, coins);
            lemma_no_coins(*left, coins);
            lemma_no_coins(*right, l.coins);
            let r = rendering(*right, l.coins);
            assert(operand(op, *right, l.coins).coins == r.coins || operand(
                op,
                *right,
                l.coins,
            ).coins == later_coins(r.coins));
        },
    }
}

/// The tokens of a tree are read, from the start of an expression, as a
/// tree of the same value; as the tree itself where no coin was given, so
/// that every right operand that is an operation stands in parentheses.
pub proof fn lemma_parse_rendering(
    node: ExpressionNode,
    coins: Seq<bool>,
    rest: Seq<Token>,
) -> (read: ExpressionNode)
    requires
        node.valid(),
        natural(node),
    ensures
        parse_expr(rendering(node, coins).tokens + rest) == parse_chain(read, rest),
        read.valid(),
        read.value() == node.value(),
        read.weight() == node.weight(),
        coins.len() == 0 ==> read == node,
    decreases node, 0nat,
{
    match node {
        ExpressionNode::Leaf(v) => {
            let n = v@.num as i64;
            lemma_read_number(n, rest);
            Rational::lemma_integer(n);
            Rational::lemma_view_injective(v, Rational::integer(n));
            ExpressionNode::Leaf(Rational::integer(n))
        },
        ExpressionNode::Binary(left, op, right) => {
            let l = rendering(*left, coins);
            let r = operand(op, *right, l.coins);
            let tail = seq![Token::Symbol(op)] + (r.tokens + rest);
            assert(rendering(node, coins).tokens + rest =~= l.tokens + tail);
            let first = lemma_parse_rendering(*left, coins, tail);
            lemma_no_coins(*left, coins);
            lemma_parse_operand(first, op, *right, l.coins, rest)
        },
    }
}

/// An operator and the tokens of its right operand extend a chain by the
/// operation on that operand.
pub proof fn lemma_parse_operand(
    acc: ExpressionNode,
    op: Operator,
    node: ExpressionNode,
    coins: Seq<bool>,
    rest: Seq<Token>,
) -> (read: ExpressionNode)
    requires
        acc.valid(),
        node.valid(),
        natural(node),
    ensures
        parse_chain(acc, seq![Token::Symbol(op)] + (operand(op, node, coins).tokens + rest))
            == parse_chain(read, rest),
        read.valid(),
        read.value() == op.combine(acc.value(), node.value()),
        read.weight() == 2 * acc.weight() * node.weight(),
        coins.len() == 0 ==> read == ExpressionNode::Binary(Box::new(acc), op, Box::new(node)),
    decreases node, 2nat,
{
    let r = rendering(node, coins);
    let o = operand(op, node, coins);
    match node {
        ExpressionNode::Leaf(v) => {
            let n = v@.num as i64;
            lemma_read_number(n, rest);
            Rational::lemma_integer(n);
            let term = ExpressionNode::Leaf(Rational::integer(n));
            Rational::lemma_view_injective(v, Rational::integer(n));
            lemma_read_step(acc, op, o.tokens, term, rest);
            let read = ExpressionNode::Binary(Box::new(acc), op, Box::new(term));
            read
        },
        ExpressionNode::Binary(_, _, _) => {
            lemma_no_coins(node, coins);
            if next_coin(r.coins) || !chain_fits(op, node) {
                let close = seq![Token::Close] + rest;
                let term = lemma_parse_rendering(node, coins, close);
                let ts = o.tokens + rest;
                assert(ts.skip(1) =~= r.tokens + close);
                assert(close.skip(1) =~= rest);
                lemma_read_step(acc, op, o.tokens, term, rest);
                let read = ExpressionNode::Binary(Box::new(acc), op, Box::new(term));
                read
            } else {
                lemma_parse_chain(acc, op, node, coins, rest)
            }
        },
    }
}

/// After an operator with which it fits the chain, the tokens of a tree
/// extend the chain to the value of the operation on the whole tree.
pub proof fn lemma_parse_chain(
    acc: ExpressionNode,
    outer: Operator,
    node: ExpressionNode,
    coins: Seq<bool>,
    rest: Seq<Token>,
) -> (read: ExpressionNode)
    requires
        acc.valid(),
        node.valid(),
        natural(node),
        chain_fits(outer, node),
    ensures
        parse_chain(acc, seq![Token::Symbol(outer)] + (rendering(node, coins).tokens + rest))
            == parse_chain(read, rest),
        read.valid(),
        read.value() == outer.combine(acc.value(), node.value()),
        read.weight() == 2 * acc.weight() * node.weight(),
    decreases node, 1nat,
{
    match node {
        ExpressionNode::Leaf(v) => {
            let n = v@.num as i64;
            lemma_read_number(n, rest);
            Rational::lemma_integer(n);
            let term = ExpressionNode::Leaf(Rational::integer(n));
            lemma_read_step(acc, outer, rendering(node, coins).tokens, term, rest);
            Rational::lemma_view_injective(v, Rational::integer(n));
            assert(term.value() == node.value());
            assert(term.valid());
            assert(term.weight() == node.weight());
            ExpressionNode::Binary(Box::new(acc), outer, Box::new(term))
        },
        ExpressionNode::Binary(left, op, right) => {
            let l = rendering(*left, coins);
            let r = operand(op, *right, l.coins);
            let tail = seq![Token::Symbol(op)] + (r.tokens + rest);
            assert(rendering(node, coins).tokens + rest =~= l.tokens + tail);
            let first = lemma_parse_chain(acc, outer, *left, coins, tail);
            let read = lemma_parse_operand(first, op, *right, l.coins, rest);
            acc.lemma_value_reduced();
            left.lemma_value_reduced();
            right.lemma_value_reduced();
            lemma_reassociate(outer, op, acc.value(), left.value(), right.value());
            assert(2 * (2 * acc.weight() * left.weight()) * right.weight() == 2 * acc.weight() * (2
                * left.weight() * right.weight())) by (nonlinear_arith);
            read
        },
    }
}

/// Reading undoes rendering with all parentheses: the text of a tree over
/// natural numbers, rendered without coins, reads back to the tree itself,
/// and evaluating the text gives what evaluating the tree gives, overflow
/// included.
pub proof fn lemma_render_exact(node: ExpressionNode)
    requires
        node.valid(),
        natural(node),
    ensures
        parse_text(render_text(node, Seq::empty())) == Some(node),
        text_outcome(render_text(node, Seq::empty())) == node.outcome(),
{
    let coins = Seq::<bool>::empty();
    let none = Seq::<char>::empty();
    lemma_rendering_tokens(node, coins, none);
    lemma_parse_rendering(node, coins, Seq::<Token>::empty());
}

/// Reading undoes rendering, up to the value: whatever the coins show, the
/// text of a tree over natural numbers is an expression whose tree has the
/// value of the tree that was rendered.
pub proof fn lemma_render_roundtrip(node: ExpressionNode, coins: Seq<bool>)
    requires
        node.valid(),
        natural(node),
    ensures
        parse_text(render_text(node, coins)) matches Some(read) && read.valid() && read.value()
            == node.value() && read.weight() == node.weight(),
{
    let none = Seq::<char>::empty();
    lemma_rendering_tokens(node, coins, none);
    lemma_parse_rendering(node, coins, Seq::<Token>::empty());
}

} // verus!
