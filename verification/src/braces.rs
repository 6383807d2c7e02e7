//! Parentheses round the first operation of a flat text leave its reading
//! as it was.

use vstd::prelude::*;
use crate::decimal::{all_digits, digits, is_digit, lemma_digits_shape};
use crate::expression::ExpressionNode;
use crate::fraction::Frac;
use crate::generator::right_comb;
use crate::operator::{operator_of, Operator};
use crate::parser::{parse_chain, parse_expr, parse_term, parse_text};
use crate::rational::Rational;
use crate::render::{
    braced, chain_fits, next_coin, operand, operator_position, render_text, rendering,
};
use crate::roundtrip::{
    lemma_canonical_natural, lemma_operand_tokens, lemma_render_roundtrip, lemma_rendering_tokens,
    lemma_read_number, lemma_read_step, lemma_tokens_number, lemma_tokens_sign, natural,
};
use crate::token::{lemma_tokens_close, lemma_tokens_open, tokens, Token};

verus! {

/// The text after the coin for outer parentheses: the braced text if the
/// coin shows heads and the text does not end with a closing parenthesis,
/// else the text as it is.
pub open spec fn decorated(text: Seq<char>, heads: bool) -> Seq<char> {
    if heads && !(text.len() > 0 && text.last() == ')') {
        braced(text)
    } else {
        text
    }
}

/// An index with no operator character before it, that holds one or is the
/// end, is the operator position.
pub proof fn lemma_operator_position_at(s: Seq<char>, from: int, p: int)
    requires
        0 <= from <= p <= s.len(),
        forall|i: int| from <= i < p ==> operator_of(s[i]) is None,
        p < s.len() ==> operator_of(s[p]) is Some,
    ensures
        operator_position(s, from) == p,
    decreases p - from,
{
    if from < p {
        lemma_operator_position_at(s, from + 1, p);
    }
}

/// A term of two numbers in parentheses is read as their operation.
proof fn lemma_read_group(a: i64, op: Operator, b: i64, rest: Seq<Token>)
    ensures
        parse_expr(
            seq![Token::Number(a)] + (seq![Token::Symbol(op)] + (seq![Token::Number(b)] + rest)),
        ) == parse_chain(
            ExpressionNode::Binary(
                Box::new(ExpressionNode::Leaf(Rational::integer(a))),
                op,
                Box::new(ExpressionNode::Leaf(Rational::integer(b))),
            ),
            rest,
        ),
{
    let after_b = seq![Token::Number(b)] + rest;
    let after_a = seq![Token::Symbol(op)] + after_b;
    lemma_read_number(a, after_a);
    lemma_read_number(b, rest);
    lemma_read_step(
        ExpressionNode::Leaf(Rational::integer(a)),
        op,
        seq![Token::Number(b)],
        ExpressionNode::Leaf(Rational::integer(b)),
        rest,
    );
}

/// The tokens of a flat text and those of the same text with its first
/// operation in parentheses are read alike.
proof fn lemma_group_tokens(a: i64, op: Operator, b: i64, rest: Seq<Token>)
    ensures
        parse_expr(
            seq![Token::Open] + (seq![Token::Number(a)] + (seq![Token::Symbol(op)] + (seq![
                Token::Number(b),
            ] + (seq![Token::Close] + rest)))),
        ) == parse_expr(
            seq![Token::Number(a)] + (seq![Token::Symbol(op)] + (seq![Token::Number(b)] + rest)),
        ),
{
    let close = seq![Token::Close] + rest;
    let inner = seq![Token::Number(a)] + (seq![Token::Symbol(op)] + (seq![Token::Number(b)]
        + close));
    let ts = seq![Token::Open] + inner;
    let group = ExpressionNode::Binary(
        Box::new(ExpressionNode::Leaf(Rational::integer(a))),
        op,
        Box::new(ExpressionNode::Leaf(Rational::integer(b))),
    );
    lemma_read_group(a, op, b, close);
    lemma_read_group(a, op, b, rest);
    assert(ts[0] == Token::Open);
    assert(ts.skip(1) =~= inner);
    assert(close[0] == Token::Close);
    assert(close.skip(1) =~= rest);
    assert(parse_chain(group, close) == Some((group, close)));
    assert(parse_term(ts) == Some((group, rest)));
}

/// A text of numerals and spaces round one operator stays as it is.
proof fn lemma_braced_single(d1: Seq<char>, op: Operator, d2: Seq<char>)
    requires
        all_digits(d1),
        all_digits(d2),
    ensures
        braced(d1 + seq![' ', op.symbol(), ' '] + d2) == d1 + seq![' ', op.symbol(), ' '] + d2,
{
    let s = d1 + seq![' ', op.symbol(), ' '] + d2;
    let k1 = d1.len() as int;
    assert forall|i: int| 0 <= i < k1 implies operator_of(s[i]) is None by {
        assert(is_digit(d1[i]));
        assert(s[i] == d1[i]);
    }
    assert(s[k1] == ' ');
    assert(s[k1 + 1] == op.symbol());
    assert(s[k1 + 2] == ' ');
    assert(operator_of(op.symbol()) == Some(op));
    lemma_operator_position_at(s, 0, k1 + 1);
    assert forall|i: int| k1 + 2 <= i < s.len() implies operator_of(s[i]) is None by {
        if i > k1 + 2 {
            assert(is_digit(d2[i - k1 - 3]));
            assert(s[i] == d2[i - k1 - 3]);
        }
    }
    lemma_operator_position_at(s, k1 + 2, s.len() as int);
}

/// In a text that starts with two numerals round an operator and goes on
/// with a second operator, the parentheses close behind the second
/// numeral.
proof fn lemma_braced_flat(
    d1: Seq<char>,
    op: Operator,
    d2: Seq<char>,
    inner_op: Operator,
    t: Seq<char>,
)
    requires
        all_digits(d1),
        all_digits(d2),
    ensures
        braced(
            d1 + seq![' ', op.symbol(), ' '] + (d2 + seq![' ', inner_op.symbol(), ' '] + t),
        ) == seq!['('] + (d1 + (seq![' ', op.symbol(), ' '] + (d2 + (seq![')'] + (seq![
            ' ',
            inner_op.symbol(),
            ' ',
        ] + t))))),
{
    let sign = seq![' ', op.symbol(), ' '];
    let inner_sign = seq![' ', inner_op.symbol(), ' '];
    let s = d1 + sign + (d2 + inner_sign + t);
    let k1 = d1.len() as int;
    let k2 = d2.len() as int;
    assert forall|i: int| 0 <= i < k1 implies operator_of(s[i]) is None by {
        assert(is_digit(d1[i]));
        assert(s[i] == d1[i]);
    }
    assert(s[k1] == ' ');
    assert(s[k1 + 1] == op.symbol());
    assert(s[k1 + 2] == ' ');
    assert(operator_of(op.symbol()) == Some(op));
    lemma_operator_position_at(s, 0, k1 + 1);
    assert forall|i: int| k1 + 2 <= i < k1 + k2 + 4 implies operator_of(s[i]) is None by {
        if k1 + 3 <= i < k1 + 3 + k2 {
            assert(is_digit(d2[i - k1 - 3]));
            assert(s[i] == d2[i - k1 - 3]);
        } else if i == k1 + 3 + k2 {
            assert(s[i] == ' ');
        }
    }
    assert(s[k1 + k2 + 4] == inner_op.symbol());
    assert(operator_of(inner_op.symbol()) == Some(inner_op));
    lemma_operator_position_at(s, k1 + 2, k1 + k2 + 4);
    let cut = k1 + k2 + 3;
    assert(s.subrange(0, cut) =~= d1 + sign + d2);
    assert(s.subrange(cut, s.len() as int) =~= inner_sign + t);
    assert(seq!['('] + (d1 + sign + d2) + seq![')'] + (inner_sign + t) =~= seq!['('] + (d1 + (sign
        + (d2 + (seq![')'] + (inner_sign + t))))));
}

/// The tokens of a braced text: those of the flat text with parentheses
/// round the first operation.
proof fn lemma_braced_tokens(
    a: i64,
    op: Operator,
    b: i64,
    inner_op: Operator,
    t: Seq<char>,
    tt: Seq<Token>,
)
    requires
        a >= 0,
        b >= 0,
        tokens(t) == Some(tt),
    ensures
        tokens(
            seq!['('] + (digits(a as nat) + (seq![' ', op.symbol(), ' '] + (digits(b as nat) + (seq![
                ')',
            ] + (seq![' ', inner_op.symbol(), ' '] + t))))),
        ) == Some(
            seq![Token::Open] + (seq![Token::Number(a)] + (seq![Token::Symbol(op)] + (seq![
                Token::Number(b),
            ] + (seq![Token::Close] + (seq![Token::Symbol(inner_op)] + tt))))),
        ),
{
    let tail = seq![' ', inner_op.symbol(), ' '] + t;
    let close = seq![')'] + tail;
    let after_sign = digits(b as nat) + close;
    let after_first = seq![' ', op.symbol(), ' '] + after_sign;
    lemma_tokens_open(digits(a as nat) + after_first);
    lemma_tokens_number(a, after_first);
    lemma_tokens_sign(op, after_sign);
    lemma_tokens_number(b, close);
    lemma_tokens_close(tail);
    lemma_tokens_sign(inner_op, t);
}

/// In the text of a tree that grows to the right only, and that does not
/// end with a closing parenthesis, outer parentheses change nothing of what
/// is read.
pub proof fn lemma_braced_reads_alike(node: ExpressionNode, coins: Seq<bool>)
    requires
        node.valid(),
        natural(node),
        right_comb(node),
        render_text(node, coins).len() > 0 ==> render_text(node, coins).last() != ')',
    ensures
        parse_text(braced(render_text(node, coins))) == parse_text(render_text(node, coins)),
{
    let s = render_text(node, coins);
    let none = Seq::<char>::empty();
    match node {
        ExpressionNode::Leaf(v) => {
            let n = v@.num as nat;
            assert(v@ == Frac::integer(n as int));
            lemma_canonical_natural(n);
            lemma_digits_shape(n);
            assert forall|i: int| 0 <= i < s.len() implies operator_of(s[i]) is None by {
                assert(is_digit(s[i]));
            }
            lemma_operator_position_at(s, 0, s.len() as int);
        },
        ExpressionNode::Binary(left, op, right) => {
            assert(left.valid() && natural(*left) && right.valid() && natural(*right) && right_comb(
                *right,
            ));
            let v = left->Leaf_0;
            let a = v@.num as i64;
            assert(v@ == Frac::integer(a as int));
            lemma_canonical_natural(a as nat);
            lemma_digits_shape(a as nat);
            let d1 = digits(a as nat);
            let sign = seq![' ', op.symbol(), ' '];
            let o = operand(op, *right, coins);
            assert(rendering(*left, coins).coins == coins);
            assert(s == d1 + sign + o.text);
            match *right {
                ExpressionNode::Leaf(w) => {
                    let b = w@.num as nat;
                    assert(w@ == Frac::integer(b as int));
                    lemma_canonical_natural(b);
                    lemma_digits_shape(b);
                    assert(o.text == digits(b));
                    lemma_braced_single(d1, op, digits(b));
                },
                ExpressionNode::Binary(second, inner_op, third) => {
                    let r = rendering(*right, coins);
                    if next_coin(r.coins) || !chain_fits(op, *right) {
                        assert(o.text == seq!['('] + r.text + seq![')']);
                        assert(s.last() == ')');
                    } else {
                        assert(second.valid() && natural(*second) && third.valid() && natural(
                            *third,
                        ));
                        let w = second->Leaf_0;
                        let b = w@.num as i64;
                        assert(w@ == Frac::integer(b as int));
                        lemma_canonical_natural(b as nat);
                        lemma_digits_shape(b as nat);
                        let d2 = digits(b as nat);
                        let inner_sign = seq![' ', inner_op.symbol(), ' '];
                        let t = operand(inner_op, *third, coins);
                        assert(rendering(*second, coins).coins == coins);
                        assert(o.text == r.text);
                        assert(r.text == d2 + inner_sign + t.text);
                        lemma_braced_flat(d1, op, d2, inner_op, t.text);
                        lemma_operand_tokens(inner_op, *third, coins, none);
                        assert(t.text + none =~= t.text);
                        assert(tokens(none) == Some(Seq::<Token>::empty()));
                        assert(t.tokens + Seq::<Token>::empty() =~= t.tokens);
                        lemma_braced_tokens(a, op, b, inner_op, t.text, t.tokens);
                        lemma_rendering_tokens(node, coins, none);
                        assert(s + none =~= s);
                        let rest = seq![Token::Symbol(inner_op)] + t.tokens;
                        let flat = seq![Token::Number(a)] + (seq![Token::Symbol(op)] + (seq![
                            Token::Number(b),
                        ] + rest));
                        assert(rendering(*right, coins).tokens == seq![Token::Number(b)] + seq![
                            Token::Symbol(inner_op),
                        ] + t.tokens);
                        assert(rendering(node, coins).tokens + Seq::<Token>::empty() =~= flat);
                        lemma_group_tokens(a, op, b, rest);
                    }
                },
            }
        },
    }
}

/// Reading undoes the whole of rendering: the text of a tree that grows to
/// the right only, over natural numbers, with or without the outer
/// parentheses, is an expression whose tree has the value of the tree that
/// was rendered.
pub proof fn lemma_decorated_roundtrip(node: ExpressionNode, coins: Seq<bool>, heads: bool)
    requires
        node.valid(),
        natural(node),
        right_comb(node),
    ensures
        parse_text(decorated(render_text(node, coins), heads)) matches Some(read) && read.valid()
            && read.value() == node.value() && read.weight() == node.weight(),
{
    lemma_render_roundtrip(node, coins);
    let s = render_text(node, coins);
    if heads && !(s.len() > 0 && s.last() == ')') {
        lemma_braced_reads_alike(node, coins);
    }
}

} // verus!
