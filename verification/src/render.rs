//! Expression trees as text. A right operand that is itself an operation
//! stands in parentheses wherever reading from left to right would
//! otherwise change the value; elsewhere a coin decides.

use vstd::prelude::*;
use crate::canonical::canonical_text;
use crate::expression::ExpressionNode;
use crate::operator::{operator_of, reassociates, Operator};
use crate::text::chars_of;
use crate::token::Token;

verus! {

/// The text of `node`, written after `outer` without parentheses, reads to
/// the same value: every operator on the left spine of `node` reassociates
/// with `outer`.
pub open spec fn chain_fits(outer: Operator, node: ExpressionNode) -> bool
    decreases node,
{
    match node {
        ExpressionNode::Leaf(_) => true,
        ExpressionNode::Binary(left, op, _) => reassociates(outer, op) && chain_fits(outer, *left),
    }
}

/// A rendering in progress: the characters, their tokens, and the coins
/// that are left.
pub struct Rendering {
    pub text: Seq<char>,
    pub tokens: Seq<Token>,
    pub coins: Seq<bool>,
}

/// The next coin, where a missing coin counts as heads.
pub open spec fn next_coin(coins: Seq<bool>) -> bool {
    coins.len() == 0 || coins[0]
}

/// The coins after the next one.
pub open spec fn later_coins(coins: Seq<bool>) -> Seq<bool> {
    if coins.len() == 0 {
        coins
    } else {
        coins.skip(1)
    }
}

/// The rendering of `node` under the coins given: the left operand, the
/// operator between two spaces, the right operand.
pub open spec fn rendering(node: ExpressionNode, coins: Seq<bool>) -> Rendering
    decreases node, 0nat,
{
    match node {
        ExpressionNode::Leaf(v) => Rendering {
            text: canonical_text(v@),
            tokens: seq![Token::Number(v@.num as i64)],
            coins,
        },
        ExpressionNode::Binary(left, op, right) => {
            let l = rendering(*left, coins);
            let r = operand(op, *right, l.coins);
            Rendering {
                text: l.text + seq![' ', op.symbol(), ' '] + r.text,
                tokens: l.tokens + seq![Token::Symbol(op)] + r.tokens,
                coins: r.coins,
            }
        },
    }
}

/// The rendering of `node` as the right operand of `op`. An operand that
/// is an operation takes the coin that follows those of its own text, and
/// stands in parentheses if the coin shows heads or if its text would not
/// fit the chain.
pub open spec fn operand(op: Operator, node: ExpressionNode, coins: Seq<bool>) -> Rendering
    decreases node, 1nat,
{
    let r = rendering(node, coins);
    if node is Binary {
        if next_coin(r.coins) || !chain_fits(op, node) {
            Rendering {
                text: seq!['('] + r.text + seq![')'],
                tokens: seq![Token::Open] + r.tokens + seq![Token::Close],
                coins: later_coins(r.coins),
            }
        } else {
            Rendering { text: r.text, tokens: r.tokens, coins: later_coins(r.coins) }
        }
    } else {
        r
    }
}

/// The text of `node` under the coins given.
pub open spec fn render_text(node: ExpressionNode, coins: Seq<bool>) -> Seq<char> {
    rendering(node, coins).text
}

/// The first index at or after `from` at which `s` holds an operator
/// character, or the length of `s` if there is none.
pub open spec fn operator_position(s: Seq<char>, from: int) -> int
    decreases s.len() - from,
{
    if from < 0 || from >= s.len() {
        s.len() as int
    } else if operator_of(s[from]) is Some {
        from
    } else {
        operator_position(s, from + 1)
    }
}

/// The text with its first operation in parentheses: they open at the
/// start and close one character before the second operator character.
/// A text with fewer than two operator characters stays as it is.
pub open spec fn braced(s: Seq<char>) -> Seq<char> {
    let first = operator_position(s, 0);
    let second = operator_position(s, first + 1);
    if second < s.len() {
        seq!['('] + s.subrange(0, second - 1) + seq![')'] + s.subrange(second - 1, s.len() as int)
    } else {
        s
    }
}

/// Whether the text of `node` may follow `outer` without parentheses.
pub fn fits_chain(outer: Operator, node: &ExpressionNode) -> (r: bool)
    ensures
        r == chain_fits(outer, *node),
    decreases node,
{
    match node {
        ExpressionNode::Leaf(_) => true,
        ExpressionNode::Binary(left, op, _) => {
            let pair = match outer {
                Operator::Add => *op == Operator::Add || *op == Operator::Subtract,
                Operator::Multiply => *op == Operator::Multiply || *op == Operator::Divide,
                _ => false,
            };
            pair && fits_chain(outer, left)
        },
    }
}

/// Appends the text of `node`, taking coins from `coins[from..]`, and
/// returns the index of the first coin that is left.
fn render_into(
    node: &ExpressionNode,
    coins: &Vec<bool>,
    from: usize,
    out: &mut String,
) -> (next: usize)
    requires
        from <= coins.len(),
    ensures
        from <= next <= coins.len(),
        final(out)@ == old(out)@ + rendering(*node, coins@.skip(from as int)).text,
        coins@.skip(next as int) == rendering(*node, coins@.skip(from as int)).coins,
    decreases node,
{
    match node {
        ExpressionNode::Leaf(v) => {
            let text = v.to_canonical_string();
            out.append(text.as_str());
            from
        },
        ExpressionNode::Binary(left, op, right) => {
            let ghost start = out@;
            let ghost l = rendering(**left, coins@.skip(from as int));
            let ghost r = rendering(**right, l.coins);
            let ghost sign = seq![' ', op.symbol(), ' '];
            let after_left = render_into(left, coins, from, out);
            out.push(' ');
            out.append(op.to_string());
            out.push(' ');
            let binary = match **right {
                ExpressionNode::Binary(_, _, _) => true,
                ExpressionNode::Leaf(_) => false,
            };
            if binary {
                // The coin of this operand follows those of its own text.
                let mut inner = String::new();
                let after_right = render_into(right, coins, after_left, &mut inner);
                let heads = after_right >= coins.len() || coins[after_right];
                let next = if after_right < coins.len() { after_right + 1 } else { after_right };
                if heads || !fits_chain(*op, right) {
                    out.push('(');
                    out.append(inner.as_str());
                    out.push(')');
                    proof {
                        assert(operand(*op, **right, l.coins).text == seq!['('] + r.text
                            + seq![')']);
                        assert(out@ =~= start + (l.text + sign + (seq!['('] + r.text + seq![')'])));
                    }
                } else {
                    out.append(inner.as_str());
                    proof {
                        assert(operand(*op, **right, l.coins).text == r.text);
                    }
                }
                next
            } else {
                let after_right = render_into(right, coins, after_left, out);
                proof {
                    assert(operand(*op, **right, l.coins) == r);
                }
                after_right
            }
        },
    }
}

/// The text of `node` under the coins given, one coin for each right
/// operand that is an operation, in the order in which the operands end in
/// the text. A coin that shows heads asks for parentheses; where coins run
/// out, parentheses are written.
pub fn render_with(node: &ExpressionNode, coins: &Vec<bool>) -> (s: String)
    ensures
        s@ == render_text(*node, coins@),
{
    let mut out = String::new();
    proof {
        assert(coins@.skip(0) =~= coins@);
    }
    let _ = render_into(node, coins, 0, &mut out);
    out
}

/// The first index at or after `from` that holds an operator character.
fn find_operator(chars: &Vec<char>, from: usize) -> (p: usize)
    requires
        from <= chars.len(),
    ensures
        p == operator_position(chars@, from as int),
        from <= p <= chars.len(),
{
    let mut i: usize = from;
    while i < chars.len() && Operator::from_char(chars[i]).is_none()
        invariant
            from <= i <= chars.len(),
            operator_position(chars@, from as int) == operator_position(chars@, i as int),
        decreases chars.len() - i,
    {
        i = i + 1;
    }
    i
}

/// Puts the first operation of an expression text in parentheses.
pub fn add_braces(exp: &str) -> (s: String)
    ensures
        s@ == braced(exp@),
{
    let chars = chars_of(exp);
    let n: usize = chars.len();
    let first = find_operator(&chars, 0);
    let second = if first < n { find_operator(&chars, first + 1) } else { n };
    if second >= n {
        return exp.to_owned();
    }
    let cut: usize = second - 1;
    let mut out = String::new();
    out.push('(');
    let mut i: usize = 0;
    while i < cut
        invariant
            i <= cut < n == chars.len(),
            out@ == seq!['('] + chars@.subrange(0, i as int),
        decreases cut - i,
    {
        out.push(chars[i]);
        i = i + 1;
    }
    out.push(')');
    while i < n
        invariant
            cut <= i <= n == chars.len(),
            out@ == seq!['('] + chars@.subrange(0, cut as int) + seq![')'] + chars@.subrange(
                cut as int,
                i as int,
            ),
        decreases n - i,
    {
        out.push(chars[i]);
        i = i + 1;
    }
    out
}

} // verus!
