//! The grammar of expression text and its evaluation:
//! `expr := term (op term)*`, `term := number | '(' expr ')'`, read from
//! left to right with every operator binding alike.

use vstd::prelude::*;
use crate::canonical::canonical_text;
use crate::error::EvalError;
use crate::expression::ExpressionNode;
use crate::fraction::Frac;
use crate::operator::Operator;
use crate::rational::{view_result, Rational};
use crate::token::{tokenize, tokens, Token};

verus! {

/// A term at the start of `ts`, and the tokens that follow it.
pub open spec fn parse_term(ts: Seq<Token>) -> Option<(ExpressionNode, Seq<Token>)>
    decreases ts.len(), 0nat,
{
    if ts.len() == 0 {
        None
    } else {
        match ts[0] {
            Token::Number(n) => Some((ExpressionNode::Leaf(Rational::integer(n)), ts.skip(1))),
            Token::Open => match parse_expr(ts.skip(1)) {
                Some((inner, rest)) => if rest.len() > 0 && rest[0] == Token::Close {
                    Some((inner, rest.skip(1)))
                } else {
                    None
                },
                None => None,
            },
            _ => None,
        }
    }
}

/// The longest expression at the start of `ts`, and the tokens that follow
/// it.
pub open spec fn parse_expr(ts: Seq<Token>) -> Option<(ExpressionNode, Seq<Token>)>
    decreases ts.len(), 2nat,
{
    match parse_term(ts) {
        // A term holds at least one token, so that `rest` is shorter.
        Some((first, rest)) => if rest.len() < ts.len() {
            parse_chain(first, rest)
        } else {
            None
        },
        None => None,
    }
}

/// Extends the expression `acc` by the operators and terms at the start of
/// `ts`, each operator taking all that was read before it as its left
/// operand.
pub open spec fn parse_chain(
    acc: ExpressionNode,
    ts: Seq<Token>,
) -> Option<(ExpressionNode, Seq<Token>)>
    decreases ts.len(), 1nat,
{
    if ts.len() > 0 && ts[0] is Symbol {
        match parse_term(ts.skip(1)) {
            Some((term, rest)) => if rest.len() < ts.len() {
                parse_chain(
                    ExpressionNode::Binary(Box::new(acc), ts[0]->Symbol_0, Box::new(term)),
                    rest,
                )
            } else {
                None
            },
            None => None,
        }
    } else {
        Some((acc, ts))
    }
}

/// The tree of a token sequence that is one expression from end to end.
pub open spec fn parse_tokens(ts: Seq<Token>) -> Option<ExpressionNode> {
    match parse_expr(ts) {
        Some((tree, rest)) => if rest.len() == 0 {
            Some(tree)
        } else {
            None
        },
        None => None,
    }
}

/// The tree of an expression text.
pub open spec fn parse_text(s: Seq<char>) -> Option<ExpressionNode> {
    match tokens(s) {
        Some(ts) => parse_tokens(ts),
        None => None,
    }
}

/// What evaluating an expression text gives.
pub open spec fn text_outcome(s: Seq<char>) -> Result<Frac, EvalError> {
    match parse_text(s) {
        Some(tree) => tree.outcome(),
        None => Err(EvalError::ParseError),
    }
}

/// What is left after a term is a proper suffix of the tokens.
pub proof fn lemma_term_consumes(ts: Seq<Token>)
    ensures
        parse_term(ts) matches Some((_, rest)) ==> rest.len() < ts.len() && rest == ts.skip(
            ts.len() - rest.len(),
        ),
        parse_expr(ts) matches Some((_, rest)) ==> rest.len() < ts.len() && rest == ts.skip(
            ts.len() - rest.len(),
        ),
    decreases ts.len(), 2nat,
{
    if ts.len() > 0 {
        match ts[0] {
            Token::Number(n) => {},
            Token::Open => {
                let inner = ts.skip(1);
                lemma_term_consumes(inner);
            },
            _ => {},
        }
        if let Some((first, rest)) = parse_term(ts) {
            lemma_chain_consumes(first, rest);
        }
    }
}

/// What is left after a chain is a suffix of the tokens.
pub proof fn lemma_chain_consumes(acc: ExpressionNode, ts: Seq<Token>)
    ensures
        parse_chain(acc, ts) matches Some((_, rest)) ==> rest.len() <= ts.len() && rest
            == ts.skip(ts.len() - rest.len()),
    decreases ts.len(), 1nat,
{
    if ts.len() > 0 && ts[0] is Symbol {
        let after = ts.skip(1);
        lemma_term_consumes(after);
        if let Some((term, rest)) = parse_term(after) {
            let next = ExpressionNode::Binary(Box::new(acc), ts[0]->Symbol_0, Box::new(term));
            lemma_chain_consumes(next, rest);
        }
    }
}

/// Reads a term that starts at `pos`.
fn read_term(ts: &Vec<Token>, pos: usize) -> (r: Option<(ExpressionNode, usize)>)
    requires
        pos <= ts.len(),
    ensures
        match r {
            Some((tree, next)) => pos < next <= ts.len() && parse_term(ts@.skip(pos as int))
                == Some((tree, ts@.skip(next as int))),
            None => parse_term(ts@.skip(pos as int)) is None,
        },
    decreases ts.len() - pos, 0nat,
{
    if pos >= ts.len() {
        return None;
    }
    let ghost here = ts@.skip(pos as int);
    proof {
        assert(here.skip(1) =~= ts@.skip(pos + 1));
    }
    match ts[pos] {
        Token::Number(n) => Some((ExpressionNode::Leaf(Rational::from_integer(n)), pos + 1)),
        Token::Open => match read_expr(ts, pos + 1) {
            Some((inner, next)) => {
                if next < ts.len() && ts[next] == Token::Close {
                    Some((inner, next + 1))
                } else {
                    None
                }
            },
            None => None,
        },
        _ => None,
    }
}

/// Reads the longest expression that starts at `pos`.
fn read_expr(ts: &Vec<Token>, pos: usize) -> (r: Option<(ExpressionNode, usize)>)
    requires
        pos <= ts.len(),
    ensures
        match r {
            Some((tree, next)) => pos < next <= ts.len() && parse_expr(ts@.skip(pos as int))
                == Some((tree, ts@.skip(next as int))),
            None => parse_expr(ts@.skip(pos as int)) is None,
        },
    decreases ts.len() - pos, 1nat,
{
    let (first, after) = match read_term(ts, pos) {
        Some(found) => found,
        None => {
            return None;
        },
    };
    let mut acc: ExpressionNode = first;
    let mut next: usize = after;
    loop
        invariant
            pos < next <= ts.len(),
            parse_expr(ts@.skip(pos as int)) == parse_chain(acc, ts@.skip(next as int)),
        decreases ts.len() - next,
    {
        let ghost here = ts@.skip(next as int);
        proof {
            if next < ts.len() {
                assert(here.skip(1) =~= ts@.skip(next + 1));
            }
        }
        if next >= ts.len() {
            return Some((acc, next));
        }
        match ts[next] {
            Token::Symbol(op) => match read_term(ts, next + 1) {
                Some((term, end)) => {
                    acc = ExpressionNode::Binary(Box::new(acc), op, Box::new(term));
                    next = end;
                },
                None => {
                    return None;
                },
            },
            _ => {
                return Some((acc, next));
            },
        }
    }
}

/// Reads expression text into its tree. Text outside the grammar is a
/// `ParseError`.
pub fn parse_expression(text: &str) -> (r: Result<ExpressionNode, EvalError>)
    ensures
        match r {
            Ok(tree) => parse_text(text@) == Some(tree),
            Err(e) => e == EvalError::ParseError && parse_text(text@) is None,
        },
{
    let ts = match tokenize(text) {
        Some(ts) => ts,
        None => {
            return Err(EvalError::ParseError);
        },
    };
    proof {
        assert(ts@.skip(0) =~= ts@);
    }
    match read_expr(&ts, 0) {
        Some((tree, next)) => if next == ts.len() {
            Ok(tree)
        } else {
            Err(EvalError::ParseError)
        },
        None => Err(EvalError::ParseError),
    }
}

/// Evaluates expression text: a `ParseError` for text outside the grammar,
/// else what evaluating its tree gives.
pub fn evaluate(text: &str) -> (r: Result<Rational, EvalError>)
    ensures
        view_result(r) == text_outcome(text@),
{
    match parse_expression(text) {
        Ok(tree) => tree.evaluate(),
        Err(e) => Err(e),
    }
}

/// The canonical answer to an expression text.
pub fn calculate_fraction(exp: &str) -> (r: Result<String, EvalError>)
    ensures
        match r {
            Ok(answer) => text_outcome(exp@) matches Ok(v) && answer@ == canonical_text(v),
            Err(e) => text_outcome(exp@) == Err::<Frac, EvalError>(e),
        },
{
    match evaluate(exp) {
        Ok(value) => Ok(value.to_canonical_string()),
        Err(e) => Err(e),
    }
}

/// The canonical answer to one operation on two whole numbers.
pub fn calculate(num1: i64, num2: i64, op: Operator) -> (r: Result<String, EvalError>)
    ensures
        match r {
            Ok(answer) => op.apply_checked(Frac::integer(num1 as int), Frac::integer(num2 as int))
                matches Ok(v) && answer@ == canonical_text(v),
            Err(e) => op.apply_checked(Frac::integer(num1 as int), Frac::integer(num2 as int))
                == Err::<Frac, EvalError>(e),
        },
{
    let a = Rational::from_integer(num1);
    let b = Rational::from_integer(num2);
    match op.compute(&a, &b) {
        Ok(value) => Ok(value.to_canonical_string()),
        Err(e) => Err(e),
    }
}

} // verus!
