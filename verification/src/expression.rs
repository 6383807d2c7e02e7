//! Expression trees and their direct evaluation.

use vstd::prelude::*;
use crate::error::EvalError;
use crate::fraction::Frac;
use crate::operator::{lemma_apply_height, lemma_apply_reduced, Operator};
use crate::rational::{representable, view_result, Rational, LIMIT};

verus! {

/// A number, or an operator over two expressions.
#[derive(Debug, PartialEq, Eq)]
pub enum ExpressionNode {
    Leaf(Rational),
    Binary(Box<ExpressionNode>, Operator, Box<ExpressionNode>),
}

impl ExpressionNode {
    /// Every leaf holds a representable fraction. This holds of every tree
    /// that executable code can build.
    pub open spec fn valid(self) -> bool
        decreases self,
    {
        match self {
            ExpressionNode::Leaf(v) => representable(v@),
            ExpressionNode::Binary(left, _, right) => left.valid() && right.valid(),
        }
    }

    /// The exact value of the tree; none if it divides by zero somewhere.
    pub open spec fn value(self) -> Option<Frac>
        decreases self,
    {
        match self {
            ExpressionNode::Leaf(v) => Some(v@),
            ExpressionNode::Binary(left, op, right) => op.combine(left.value(), right.value()),
        }
    }

    /// What evaluation in machine integers gives: the left operand first,
    /// then the right one, then the operator, stopping at the first failure.
    pub open spec fn outcome(self) -> Result<Frac, EvalError>
        decreases self,
    {
        match self {
            ExpressionNode::Leaf(v) => Ok(v@),
            ExpressionNode::Binary(left, op, right) => match left.outcome() {
                Err(e) => Err(e),
                Ok(a) => match right.outcome() {
                    Err(e) => Err(e),
                    Ok(b) => op.apply_checked(a, b),
                },
            },
        }
    }

    /// A bound on every value that evaluation meets: the height of a leaf,
    /// and for an operation twice the product of the weights of its
    /// operands. It depends on the leaves and their number alone, not on
    /// how they are grouped.
    pub open spec fn weight(self) -> nat
        decreases self,
    {
        match self {
            ExpressionNode::Leaf(v) => v@.height(),
            ExpressionNode::Binary(left, _, right) => 2 * left.weight() * right.weight(),
        }
    }

    /// Evaluates the tree directly.
    pub fn evaluate(&self) -> (r: Result<Rational, EvalError>)
        ensures
            view_result(r) == self.outcome(),
        decreases self,
    {
        match self {
            ExpressionNode::Leaf(v) => Ok(*v),
            ExpressionNode::Binary(left, op, right) => {
                let a = match left.evaluate() {
                    Ok(a) => a,
                    Err(e) => {
                        return Err(e);
                    },
                };
                let b = match right.evaluate() {
                    Ok(b) => b,
                    Err(e) => {
                        return Err(e);
                    },
                };
                op.compute(&a, &b)
            },
        }
    }

    /// The exact value of a valid tree is in lowest terms.
    pub proof fn lemma_value_reduced(self)
        requires
            self.valid(),
        ensures
            self.value() matches Some(v) ==> v.reduced(),
        decreases self,
    {
        match self {
            ExpressionNode::Leaf(v) => {},
            ExpressionNode::Binary(left, op, right) => {
                left.lemma_value_reduced();
                right.lemma_value_reduced();
                if let (Some(a), Some(b)) = (left.value(), right.value()) {
                    lemma_apply_reduced(op, a, b);
                }
            },
        }
    }

    /// The weight of a valid tree is at least one, and no less than the
    /// weight of either operand.
    pub proof fn lemma_weight_grows(self)
        requires
            self.valid(),
        ensures
            self.weight() >= 1,
            self matches ExpressionNode::Binary(left, _, right) ==> left.weight()
                <= self.weight() && right.weight() <= self.weight(),
        decreases self,
    {
        match self {
            ExpressionNode::Leaf(v) => {},
            ExpressionNode::Binary(left, op, right) => {
                left.lemma_weight_grows();
                right.lemma_weight_grows();
                let p = left.weight();
                let q = right.weight();
                assert(2 * p * q >= p && 2 * p * q >= q && 2 * p * q >= 1) by (nonlinear_arith)
                    requires
                        p >= 1,
                        q >= 1,
                ;
            },
        }
    }

    /// A tree whose weight is within the limit evaluates without overflow:
    /// machine evaluation gives its exact value, no higher than the weight,
    /// or finds a division by zero.
    pub proof fn lemma_weight_outcome(self)
        requires
            self.valid(),
            self.weight() <= LIMIT,
        ensures
            match self.outcome() {
                Ok(v) => representable(v) && v.height() <= self.weight(),
                Err(e) => e == EvalError::DivisionByZero,
            },
        decreases self,
    {
        match self {
            ExpressionNode::Leaf(v) => {},
            ExpressionNode::Binary(left, op, right) => {
                self.lemma_weight_grows();
                left.lemma_weight_outcome();
                right.lemma_weight_outcome();
                if let (Ok(a), Ok(b)) = (left.outcome(), right.outcome()) {
                    lemma_apply_height(op, a, b, left.weight(), right.weight());
                }
            },
        }
    }

    /// A value that machine evaluation reaches is the exact value, and a
    /// division by zero that it reports is one of the exact evaluation.
    pub proof fn lemma_outcome_value(self)
        ensures
            self.outcome() matches Ok(v) ==> self.value() == Some(v),
            self.outcome() == Err::<Frac, EvalError>(EvalError::DivisionByZero)
                ==> self.value() is None,
            !(self.outcome() == Err::<Frac, EvalError>(EvalError::ParseError)),
            !(self.outcome() == Err::<Frac, EvalError>(EvalError::MalformedFraction)),
        decreases self,
    {
        match self {
            ExpressionNode::Leaf(v) => {},
            ExpressionNode::Binary(left, op, right) => {
                left.lemma_outcome_value();
                right.lemma_outcome_value();
            },
        }
    }
}

} // verus!
