//! The four operations of an expression.

use vstd::prelude::*;
use crate::error::EvalError;
use crate::fraction::{
    lemma_nonzero_product, lemma_normalize, lemma_normalize_bound, lemma_plus_minus,
    lemma_plus_plus, lemma_times_over, lemma_times_times, magnitude, Frac,
};
use crate::rational::{checked, view_result, Rational};

verus! {

#[derive(Clone, Copy, Debug, PartialEq, Eq, Structural)]
pub enum Operator {
    Add,
    Subtract,
    Multiply,
    Divide,
}

/// The operator that a character stands for.
pub open spec fn operator_of(c: char) -> Option<Operator> {
    if c == '+' {
        Some(Operator::Add)
    } else if c == '-' {
        Some(Operator::Subtract)
    } else if c == '*' {
        Some(Operator::Multiply)
    } else if c == '/' {
        Some(Operator::Divide)
    } else {
        None
    }
}

/// `(a outer b) inner c` equals `a outer (b inner c)` for all values.
pub open spec fn reassociates(outer: Operator, inner: Operator) -> bool {
    match outer {
        Operator::Add => inner == Operator::Add || inner == Operator::Subtract,
        Operator::Multiply => inner == Operator::Multiply || inner == Operator::Divide,
        _ => false,
    }
}

impl Operator {
    /// The character that stands for the operator.
    pub open spec fn symbol(self) -> char {
        match self {
            Operator::Add => '+',
            Operator::Subtract => '-',
            Operator::Multiply => '*',
            Operator::Divide => '/',
        }
    }

    /// The exact result on two fractions; none for a division by zero.
    pub open spec fn apply(self, a: Frac, b: Frac) -> Option<Frac> {
        match self {
            Operator::Add => Some(a.plus(b)),
            Operator::Subtract => Some(a.minus(b)),
            Operator::Multiply => Some(a.times(b)),
            Operator::Divide => if b.num == 0 {
                None
            } else {
                Some(a.over(b))
            },
        }
    }

    /// The exact result on two values that may be missing.
    pub open spec fn combine(self, x: Option<Frac>, y: Option<Frac>) -> Option<Frac> {
        match (x, y) {
            (Some(a), Some(b)) => self.apply(a, b),
            _ => None,
        }
    }

    /// The result in machine integers: the exact one if it fits.
    pub open spec fn apply_checked(self, a: Frac, b: Frac) -> Result<Frac, EvalError> {
        match self.apply(a, b) {
            None => Err(EvalError::DivisionByZero),
            Some(v) => checked(v),
        }
    }

    /// The operator's symbol as text.
    pub fn to_string(&self) -> (s: &'static str)
        ensures
            s@ == seq![self.symbol()],
    {
        proof {
            reveal_strlit("+");
            reveal_strlit("-");
            reveal_strlit("*");
            reveal_strlit("/");
        }
        match self {
            Operator::Add => "+",
            Operator::Subtract => "-",
            Operator::Multiply => "*",
            Operator::Divide => "/",
        }
    }

    /// The operator that `c` stands for, if it stands for one.
    pub fn from_char(c: char) -> (r: Option<Operator>)
        ensures
            r == operator_of(c),
    {
        if c == '+' {
            Some(Operator::Add)
        } else if c == '-' {
            Some(Operator::Subtract)
        } else if c == '*' {
            Some(Operator::Multiply)
        } else if c == '/' {
            Some(Operator::Divide)
        } else {
            None
        }
    }

    /// The operator for a draw: `0`, `1` and `2` are addition, subtraction
    /// and multiplication, every other number is division.
    pub fn from_index(i: i32) -> (r: Operator)
        ensures
            r == match i {
                0 => Operator::Add,
                1 => Operator::Subtract,
                2 => Operator::Multiply,
                _ => Operator::Divide,
            },
    {
        if i == 0 {
            Operator::Add
        } else if i == 1 {
            Operator::Subtract
        } else if i == 2 {
            Operator::Multiply
        } else {
            Operator::Divide
        }
    }

    /// Applies the operator to two values.
    pub fn compute(&self, a: &Rational, b: &Rational) -> (r: Result<Rational, EvalError>)
        ensures
            view_result(r) == self.apply_checked(a@, b@),
    {
        match self {
            Operator::Add => a.add(b),
            Operator::Subtract => a.subtract(b),
            Operator::Multiply => a.multiply(b),
            Operator::Divide => a.divide(b),
        }
    }
}

/// Where two operators reassociate, so do their results on values that may
/// be missing.
pub proof fn lemma_reassociate(
    outer: Operator,
    inner: Operator,
    a: Option<Frac>,
    b: Option<Frac>,
    c: Option<Frac>,
)
    requires
        reassociates(outer, inner),
        a matches Some(v) ==> v.den != 0,
        b matches Some(v) ==> v.den != 0,
        c matches Some(v) ==> v.den != 0,
    ensures
        inner.combine(outer.combine(a, b), c) == outer.combine(a, inner.combine(b, c)),
{
    if let (Some(x), Some(y), Some(z)) = (a, b, c) {
        match (outer, inner) {
            (Operator::Add, Operator::Add) => lemma_plus_plus(x, y, z),
            (Operator::Add, Operator::Subtract) => lemma_plus_minus(x, y, z),
            (Operator::Multiply, Operator::Multiply) => lemma_times_times(x, y, z),
            (Operator::Multiply, Operator::Divide) => {
                if z.num != 0 {
                    lemma_times_over(x, y, z);
                }
            },
            _ => {},
        }
    }
}

/// A product is bounded by the bounds of its factors.
proof fn lemma_product_within(x: int, y: int, p: nat, q: nat)
    requires
        magnitude(x) <= p,
        magnitude(y) <= q,
    ensures
        magnitude(x * y) <= p * q,
{
    assert(-(p * q) <= x * y <= p * q) by (nonlinear_arith)
        requires
            -p <= x <= p,
            -q <= y <= q,
    ;
}

/// The result of an operator is no higher than twice the product of the
/// heights of its operands.
pub proof fn lemma_apply_height(op: Operator, a: Frac, b: Frac, p: nat, q: nat)
    requires
        a.den > 0,
        b.den > 0,
        a.height() <= p,
        b.height() <= q,
    ensures
        op.apply(a, b) matches Some(v) ==> v.reduced() && v.height() <= 2 * p * q,
{
    lemma_apply_reduced(op, a, b);
    lemma_product_within(a.num, b.den, p, q);
    lemma_product_within(b.num, a.den, q, p);
    lemma_product_within(a.den, b.den, p, q);
    lemma_product_within(a.num, b.num, p, q);
    lemma_product_within(a.den, b.num, p, q);
    assert(q * p == p * q && 2 * p * q == p * q + p * q) by (nonlinear_arith);
    lemma_nonzero_product(a.den, b.den);
    match op {
        Operator::Add => lemma_normalize_bound(a.num * b.den + b.num * a.den, a.den * b.den),
        Operator::Subtract => lemma_normalize_bound(
            a.num * b.den - b.num * a.den,
            a.den * b.den,
        ),
        Operator::Multiply => lemma_normalize_bound(a.num * b.num, a.den * b.den),
        Operator::Divide => {
            if b.num != 0 {
                lemma_nonzero_product(a.den, b.num);
                lemma_normalize_bound(a.num * b.den, a.den * b.num);
            }
        },
    }
}

/// The result of an operator on fractions with positive denominators is
/// in lowest terms.
pub proof fn lemma_apply_reduced(op: Operator, a: Frac, b: Frac)
    requires
        a.den > 0,
        b.den > 0,
    ensures
        op.apply(a, b) matches Some(v) ==> v.reduced(),
{
    assert(a.den * b.den != 0) by (nonlinear_arith)
        requires
            a.den > 0,
            b.den > 0,
    ;
    lemma_normalize(a.num * b.den + b.num * a.den, a.den * b.den);
    lemma_normalize(a.num * b.den - b.num * a.den, a.den * b.den);
    lemma_normalize(a.num * b.num, a.den * b.den);
    if b.num != 0 {
        assert(a.den * b.num != 0) by (nonlinear_arith)
            requires
                a.den > 0,
                b.num != 0,
        ;
        lemma_normalize(a.num * b.den, a.den * b.num);
    }
}

} // verus!
