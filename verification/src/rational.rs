//! Exact fractions in machine integers: always in lowest terms, with every
//! operation reporting a result that does not fit.

use vstd::prelude::*;
use crate::divisor::{gcd, lemma_gcd_one, lemma_gcd_quotients_coprime};
use crate::error::EvalError;
use crate::fraction::{lemma_nonzero_product, lemma_normalize, magnitude, normalize, Frac};

verus! {

/// The largest denominator and numerator that a `Rational` holds.
pub const LIMIT: i64 = 0x7fff_ffff_ffff_ffff;

/// The fractions that a `Rational` can hold: lowest terms, numerator and
/// denominator within the 64-bit signed range.
pub open spec fn representable(f: Frac) -> bool {
    &&& f.reduced()
    &&& -LIMIT - 1 <= f.num <= LIMIT
    &&& f.den <= LIMIT
}

/// What a checked operation returns for the exact result `f`.
pub open spec fn checked(f: Frac) -> Result<Frac, EvalError> {
    if representable(f) {
        Ok(f)
    } else {
        Err(EvalError::Overflow)
    }
}

/// The mathematical content of a result.
pub open spec fn view_result(r: Result<Rational, EvalError>) -> Result<Frac, EvalError> {
    match r {
        Ok(v) => Ok(v@),
        Err(e) => Err(e),
    }
}

/// An exact fraction in lowest terms with a positive denominator.
#[derive(Clone, Copy, Debug, PartialEq, Eq, Structural)]
pub struct Rational {
    num: i64,
    den: i64,
}

impl View for Rational {
    type V = Frac;

    closed spec fn view(&self) -> Frac {
        Frac { num: self.num as int, den: self.den as int }
    }
}

/// Reduces `n / d` and checks that the outcome fits.
pub(crate) fn reduce(n: i128, d: i128) -> (r: Result<Rational, EvalError>)
    requires
        d != 0,
        n > i128::MIN,
        d > i128::MIN,
    ensures
        view_result(r) == checked(normalize(n as int, d as int)),
{
    let an: u128 = if n < 0 { (-n) as u128 } else { n as u128 };
    let ad: u128 = if d < 0 { (-d) as u128 } else { d as u128 };
    let g: u128 = gcd(an, ad);
    proof {
        lemma_gcd_quotients_coprime(an as nat, ad as nat);
        lemma_normalize(n as int, d as int);
    }
    let m: u128 = an / g;
    let e: u128 = ad / g;
    let negative: bool = (n < 0) != (d < 0);
    if e > 0x7fff_ffff_ffff_ffffu128 {
        return Err(EvalError::Overflow);
    }
    if negative {
        if m > 0x8000_0000_0000_0000u128 {
            return Err(EvalError::Overflow);
        }
        let num: i128 = -(m as i128);
        Ok(Rational { num: num as i64, den: e as i64 })
    } else {
        if m > 0x7fff_ffff_ffff_ffffu128 {
            return Err(EvalError::Overflow);
        }
        Ok(Rational { num: m as i64, den: e as i64 })
    }
}

proof fn lemma_product_bound(a: int, b: int)
    requires
        -0x8000_0000_0000_0000 <= a <= 0x8000_0000_0000_0000,
        -0x8000_0000_0000_0000 <= b <= 0x8000_0000_0000_0000,
    ensures
        -0x4000_0000_0000_0000_0000_0000_0000_0000 <= a * b
            <= 0x4000_0000_0000_0000_0000_0000_0000_0000,
{
    assert(-0x4000_0000_0000_0000_0000_0000_0000_0000 <= a * b
        <= 0x4000_0000_0000_0000_0000_0000_0000_0000) by (nonlinear_arith)
        requires
            -0x8000_0000_0000_0000 <= a <= 0x8000_0000_0000_0000,
            -0x8000_0000_0000_0000 <= b <= 0x8000_0000_0000_0000,
    ;
}

proof fn lemma_cross_bound(n: int, d: int)
    requires
        -0x8000_0000_0000_0000 <= n <= 0x8000_0000_0000_0000,
        0 < d <= 0x7fff_ffff_ffff_ffff,
    ensures
        -0x3fff_ffff_ffff_ffff_8000_0000_0000_0000 <= n * d
            <= 0x3fff_ffff_ffff_ffff_8000_0000_0000_0000,
{
    assert(-0x3fff_ffff_ffff_ffff_8000_0000_0000_0000 <= n * d
        <= 0x3fff_ffff_ffff_ffff_8000_0000_0000_0000) by (nonlinear_arith)
        requires
            -0x8000_0000_0000_0000 <= n <= 0x8000_0000_0000_0000,
            0 < d <= 0x7fff_ffff_ffff_ffff,
    ;
}

impl Rational {
    #[verifier::type_invariant]
    spec fn valid(self) -> bool {
        representable(self@)
    }

    /// The whole number `n`, as a value of specifications.
    pub closed spec fn integer(n: i64) -> Rational {
        Rational { num: n, den: 1 }
    }

    /// The whole number `n` is `n / 1`, which is representable.
    pub broadcast proof fn lemma_integer(n: i64)
        ensures
            #[trigger] Rational::integer(n)@ == Frac::integer(n as int),
            representable(Rational::integer(n)@),
    {
        lemma_gcd_one(magnitude(n as int));
    }

    /// The whole number `n`.
    pub fn from_integer(n: i64) -> (r: Rational)
        ensures
            r == Rational::integer(n),
            r@ == Frac::integer(n as int),
    {
        proof {
            lemma_gcd_one(magnitude(n as int));
        }
        Rational { num: n, den: 1 }
    }

    /// The fraction `num / den` in lowest terms.
    pub fn new(num: i64, den: i64) -> (r: Result<Rational, EvalError>)
        ensures
            den == 0 ==> r == Err::<Rational, EvalError>(EvalError::DivisionByZero),
            den != 0 ==> view_result(r) == checked(normalize(num as int, den as int)),
    {
        if den == 0 {
            return Err(EvalError::DivisionByZero);
        }
        reduce(num as i128, den as i128)
    }

    /// The numerator, which carries the sign.
    pub fn numerator(&self) -> (n: i64)
        ensures
            n == self@.num,
            representable(self@),
    {
        proof {
            use_type_invariant(self);
        }
        self.num
    }

    /// The denominator, which is positive.
    pub fn denominator(&self) -> (d: i64)
        ensures
            d == self@.den,
            d > 0,
            representable(self@),
    {
        proof {
            use_type_invariant(self);
        }
        self.den
    }

    /// The sum in lowest terms, or `Overflow` when it does not fit.
    pub fn add(&self, other: &Rational) -> (r: Result<Rational, EvalError>)
        ensures
            view_result(r) == checked(self@.plus(other@)),
    {
        proof {
            use_type_invariant(self);
            use_type_invariant(other);
            lemma_cross_bound(self.num as int, other.den as int);
            lemma_cross_bound(other.num as int, self.den as int);
            lemma_product_bound(self.den as int, other.den as int);
            lemma_nonzero_product(self.den as int, other.den as int);
        }
        let n: i128 = (self.num as i128) * (other.den as i128)
            + (other.num as i128) * (self.den as i128);
        let d: i128 = (self.den as i128) * (other.den as i128);
        reduce(n, d)
    }

    /// The difference in lowest terms, or `Overflow` when it does not fit.
    pub fn subtract(&self, other: &Rational) -> (r: Result<Rational, EvalError>)
        ensures
            view_result(r) == checked(self@.minus(other@)),
    {
        proof {
            use_type_invariant(self);
            use_type_invariant(other);
            lemma_cross_bound(self.num as int, other.den as int);
            lemma_cross_bound(other.num as int, self.den as int);
            lemma_product_bound(self.den as int, other.den as int);
            lemma_nonzero_product(self.den as int, other.den as int);
        }
        let n: i128 = (self.num as i128) * (other.den as i128)
            - (other.num as i128) * (self.den as i128);
        let d: i128 = (self.den as i128) * (other.den as i128);
        reduce(n, d)
    }

    /// The product in lowest terms, or `Overflow` when it does not fit.
    pub fn multiply(&self, other: &Rational) -> (r: Result<Rational, EvalError>)
        ensures
            view_result(r) == checked(self@.times(other@)),
    {
        proof {
            use_type_invariant(self);
            use_type_invariant(other);
            lemma_product_bound(self.num as int, other.num as int);
            lemma_product_bound(self.den as int, other.den as int);
            lemma_nonzero_product(self.den as int, other.den as int);
        }
        let n: i128 = (self.num as i128) * (other.num as i128);
        let d: i128 = (self.den as i128) * (other.den as i128);
        reduce(n, d)
    }

    /// The quotient in lowest terms: `DivisionByZero` when `other` is zero,
    /// `Overflow` when the quotient does not fit.
    pub fn divide(&self, other: &Rational) -> (r: Result<Rational, EvalError>)
        ensures
            other@.num == 0 ==> r == Err::<Rational, EvalError>(EvalError::DivisionByZero),
            other@.num != 0 ==> view_result(r) == checked(self@.over(other@)),
    {
        proof {
            use_type_invariant(self);
            use_type_invariant(other);
            lemma_product_bound(self.num as int, other.den as int);
            lemma_product_bound(self.den as int, other.num as int);
        }
        if other.num == 0 {
            return Err(EvalError::DivisionByZero);
        }
        proof {
            lemma_nonzero_product(self.den as int, other.num as int);
        }
        let n: i128 = (self.num as i128) * (other.den as i128);
        let d: i128 = (self.den as i128) * (other.num as i128);
        reduce(n, d)
    }

    /// Values are told apart by their fractions.
    pub proof fn lemma_view_injective(a: Rational, b: Rational)
        ensures
            a@ == b@ <==> a == b,
    {
    }
}

} // verus!
