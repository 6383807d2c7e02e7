//! The mathematical model of a fraction: a pair of unbounded integers, its
//! lowest terms, and the four operations on fractions in lowest terms.

use vstd::prelude::*;
use vstd::arithmetic::div_mod::lemma_fundamental_div_mod;
use crate::divisor::{
    gcd_of, lemma_coprime_divides_product, lemma_gcd_quotients_coprime, lemma_gcd_symmetric,
    product,
};

verus! {

/// A numerator over a denominator.
pub struct Frac {
    pub num: int,
    pub den: int,
}

/// The absolute value of an integer.
pub open spec fn magnitude(x: int) -> nat {
    if x < 0 {
        (-x) as nat
    } else {
        x as nat
    }
}

/// `n / d` in lowest terms with a positive denominator, for `d != 0`.
pub open spec fn normalize(n: int, d: int) -> Frac {
    let g = gcd_of(magnitude(n), magnitude(d));
    let m = (magnitude(n) / g) as int;
    Frac { num: if (n < 0) != (d < 0) { -m } else { m }, den: (magnitude(d) / g) as int }
}

impl Frac {
    /// The fraction `n / 1`.
    pub open spec fn integer(n: int) -> Frac {
        Frac { num: n, den: 1 }
    }

    /// Lowest terms: a positive denominator that shares no factor with the
    /// numerator.
    pub open spec fn reduced(self) -> bool {
        self.den > 0 && gcd_of(magnitude(self.num), self.den as nat) == 1
    }

    /// The greater of the numerator's absolute value and the denominator.
    pub open spec fn height(self) -> nat {
        if magnitude(self.num) >= self.den {
            magnitude(self.num)
        } else {
            self.den as nat
        }
    }

    /// Equality as rational numbers, by cross multiplication.
    pub open spec fn same_value(self, other: Frac) -> bool {
        self.num * other.den == other.num * self.den
    }

    pub open spec fn plus(self, other: Frac) -> Frac {
        normalize(self.num * other.den + other.num * self.den, self.den * other.den)
    }

    pub open spec fn minus(self, other: Frac) -> Frac {
        normalize(self.num * other.den - other.num * self.den, self.den * other.den)
    }

    pub open spec fn times(self, other: Frac) -> Frac {
        normalize(self.num * other.num, self.den * other.den)
    }

    /// The quotient, for `other.num != 0`.
    pub open spec fn over(self, other: Frac) -> Frac {
        normalize(self.num * other.den, self.den * other.num)
    }
}

/// `normalize` yields lowest terms and keeps the value.
pub proof fn lemma_normalize(n: int, d: int)
    requires
        d != 0,
    ensures
        normalize(n, d).reduced(),
        normalize(n, d).same_value(Frac { num: n, den: d }),
{
    let a = magnitude(n);
    let b = magnitude(d);
    let g = gcd_of(a, b);
    lemma_gcd_quotients_coprime(a, b);
    lemma_fundamental_div_mod(a as int, g as int);
    lemma_fundamental_div_mod(b as int, g as int);
    let m = (a / g) as int;
    let e = (b / g) as int;
    let r = normalize(n, d);
    assert(r.num * d == n * e) by (nonlinear_arith)
        requires
            a == g * m,
            b == g * e,
            a == if n < 0 { -n } else { n },
            b == if d < 0 { -d } else { d },
            r.num == if (n < 0) != (d < 0) { -m } else { m },
    ;
}

/// Lowest terms are no greater than the pair given: neither the numerator
/// in absolute value nor the denominator.
pub proof fn lemma_normalize_bound(n: int, d: int)
    requires
        d != 0,
    ensures
        magnitude(normalize(n, d).num) <= magnitude(n),
        0 < normalize(n, d).den <= magnitude(d),
{
    let a = magnitude(n);
    let b = magnitude(d);
    let g = gcd_of(a, b);
    lemma_gcd_quotients_coprime(a, b);
    lemma_fundamental_div_mod(a as int, g as int);
    lemma_fundamental_div_mod(b as int, g as int);
    let m = a / g;
    let e = b / g;
    assert(m <= a && 0 < e <= b) by (nonlinear_arith)
        requires
            a == g * m,
            b == g * e,
            g >= 1,
            b > 0,
    ;
}

/// Two fractions in lowest terms with the same value are the same pair.
pub proof fn lemma_reduced_unique(a: Frac, b: Frac)
    requires
        a.reduced(),
        b.reduced(),
        a.same_value(b),
    ensures
        a == b,
{
    let an = magnitude(a.num);
    let bn = magnitude(b.num);
    let ad = a.den as nat;
    let bd = b.den as nat;
    assert(an * bd == bn * ad && ((a.num < 0) == (b.num < 0) || an == 0 || bn == 0))
        by (nonlinear_arith)
        requires
            a.num * b.den == b.num * a.den,
            a.den > 0,
            b.den > 0,
            an == if a.num < 0 { -a.num } else { a.num },
            bn == if b.num < 0 { -b.num } else { b.num },
            ad == a.den,
            bd == b.den,
    ;
    lemma_gcd_symmetric(an, ad);
    lemma_gcd_symmetric(bn, bd);
    assert(an * (bd as int) == product(ad as int, bn as int)) by (nonlinear_arith)
        requires
            an * bd == bn * ad,
    ;
    lemma_coprime_divides_product(ad, an, bd as int);
    assert(bn * (ad as int) == product(bd as int, an as int)) by (nonlinear_arith)
        requires
            an * bd == bn * ad,
    ;
    lemma_coprime_divides_product(bd, bn, ad as int);
    let k1 = choose|k: int| bd as int == product(ad as int, k);
    let k2 = choose|k: int| ad as int == product(bd as int, k);
    assert(ad == bd) by (nonlinear_arith)
        requires
            ad > 0,
            bd > 0,
            bd == ad * k1,
            ad == bd * k2,
    ;
    assert(a.num == b.num) by (nonlinear_arith)
        requires
            a.num * b.den == b.num * a.den,
            a.den == b.den,
            a.den > 0,
    ;
}

/// A fraction in lowest terms is its own normal form.
pub proof fn lemma_normalize_reduced(f: Frac)
    requires
        f.reduced(),
    ensures
        normalize(f.num, f.den) == f,
{
    lemma_normalize(f.num, f.den);
}

/// Pairs with the same value have the same normal form.
pub proof fn lemma_normalize_same_value(n1: int, d1: int, n2: int, d2: int)
    requires
        d1 != 0,
        d2 != 0,
        n1 * d2 == n2 * d1,
    ensures
        normalize(n1, d1) == normalize(n2, d2),
{
    lemma_normalize(n1, d1);
    lemma_normalize(n2, d2);
    let a = normalize(n1, d1);
    let b = normalize(n2, d2);
    assert(a.num * b.den == b.num * a.den) by (nonlinear_arith)
        requires
            a.num * d1 == n1 * a.den,
            b.num * d2 == n2 * b.den,
            n1 * d2 == n2 * d1,
            d1 != 0,
            d2 != 0,
            a.den > 0,
            b.den > 0,
    ;
    lemma_reduced_unique(a, b);
}

/// The denominator of a normal form is positive, and its numerator is
/// zero exactly when the numerator given is.
pub proof fn lemma_normalize_sign(n: int, d: int)
    requires
        d != 0,
    ensures
        normalize(n, d).den > 0,
        normalize(n, d).num == 0 <==> n == 0,
        (normalize(n, d).num > 0) == ((n > 0 && d > 0) || (n < 0 && d < 0)),
{
    lemma_normalize(n, d);
    let r = normalize(n, d);
    assert((r.num == 0 <==> n == 0) && ((r.num > 0) == ((n > 0 && d > 0) || (n < 0 && d < 0))))
        by (nonlinear_arith)
        requires
            r.num * d == n * r.den,
            r.den > 0,
            d != 0,
    ;
}

/// Cross products that agree still agree when both sides are scaled.
proof fn lemma_scale(p: int, d: int, q: int, e: int, k: int)
    requires
        p * d == q * e,
    ensures
        p * (d * k) == q * (e * k),
{
    assert(p * (d * k) == (p * d) * k) by (nonlinear_arith);
    assert(q * (e * k) == (q * e) * k) by (nonlinear_arith);
}

/// A product of two numbers other than zero is not zero.
pub proof fn lemma_nonzero_product(a: int, b: int)
    requires
        a != 0,
        b != 0,
    ensures
        a * b != 0,
{
    assert(a * b != 0) by (nonlinear_arith)
        requires
            a != 0,
            b != 0,
    ;
}

/// The sum of a pair with `c` keeps its value when the pair is replaced by
/// one of the same value.
proof fn lemma_sum_same_value(xn: int, xd: int, n: int, d: int, cn: int, cd: int, s: int)
    requires
        xn * d == n * xd,
        s == 1 || s == -1,
    ensures
        (xn * cd + s * cn * xd) * (d * cd) == (n * cd + s * cn * d) * (xd * cd),
{
    let p = xn * cd + s * cn * xd;
    let q = n * cd + s * cn * d;
    assert(p * d == (xn * d) * cd + s * cn * (xd * d)) by (nonlinear_arith)
        requires
            p == xn * cd + s * cn * xd,
    ;
    assert(q * xd == (n * xd) * cd + s * cn * (xd * d)) by (nonlinear_arith)
        requires
            q == n * cd + s * cn * d,
    ;
    lemma_scale(p, d, q, xd, cd);
}

/// Adding to a normal form is adding to any pair of the same value.
pub proof fn lemma_plus_left(n: int, d: int, c: Frac)
    requires
        d != 0,
        c.den != 0,
    ensures
        normalize(n, d).plus(c) == normalize(n * c.den + c.num * d, d * c.den),
{
    lemma_normalize(n, d);
    let x = normalize(n, d);
    lemma_sum_same_value(x.num, x.den, n, d, c.num, c.den, 1);
    lemma_nonzero_product(x.den, c.den);
    lemma_nonzero_product(d, c.den);
    lemma_normalize_same_value(
        x.num * c.den + c.num * x.den,
        x.den * c.den,
        n * c.den + c.num * d,
        d * c.den,
    );
}

/// Adding a normal form is adding any pair of the same value.
pub proof fn lemma_plus_right(a: Frac, n: int, d: int)
    requires
        d != 0,
        a.den != 0,
    ensures
        a.plus(normalize(n, d)) == normalize(a.num * d + n * a.den, a.den * d),
{
    lemma_normalize(n, d);
    let x = normalize(n, d);
    lemma_sum_same_value(x.num, x.den, n, d, a.num, a.den, 1);
    lemma_nonzero_product(a.den, x.den);
    lemma_nonzero_product(a.den, d);
    lemma_normalize_same_value(
        a.num * x.den + x.num * a.den,
        a.den * x.den,
        a.num * d + n * a.den,
        a.den * d,
    );
}

/// Subtracting from a normal form is subtracting from any pair of the same
/// value.
pub proof fn lemma_minus_left(n: int, d: int, c: Frac)
    requires
        d != 0,
        c.den != 0,
    ensures
        normalize(n, d).minus(c) == normalize(n * c.den - c.num * d, d * c.den),
{
    lemma_normalize(n, d);
    let x = normalize(n, d);
    lemma_sum_same_value(x.num, x.den, n, d, c.num, c.den, -1);
    lemma_nonzero_product(x.den, c.den);
    lemma_nonzero_product(d, c.den);
    assert(x.num * c.den + (-1) * c.num * x.den == x.num * c.den - c.num * x.den)
        by (nonlinear_arith);
    assert(n * c.den + (-1) * c.num * d == n * c.den - c.num * d) by (nonlinear_arith);
    lemma_normalize_same_value(
        x.num * c.den - c.num * x.den,
        x.den * c.den,
        n * c.den - c.num * d,
        d * c.den,
    );
}

/// The product of a pair with `m / e` keeps its value when the pair is
/// replaced by one of the same value.
proof fn lemma_product_same_value(xn: int, xd: int, n: int, d: int, m: int, e: int)
    requires
        xn * d == n * xd,
    ensures
        (xn * m) * (d * e) == (n * m) * (xd * e),
{
    let p = xn * m;
    let q = n * m;
    assert(p * d == (xn * d) * m) by (nonlinear_arith)
        requires
            p == xn * m,
    ;
    assert(q * xd == (n * xd) * m) by (nonlinear_arith)
        requires
            q == n * m,
    ;
    lemma_scale(p, d, q, xd, e);
}

/// Multiplying a normal form is multiplying any pair of the same value.
pub proof fn lemma_times_left(n: int, d: int, c: Frac)
    requires
        d != 0,
        c.den != 0,
    ensures
        normalize(n, d).times(c) == normalize(n * c.num, d * c.den),
{
    lemma_normalize(n, d);
    let x = normalize(n, d);
    lemma_product_same_value(x.num, x.den, n, d, c.num, c.den);
    lemma_nonzero_product(x.den, c.den);
    lemma_nonzero_product(d, c.den);
    lemma_normalize_same_value(x.num * c.num, x.den * c.den, n * c.num, d * c.den);
}

/// Multiplying by a normal form is multiplying by any pair of the same
/// value.
pub proof fn lemma_times_right(a: Frac, n: int, d: int)
    requires
        d != 0,
        a.den != 0,
    ensures
        a.times(normalize(n, d)) == normalize(a.num * n, a.den * d),
{
    lemma_normalize(n, d);
    let x = normalize(n, d);
    lemma_product_same_value(x.num, x.den, n, d, a.num, a.den);
    lemma_nonzero_product(a.den, x.den);
    lemma_nonzero_product(a.den, d);
    lemma_normalize_same_value(a.num * x.num, a.den * x.den, a.num * n, a.den * d);
}

/// Dividing a normal form is dividing any pair of the same value.
pub proof fn lemma_over_left(n: int, d: int, c: Frac)
    requires
        d != 0,
        c.num != 0,
    ensures
        normalize(n, d).over(c) == normalize(n * c.den, d * c.num),
{
    lemma_normalize(n, d);
    let x = normalize(n, d);
    lemma_product_same_value(x.num, x.den, n, d, c.den, c.num);
    lemma_nonzero_product(x.den, c.num);
    lemma_nonzero_product(d, c.num);
    lemma_normalize_same_value(x.num * c.den, x.den * c.num, n * c.den, d * c.num);
}

/// The numerators of `(a + b) + c` and of `a + (b + c)`, before reduction,
/// are the same; likewise with `- c` for `s == -1`.
proof fn lemma_sum_regroup(an: int, ad: int, bn: int, bd: int, cn: int, cd: int, s: int)
    ensures
        (an * bd + bn * ad) * cd + s * cn * (ad * bd) == an * (bd * cd) + (bn * cd + s * cn * bd)
            * ad,
{
    let u = an * bd;
    let v = bn * ad;
    let w = bn * cd;
    let z = s * cn * bd;
    assert((u + v) * cd == u * cd + v * cd) by (nonlinear_arith);
    assert(u * cd == an * (bd * cd)) by (nonlinear_arith)
        requires
            u == an * bd,
    ;
    assert((w + z) * ad == w * ad + z * ad) by (nonlinear_arith);
    assert(v * cd == w * ad) by (nonlinear_arith)
        requires
            v == bn * ad,
            w == bn * cd,
    ;
    assert(s * cn * (ad * bd) == z * ad) by (nonlinear_arith)
        requires
            z == s * cn * bd,
    ;
}

/// `(a + b) + c == a + (b + c)`.
pub proof fn lemma_plus_plus(a: Frac, b: Frac, c: Frac)
    requires
        a.den != 0,
        b.den != 0,
        c.den != 0,
    ensures
        a.plus(b).plus(c) == a.plus(b.plus(c)),
{
    lemma_nonzero_product(a.den, b.den);
    lemma_nonzero_product(b.den, c.den);
    lemma_plus_left(a.num * b.den + b.num * a.den, a.den * b.den, c);
    lemma_plus_right(a, b.num * c.den + c.num * b.den, b.den * c.den);
    lemma_sum_regroup(a.num, a.den, b.num, b.den, c.num, c.den, 1);
    assert((a.den * b.den) * c.den == a.den * (b.den * c.den)) by (nonlinear_arith);
}

/// `(a + b) - c == a + (b - c)`.
pub proof fn lemma_plus_minus(a: Frac, b: Frac, c: Frac)
    requires
        a.den != 0,
        b.den != 0,
        c.den != 0,
    ensures
        a.plus(b).minus(c) == a.plus(b.minus(c)),
{
    lemma_nonzero_product(a.den, b.den);
    lemma_nonzero_product(b.den, c.den);
    lemma_minus_left(a.num * b.den + b.num * a.den, a.den * b.den, c);
    lemma_plus_right(a, b.num * c.den - c.num * b.den, b.den * c.den);
    lemma_sum_regroup(a.num, a.den, b.num, b.den, c.num, c.den, -1);
    assert((-1) * c.num * (a.den * b.den) == -(c.num * (a.den * b.den))) by (nonlinear_arith);
    assert((-1) * c.num * b.den == -(c.num * b.den)) by (nonlinear_arith);
    assert((a.den * b.den) * c.den == a.den * (b.den * c.den)) by (nonlinear_arith);
}

/// `(a * b) * c == a * (b * c)`.
pub proof fn lemma_times_times(a: Frac, b: Frac, c: Frac)
    requires
        a.den != 0,
        b.den != 0,
        c.den != 0,
    ensures
        a.times(b).times(c) == a.times(b.times(c)),
{
    lemma_nonzero_product(a.den, b.den);
    lemma_nonzero_product(b.den, c.den);
    lemma_times_left(a.num * b.num, a.den * b.den, c);
    lemma_times_right(a, b.num * c.num, b.den * c.den);
    assert((a.num * b.num) * c.num == a.num * (b.num * c.num)) by (nonlinear_arith);
    assert((a.den * b.den) * c.den == a.den * (b.den * c.den)) by (nonlinear_arith);
}

/// `(a * b) / c == a * (b / c)` for `c` other than zero.
pub proof fn lemma_times_over(a: Frac, b: Frac, c: Frac)
    requires
        a.den != 0,
        b.den != 0,
        c.num != 0,
    ensures
        a.times(b).over(c) == a.times(b.over(c)),
{
    lemma_nonzero_product(a.den, b.den);
    lemma_nonzero_product(b.den, c.num);
    lemma_over_left(a.num * b.num, a.den * b.den, c);
    lemma_times_right(a, b.num * c.den, b.den * c.num);
    assert((a.num * b.num) * c.den == a.num * (b.num * c.den)) by (nonlinear_arith);
    assert((a.den * b.den) * c.num == a.den * (b.den * c.num)) by (nonlinear_arith);
}

} // verus!
