//! Greatest common divisors: the definition, the executable algorithm and
//! the number theory that the fraction arithmetic rests on.

use vstd::prelude::*;
use vstd::arithmetic::div_mod::{lemma_fundamental_div_mod, lemma_mod_multiples_basic};

verus! {

/// The greatest common divisor of `a` and `b`, with `gcd_of(0, 0) == 0`.
pub open spec fn gcd_of(a: nat, b: nat) -> nat
    decreases b,
{
    if b == 0 {
        a
    } else {
        gcd_of(b, a % b)
    }
}

/// The product of two integers, as a term that quantifiers can match on.
pub open spec fn product(d: int, k: int) -> int {
    d * k
}

/// `d` divides `n`: `n` is `d` times some integer.
pub open spec fn divides(d: int, n: int) -> bool {
    exists|k: int| n == #[trigger] product(d, k)
}

/// The greatest common divisor, by Euclid's algorithm: it divides both
/// numbers, and every number that divides both divides it.
pub fn gcd(a: u128, b: u128) -> (g: u128)
    ensures
        g == gcd_of(a as nat, b as nat),
        divides(g as int, a as int),
        divides(g as int, b as int),
        forall|d: int| divides(d, a as int) && divides(d, b as int) ==> divides(d, g as int),
{
    proof {
        lemma_gcd_divides(a as nat, b as nat);
        assert forall|d: int| divides(d, a as int) && divides(d, b as int) implies divides(
            d,
            gcd_of(a as nat, b as nat) as int,
        ) by {
            lemma_gcd_greatest(a as nat, b as nat, d);
        }
    }
    let mut x: u128 = a;
    let mut y: u128 = b;
    while y != 0
        invariant
            gcd_of(x as nat, y as nat) == gcd_of(a as nat, b as nat),
        decreases y,
    {
        let r: u128 = x % y;
        x = y;
        y = r;
    }
    x
}

/// A multiple of `d` is divisible by `d`.
pub proof fn lemma_divides_intro(d: int, k: int, n: int)
    requires
        n == d * k,
    ensures
        divides(d, n),
{
    assert(n == product(d, k));
}

/// What divides two numbers divides their integer combinations.
proof fn lemma_divides_combine(d: int, x: int, y: int, p: int, q: int)
    requires
        divides(d, x),
        divides(d, y),
    ensures
        divides(d, p * x + q * y),
{
    let kx = choose|k: int| x == product(d, k);
    let ky = choose|k: int| y == product(d, k);
    assert(p * x + q * y == d * (p * kx + q * ky)) by (nonlinear_arith)
        requires
            x == d * kx,
            y == d * ky,
    ;
    lemma_divides_intro(d, p * kx + q * ky, p * x + q * y);
}

/// For `d > 0`, dividing in the sense of `divides` is leaving no remainder.
pub proof fn lemma_divides_mod(d: int, n: int)
    requires
        d > 0,
    ensures
        divides(d, n) <==> n % d == 0,
{
    if divides(d, n) {
        let k = choose|k: int| n == product(d, k);
        lemma_mod_multiples_basic(k, d);
    }
    if n % d == 0 {
        lemma_fundamental_div_mod(n, d);
        lemma_divides_intro(d, n / d, n);
    }
}

/// The greatest common divisor divides both numbers, and is positive unless
/// both are zero.
pub proof fn lemma_gcd_divides(a: nat, b: nat)
    ensures
        divides(gcd_of(a, b) as int, a as int),
        divides(gcd_of(a, b) as int, b as int),
        a > 0 || b > 0 ==> gcd_of(a, b) > 0,
    decreases b,
{
    let g = gcd_of(a, b) as int;
    if b == 0 {
        lemma_divides_intro(g, 1, a as int);
        lemma_divides_intro(g, 0, 0);
    } else {
        lemma_gcd_divides(b, a % b);
        lemma_fundamental_div_mod(a as int, b as int);
        let q = (a / b) as int;
        let r = (a % b) as int;
        lemma_divides_combine(g, b as int, r, q, 1);
    }
}

/// Bezout's identity: the greatest common divisor is an integer combination
/// of the two numbers.
pub proof fn lemma_bezout(a: nat, b: nat) -> (c: (int, int))
    ensures
        a * c.0 + b * c.1 == gcd_of(a, b),
    decreases b,
{
    if b == 0 {
        (1, 0)
    } else {
        let (x, y) = lemma_bezout(b, a % b);
        lemma_fundamental_div_mod(a as int, b as int);
        let q = (a / b) as int;
        let r = (a % b) as int;
        let g = gcd_of(a, b) as int;
        assert(a * y + b * (x - q * y) == g) by (nonlinear_arith)
            requires
                b * x + r * y == g,
                a == (b as int) * q + r,
        ;
        (y, x - q * y)
    }
}

/// Every common divisor divides the greatest one.
pub proof fn lemma_gcd_greatest(a: nat, b: nat, d: int)
    requires
        divides(d, a as int),
        divides(d, b as int),
    ensures
        divides(d, gcd_of(a, b) as int),
{
    let (x, y) = lemma_bezout(a, b);
    lemma_divides_combine(d, a as int, b as int, x, y);
}

/// A positive number that divides one is one.
pub proof fn lemma_divides_one(d: int)
    requires
        d > 0,
        divides(d, 1),
    ensures
        d == 1,
{
    let k = choose|k: int| 1 == product(d, k);
    assert(d == 1) by (nonlinear_arith)
        requires
            d > 0,
            1 == d * k,
    ;
}

/// Dividing two numbers by their greatest common divisor leaves them
/// without a common factor.
pub proof fn lemma_gcd_quotients_coprime(a: nat, b: nat)
    requires
        a > 0 || b > 0,
    ensures
        gcd_of(a, b) > 0,
        a % gcd_of(a, b) == 0,
        b % gcd_of(a, b) == 0,
        gcd_of(a / gcd_of(a, b), b / gcd_of(a, b)) == 1,
{
    let g = gcd_of(a, b) as int;
    lemma_gcd_divides(a, b);
    lemma_divides_mod(g, a as int);
    lemma_divides_mod(g, b as int);
    lemma_fundamental_div_mod(a as int, g);
    lemma_fundamental_div_mod(b as int, g);
    let a1 = a / (g as nat);
    let b1 = b / (g as nat);
    assert(a1 > 0 || b1 > 0) by (nonlinear_arith)
        requires
            a == g * a1,
            b == g * b1,
            a > 0 || b > 0,
    ;
    let h = gcd_of(a1, b1) as int;
    lemma_gcd_divides(a1, b1);
    let (x, y) = lemma_bezout(a, b);
    assert(a1 * x + b1 * y == 1) by (nonlinear_arith)
        requires
            a * x + b * y == g,
            a == g * a1,
            b == g * b1,
            g > 0,
    ;
    lemma_divides_combine(h, a1 as int, b1 as int, x, y);
    lemma_divides_one(h);
}

/// Gauss's lemma: a number without a common factor with `b` that divides
/// `b * c` divides `c`.
pub proof fn lemma_coprime_divides_product(a: nat, b: nat, c: int)
    requires
        gcd_of(a, b) == 1,
        divides(a as int, b * c),
    ensures
        divides(a as int, c),
{
    let (x, y) = lemma_bezout(a, b);
    let k = choose|k: int| b * c == product(a as int, k);
    assert(c == (a as int) * (x * c + k * y)) by (nonlinear_arith)
        requires
            a * x + b * y == 1,
            b * c == (a as int) * k,
    ;
    lemma_divides_intro(a as int, x * c + k * y, c);
}

/// One shares no factor with anything.
pub proof fn lemma_gcd_one(a: nat)
    ensures
        gcd_of(a, 1) == 1,
{
    assert(gcd_of(1, 0) == 1);
}

/// The greatest common divisor does not depend on the order of its
/// arguments.
pub proof fn lemma_gcd_symmetric(a: nat, b: nat)
    ensures
        gcd_of(a, b) == gcd_of(b, a),
{
    let g = gcd_of(a, b) as int;
    let h = gcd_of(b, a) as int;
    lemma_gcd_divides(a, b);
    lemma_gcd_divides(b, a);
    lemma_gcd_greatest(a, b, h);
    lemma_gcd_greatest(b, a, g);
    if a > 0 || b > 0 {
        let k1 = choose|k: int| g == product(h, k);
        let k2 = choose|k: int| h == product(g, k);
        assert(g == h) by (nonlinear_arith)
            requires
                g > 0,
                h > 0,
                g == h * k1,
                h == g * k2,
        ;
    }
}

} // verus!
