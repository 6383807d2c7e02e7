//! The canonical spelling of a fraction: a whole number `N`, a proper
//! fraction `n/d`, or a mixed number `w'n/d`, with a leading `-` for a
//! negative value. Parsing accepts exactly these spellings.

use vstd::prelude::*;
use vstd::arithmetic::div_mod::lemma_fundamental_div_mod;
use crate::decimal::{
    all_digits, digits, is_digit, lemma_digits_shape, lemma_digits_value, number_value,
    push_number, read_number,
};
use crate::divisor::{
    gcd_of, lemma_divides_intro, lemma_divides_one, lemma_gcd_greatest, lemma_gcd_symmetric,
};
use crate::error::EvalError;
use crate::fraction::{lemma_normalize_reduced, magnitude, Frac};
use crate::rational::{reduce, representable, view_result, Rational, LIMIT};
use crate::text::chars_of;

verus! {

/// The whole part of the absolute value.
pub open spec fn whole_part(f: Frac) -> nat {
    magnitude(f.num) / (f.den as nat)
}

/// The numerator that is left over the denominator once the whole part is
/// taken out of the absolute value.
pub open spec fn proper_part(f: Frac) -> nat {
    magnitude(f.num) % (f.den as nat)
}

/// The spelling of the absolute value.
pub open spec fn unsigned_text(f: Frac) -> Seq<char> {
    if proper_part(f) == 0 {
        digits(whole_part(f))
    } else if whole_part(f) == 0 {
        digits(proper_part(f)) + seq!['/'] + digits(f.den as nat)
    } else {
        digits(whole_part(f)) + seq!['\''] + digits(proper_part(f)) + seq!['/'] + digits(
            f.den as nat,
        )
    }
}

/// The canonical spelling of a fraction in lowest terms.
pub open spec fn canonical_text(f: Frac) -> Seq<char> {
    if f.num < 0 {
        seq!['-'] + unsigned_text(f)
    } else {
        unsigned_text(f)
    }
}

/// What a text parses to: the representable fraction that it is the
/// canonical spelling of, if there is one.
pub open spec fn parsed(s: Seq<char>) -> Result<Frac, EvalError> {
    if exists|f: Frac| representable(f) && canonical_text(f) == s {
        Ok(choose|f: Frac| representable(f) && canonical_text(f) == s)
    } else {
        Err(EvalError::MalformedFraction)
    }
}

/// The first index at or after `from` at which `s` holds `c`, or the length
/// of `s` if there is none.
pub open spec fn position(s: Seq<char>, c: char, from: int) -> int
    decreases s.len() - from,
{
    if from < 0 || from >= s.len() {
        s.len() as int
    } else if s[from] == c {
        from
    } else {
        position(s, c, from + 1)
    }
}

/// The value of a non-empty run of digits.
pub open spec fn numeral(s: Seq<char>) -> Option<nat> {
    if s.len() > 0 && all_digits(s) {
        Some(number_value(s))
    } else {
        None
    }
}

/// The numerator and denominator that a text spells, read by its
/// separators and without regard to lowest terms.
pub open spec fn spelled(s: Seq<char>) -> Option<(int, int)> {
    let negative = s.len() > 0 && s[0] == '-';
    let start: int = if negative { 1 } else { 0 };
    let end = s.len() as int;
    let slash = position(s, '/', start);
    let quote = position(s, '\'', start);
    let parts: Option<(nat, nat)> = if slash == end {
        match numeral(s.subrange(start, end)) {
            Some(a) => Some((a, 1nat)),
            None => None,
        }
    } else if quote < slash {
        match (
            numeral(s.subrange(start, quote)),
            numeral(s.subrange(quote + 1, slash)),
            numeral(s.subrange(slash + 1, end)),
        ) {
            (Some(a), Some(b), Some(c)) => Some((a * c + b, c)),
            _ => None,
        }
    } else {
        match (numeral(s.subrange(start, slash)), numeral(s.subrange(slash + 1, end))) {
            (Some(a), Some(c)) => Some((a, c)),
            _ => None,
        }
    };
    match parts {
        Some((n, d)) => if n <= LIMIT + 1 && 0 < d <= LIMIT {
            Some((if negative { -(n as int) } else { n as int }, d as int))
        } else {
            None
        },
        None => None,
    }
}

/// `position` finds the first occurrence at or after `from`.
pub proof fn lemma_position(s: Seq<char>, c: char, from: int)
    requires
        0 <= from <= s.len(),
    ensures
        from <= position(s, c, from) <= s.len(),
        position(s, c, from) < s.len() ==> s[position(s, c, from)] == c,
        forall|i: int| from <= i < position(s, c, from) ==> s[i] != c,
    decreases s.len() - from,
{
    if from < s.len() && s[from] != c {
        lemma_position(s, c, from + 1);
    }
}

/// An index with no occurrence before it, that holds `c` or is the end, is
/// the position.
pub proof fn lemma_position_at(s: Seq<char>, c: char, from: int, p: int)
    requires
        0 <= from <= p <= s.len(),
        forall|i: int| from <= i < p ==> s[i] != c,
        p < s.len() ==> s[p] == c,
    ensures
        position(s, c, from) == p,
    decreases p - from,
{
    if from < p {
        lemma_position_at(s, c, from + 1, p);
    }
}

/// A fraction in lowest terms with nothing left over its denominator is a
/// whole number.
pub proof fn lemma_whole_is_integer(f: Frac)
    requires
        f.reduced(),
        proper_part(f) == 0,
    ensures
        f.den == 1,
{
    let a = magnitude(f.num);
    let d = f.den as nat;
    lemma_fundamental_div_mod(a as int, d as int);
    lemma_divides_intro(d as int, (a / d) as int, a as int);
    lemma_divides_intro(d as int, 1, d as int);
    lemma_gcd_greatest(a, d, d as int);
    lemma_divides_one(d as int);
}

/// The facts about a fraction's parts that its spelling rests on.
proof fn lemma_parts(f: Frac)
    requires
        representable(f),
    ensures
        magnitude(f.num) == f.den * whole_part(f) + proper_part(f),
        proper_part(f) < f.den,
        whole_part(f) <= magnitude(f.num),
        proper_part(f) == 0 ==> f.den == 1,
        canonical_text(f).len() > 0,
        (canonical_text(f)[0] == '-') == (f.num < 0),
        canonical_text(f).subrange(
            if f.num < 0 { 1int } else { 0int },
            canonical_text(f).len() as int,
        ) == unsigned_text(f),
{
    let a = magnitude(f.num);
    let d = f.den as nat;
    let w = whole_part(f);
    let m = proper_part(f);
    lemma_fundamental_div_mod(a as int, d as int);
    if m == 0 {
        lemma_whole_is_integer(f);
    }
    lemma_digits_shape(w);
    lemma_digits_shape(m);
    let u = unsigned_text(f);
    let s = canonical_text(f);
    assert(s.subrange(if f.num < 0 { 1int } else { 0int }, s.len() as int) =~= u);
}

/// The unsigned spelling, read by its separators from `start` on in a text
/// that ends with it.
proof fn lemma_unsigned_read(f: Frac, s: Seq<char>, start: int)
    requires
        representable(f),
        0 <= start <= s.len(),
        s.subrange(start, s.len() as int) == unsigned_text(f),
    ensures
        ({
            let end = s.len() as int;
            let slash = position(s, '/', start);
            let quote = position(s, '\'', start);
            let w = whole_part(f);
            let m = proper_part(f);
            if m == 0 {
                slash == end && numeral(s.subrange(start, end)) == Some(w)
            } else if w == 0 {
                &&& slash < end
                &&& quote >= slash
                &&& numeral(s.subrange(start, slash)) == Some(m)
                &&& numeral(s.subrange(slash + 1, end)) == Some(f.den as nat)
            } else {
                &&& slash < end
                &&& quote < slash
                &&& numeral(s.subrange(start, quote)) == Some(w)
                &&& numeral(s.subrange(quote + 1, slash)) == Some(m)
                &&& numeral(s.subrange(slash + 1, end)) == Some(f.den as nat)
            }
        }),
{
    let u = unsigned_text(f);
    let w = whole_part(f);
    let m = proper_part(f);
    let d = f.den as nat;
    let dw = digits(w);
    let dm = digits(m);
    let dd = digits(d);
    let end = s.len() as int;
    lemma_digits_shape(w);
    lemma_digits_shape(m);
    lemma_digits_shape(d);
    lemma_digits_value(w);
    lemma_digits_value(m);
    lemma_digits_value(d);
    if m == 0 {
        assert forall|i: int| start <= i < end implies s[i] != '/' by {
            assert(is_digit(dw[i - start]));
        }
        lemma_position_at(s, '/', start, end);
    } else if w == 0 {
        let slash = start + dm.len();
        assert(u[dm.len() as int] == '/');
        assert forall|i: int| start <= i < slash implies s[i] != '/' && s[i] != '\'' by {
            assert(u[i - start] == dm[i - start]);
        }
        lemma_position_at(s, '/', start, slash);
        lemma_position(s, '\'', start);
        assert(s.subrange(start, slash) =~= dm);
        assert(s.subrange(slash + 1, end) =~= dd) by {
            assert forall|i: int| 0 <= i < dd.len() implies s[slash + 1 + i] == dd[i] by {
                assert(u[dm.len() + 1 + i] == dd[i]);
            }
        }
    } else {
        let quote = start + dw.len();
        let slash = quote + 1 + dm.len();
        let uq = dw.len() as int;
        let us = uq + 1 + dm.len();
        assert(u[uq] == '\'');
        assert(u[us] == '/');
        assert forall|i: int| start <= i < quote implies s[i] != '/' && s[i] != '\'' by {
            assert(u[i - start] == dw[i - start]);
        }
        assert forall|i: int| quote < i < slash implies s[i] != '/' by {
            assert(u[i - start] == dm[i - quote - 1]);
        }
        lemma_position_at(s, '\'', start, quote);
        lemma_position_at(s, '/', start, slash);
        assert(s.subrange(start, quote) =~= dw);
        assert(s.subrange(quote + 1, slash) =~= dm) by {
            assert forall|i: int| 0 <= i < dm.len() implies s[quote + 1 + i] == dm[i] by {
                assert(u[uq + 1 + i] == dm[i]);
            }
        }
        assert(s.subrange(slash + 1, end) =~= dd) by {
            assert forall|i: int| 0 <= i < dd.len() implies s[slash + 1 + i] == dd[i] by {
                assert(u[us + 1 + i] == dd[i]);
            }
        }
    }
}

/// The fraction part that a canonical spelling shows is in lowest terms:
/// what is left over the denominator shares no factor with it.
pub proof fn lemma_proper_part_reduced(f: Frac)
    requires
        f.reduced(),
    ensures
        gcd_of(proper_part(f), f.den as nat) == 1,
{
    lemma_gcd_symmetric(proper_part(f), f.den as nat);
}

/// Reading a canonical spelling by its separators gives back the
/// numerator and the denominator.
pub proof fn lemma_spelled_canonical(f: Frac)
    requires
        representable(f),
    ensures
        spelled(canonical_text(f)) == Some((f.num, f.den)),
{
    let s = canonical_text(f);
    let start: int = if f.num < 0 { 1 } else { 0 };
    lemma_parts(f);
    lemma_unsigned_read(f, s, start);
    let w = whole_part(f);
    let m = proper_part(f);
    let slash = position(s, '/', start);
    let quote = position(s, '\'', start);
    if m == 0 {
        assert(w == magnitude(f.num)) by (nonlinear_arith)
            requires
                magnitude(f.num) == f.den * w + m,
                f.den == 1,
                m == 0,
        ;
    } else if w == 0 {
        assert(!(quote < slash));
        assert(spelled(s) == Some((f.num, f.den)));
    }
}

/// Different fractions have different canonical spellings.
pub proof fn lemma_canonical_injective(f: Frac, g: Frac)
    requires
        representable(f),
        representable(g),
        canonical_text(f) == canonical_text(g),
    ensures
        f == g,
{
    lemma_spelled_canonical(f);
    lemma_spelled_canonical(g);
}

/// Parsing undoes spelling: the canonical text of a representable fraction
/// parses to that fraction.
pub proof fn lemma_parse_canonical(f: Frac)
    requires
        representable(f),
    ensures
        parsed(canonical_text(f)) == Ok::<Frac, EvalError>(f),
{
    let s = canonical_text(f);
    let g = choose|g: Frac| representable(g) && canonical_text(g) == s;
    lemma_canonical_injective(f, g);
}

/// The first index at or after `from` at which `chars` holds `c`.
fn find_char(chars: &Vec<char>, c: char, from: usize) -> (p: usize)
    requires
        from <= chars.len(),
    ensures
        p == position(chars@, c, from as int),
{
    let mut i: usize = from;
    while i < chars.len() && chars[i] != c
        invariant
            from <= i <= chars.len(),
            position(chars@, c, from as int) == position(chars@, c, i as int),
        decreases chars.len() - i,
    {
        i = i + 1;
    }
    i
}

/// Reads a numerator and a denominator off a spelling.
fn read_fraction(chars: &Vec<char>) -> (r: Option<(i128, i128)>)
    ensures
        match r {
            Some((n, d)) => spelled(chars@) == Some((n as int, d as int)) && d > 0,
            None => spelled(chars@) is None,
        },
{
    let end: usize = chars.len();
    let negative: bool = end > 0 && chars[0] == '-';
    let start: usize = if negative { 1 } else { 0 };
    let slash: usize = find_char(chars, '/', start);
    let quote: usize = find_char(chars, '\'', start);
    proof {
        lemma_position(chars@, '/', start as int);
        lemma_position(chars@, '\'', start as int);
    }
    let n: u128;
    let d: u64;
    if slash == end {
        match read_number(chars, start, end) {
            Some(a) => {
                n = a as u128;
                d = 1;
            },
            None => {
                return None;
            },
        }
    } else if quote < slash {
        let a = read_number(chars, start, quote);
        let b = read_number(chars, quote + 1, slash);
        let c = read_number(chars, slash + 1, end);
        match (a, b, c) {
            (Some(a), Some(b), Some(c)) => {
                assert(a * c <= 0xffff_ffff_ffff_ffff * 0xffff_ffff_ffff_ffff) by (nonlinear_arith)
                    requires
                        0 <= a <= 0xffff_ffff_ffff_ffff,
                        0 <= c <= 0xffff_ffff_ffff_ffff,
                ;
                n = (a as u128) * (c as u128) + (b as u128);
                d = c;
            },
            _ => {
                proof {
                    let na = numeral(chars@.subrange(start as int, quote as int));
                    let nb = numeral(chars@.subrange(quote + 1, slash as int));
                    let nc = numeral(chars@.subrange(slash + 1, end as int));
                    if na is Some && nb is Some && nc is Some && nc->0 > 0 {
                        assert(na->0 * nc->0 + nb->0 >= na->0) by (nonlinear_arith)
                            requires
                                nc->0 > 0,
                        ;
                    }
                }
                return None;
            },
        }
    } else {
        let a = read_number(chars, start, slash);
        let c = read_number(chars, slash + 1, end);
        match (a, c) {
            (Some(a), Some(c)) => {
                n = a as u128;
                d = c;
            },
            _ => {
                return None;
            },
        }
    }
    if n > 0x8000_0000_0000_0000u128 || d == 0 || d > 0x7fff_ffff_ffff_ffffu64 {
        return None;
    }
    let signed: i128 = if negative { -(n as i128) } else { n as i128 };
    Some((signed, d as i128))
}

impl Rational {
    /// The canonical spelling: `N`, `n/d` or `w'n/d`, after a `-` for a
    /// negative value.
    pub fn to_canonical_string(&self) -> (s: String)
        ensures
            s@ == canonical_text(self@),
    {
        let num: i64 = self.numerator();
        let den: u64 = self.denominator() as u64;
        let mut out = String::new();
        let a: u64 = if num < 0 {
            out.push('-');
            (-(num as i128)) as u64
        } else {
            num as u64
        };
        let whole: u64 = a / den;
        let rest: u64 = a % den;
        if rest == 0 {
            push_number(&mut out, whole);
        } else if whole == 0 {
            push_number(&mut out, rest);
            out.push('/');
            push_number(&mut out, den);
        } else {
            push_number(&mut out, whole);
            out.push('\'');
            push_number(&mut out, rest);
            out.push('/');
            push_number(&mut out, den);
        }
        out
    }

    /// Reads a canonical spelling. Any other text is a `MalformedFraction`:
    /// text that spells no fraction, spells one that is not in lowest terms
    /// or not in its shortest form, or spells one that does not fit.
    pub fn parse(text: &str) -> (r: Result<Rational, EvalError>)
        ensures
            view_result(r) == parsed(text@),
            r matches Ok(v) ==> canonical_text(v@) == text@,
            r matches Err(e) ==> e == EvalError::MalformedFraction && forall|f: Frac|
                representable(f) ==> canonical_text(f) != text@,
    {
        let chars = chars_of(text);
        let found: Option<Rational> = match read_fraction(&chars) {
            None => None,
            Some((n, d)) => match reduce(n, d) {
                Err(_) => None,
                Ok(v) => {
                    let again = v.to_canonical_string();
                    let given = text.to_owned();
                    let same = again == given;
                    if same {
                        Some(v)
                    } else {
                        None
                    }
                },
            },
        };
        proof {
            assert forall|f: Frac| representable(f) && canonical_text(f) == text@ implies found
                is Some by {
                lemma_spelled_canonical(f);
                lemma_normalize_reduced(f);
            }
            if let Some(v) = found {
                let g = choose|g: Frac| representable(g) && canonical_text(g) == text@;
                lemma_canonical_injective(v@, g);
            }
        }
        match found {
            Some(v) => Ok(v),
            None => Err(EvalError::MalformedFraction),
        }
    }
}

} // verus!
