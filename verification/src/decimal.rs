//! Decimal numerals: the digits of a number and the number that a run of
//! digits spells.

use vstd::prelude::*;

verus! {

pub open spec fn is_digit(c: char) -> bool {
    '0' <= c <= '9'
}

/// The value of a decimal digit.
pub open spec fn digit_value(c: char) -> nat {
    (c as int - '0' as int) as nat
}

/// The character for a value below ten.
pub open spec fn digit_char(d: nat) -> char {
    (d + '0' as int) as char
}

/// The decimal numeral of `n`, without leading zeros.
pub open spec fn digits(n: nat) -> Seq<char>
    decreases n,
{
    if n < 10 {
        seq![digit_char(n)]
    } else {
        digits(n / 10).push(digit_char(n % 10))
    }
}

pub open spec fn all_digits(s: Seq<char>) -> bool {
    forall|i: int| 0 <= i < s.len() ==> is_digit(#[trigger] s[i])
}

/// The number that a run of digits spells; leading zeros count for nothing.
pub open spec fn number_value(s: Seq<char>) -> nat
    decreases s.len(),
{
    if s.len() == 0 {
        0
    } else {
        number_value(s.drop_last()) * 10 + digit_value(s.last())
    }
}

/// A numeral is a non-empty run of digits, and starts with a zero only
/// when it is the numeral of zero.
pub proof fn lemma_digits_shape(n: nat)
    ensures
        digits(n).len() >= 1,
        all_digits(digits(n)),
        digits(n)[0] == '0' <==> n == 0,
    decreases n,
{
    if n >= 10 {
        lemma_digits_shape(n / 10);
    }
}

/// A numeral spells the number it was made from.
pub proof fn lemma_digits_value(n: nat)
    ensures
        number_value(digits(n)) == n,
    decreases n,
{
    if n < 10 {
        assert(number_value(digits(n).drop_last()) == 0);
    } else {
        lemma_digits_value(n / 10);
        assert(digits(n).drop_last() =~= digits(n / 10));
    }
}

/// Appending digits never lowers the value.
pub proof fn lemma_number_value_prefix(s: Seq<char>, k: int)
    requires
        0 <= k <= s.len(),
    ensures
        number_value(s.take(k)) <= number_value(s),
    decreases s.len(),
{
    if k == s.len() {
        assert(s.take(k) =~= s);
    } else {
        lemma_number_value_prefix(s.drop_last(), k);
        assert(s.drop_last().take(k) =~= s.take(k));
    }
}

/// The character of a value below ten.
pub(crate) fn digit_to_char(d: u8) -> (c: char)
    requires
        d < 10,
    ensures
        c == digit_char(d as nat),
{
    (48u8 + d) as char
}

/// Appends the decimal numeral of `n`.
pub(crate) fn push_number(out: &mut String, n: u64)
    ensures
        final(out)@ == old(out)@ + digits(n as nat),
    decreases n,
{
    if n >= 10 {
        push_number(out, n / 10);
    }
    out.push(digit_to_char((n % 10) as u8));
}

/// The number spelled by `chars[start..end]`, when that is a non-empty run
/// of digits whose value fits 64 bits.
pub(crate) fn read_number(chars: &Vec<char>, start: usize, end: usize) -> (r: Option<u64>)
    requires
        start <= end <= chars.len(),
    ensures
        r is Some <==> {
            &&& start < end
            &&& all_digits(chars@.subrange(start as int, end as int))
            &&& number_value(chars@.subrange(start as int, end as int)) <= u64::MAX
        },
        r matches Some(n) ==> n == number_value(chars@.subrange(start as int, end as int)),
{
    if start == end {
        return None;
    }
    let ghost word = chars@.subrange(start as int, end as int);
    let mut acc: u64 = 0;
    let mut i: usize = start;
    while i < end
        invariant
            start <= i <= end <= chars.len(),
            word == chars@.subrange(start as int, end as int),
            all_digits(word.take(i - start)),
            acc == number_value(word.take(i - start)),
        decreases end - i,
    {
        let c: char = chars[i];
        let ghost k = i - start;
        proof {
            assert(word[k] == c);
            assert(word.take(k + 1).drop_last() =~= word.take(k));
        }
        if !(c >= '0' && c <= '9') {
            return None;
        }
        let d: u64 = (c as u32 - 48) as u64;
        if acc > (u64::MAX - d) / 10 {
            proof {
                if all_digits(word) {
                    lemma_number_value_prefix(word, k + 1);
                }
            }
            return None;
        }
        acc = acc * 10 + d;
        i = i + 1;
    }
    proof {
        assert(word.take(end - start) =~= word);
    }
    Some(acc)
}

} // verus!
