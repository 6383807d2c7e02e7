//! Tokens of expression text: numbers, operators and parentheses, divided by
//! spaces and by the parentheses themselves.

use vstd::prelude::*;
use crate::decimal::{all_digits, number_value, read_number};
use crate::operator::{operator_of, Operator};
use crate::rational::LIMIT;
use crate::text::chars_of;

verus! {

#[derive(Clone, Copy, Debug, PartialEq, Eq, Structural)]
pub enum Token {
    /// A decimal numeral and its value.
    Number(i64),
    /// An operator standing alone.
    Symbol(Operator),
    /// An opening parenthesis.
    Open,
    /// A closing parenthesis.
    Close,
}

/// The characters that end a word.
pub open spec fn is_separator(c: char) -> bool {
    c == ' ' || c == '(' || c == ')'
}

/// The length of the run of characters at the start of `s` that are not
/// separators.
pub open spec fn word_len(s: Seq<char>) -> nat
    decreases s.len(),
{
    if s.len() == 0 || is_separator(s[0]) {
        0
    } else {
        1 + word_len(s.skip(1))
    }
}

/// The token that a word spells: a single operator character, or a run of
/// digits with a value up to `LIMIT`.
pub open spec fn word_token(w: Seq<char>) -> Option<Token> {
    if w.len() == 1 && operator_of(w[0]) is Some {
        Some(Token::Symbol(operator_of(w[0])->0))
    } else if w.len() > 0 && all_digits(w) && number_value(w) <= LIMIT {
        Some(Token::Number(number_value(w) as i64))
    } else {
        None
    }
}

/// Puts a token in front of the tokens of what follows it, if what follows
/// has tokens.
pub open spec fn prepend(t: Token, rest: Option<Seq<Token>>) -> Option<Seq<Token>> {
    match rest {
        Some(r) => Some(seq![t] + r),
        None => None,
    }
}

/// The tokens of a text; none if one of its words spells no token.
pub open spec fn tokens(s: Seq<char>) -> Option<Seq<Token>>
    decreases s.len(),
    via tokens_terminates
{
    if s.len() == 0 {
        Some(Seq::empty())
    } else if s[0] == ' ' {
        tokens(s.skip(1))
    } else if s[0] == '(' {
        prepend(Token::Open, tokens(s.skip(1)))
    } else if s[0] == ')' {
        prepend(Token::Close, tokens(s.skip(1)))
    } else {
        let k = word_len(s) as int;
        match word_token(s.take(k)) {
            Some(t) => prepend(t, tokens(s.skip(k))),
            None => None,
        }
    }
}

#[via_fn]
proof fn tokens_terminates(s: Seq<char>) {
    lemma_word_len_bound(s);
}

/// The tokens read so far, followed by those of the rest.
pub open spec fn joined(done: Seq<Token>, rest: Option<Seq<Token>>) -> Option<Seq<Token>> {
    match rest {
        Some(r) => Some(done + r),
        None => None,
    }
}

/// A word lies within its text.
pub proof fn lemma_word_len_bound(s: Seq<char>)
    ensures
        word_len(s) <= s.len(),
    decreases s.len(),
{
    if !(s.len() == 0 || is_separator(s[0])) {
        lemma_word_len_bound(s.skip(1));
    }
}

/// A space before a text adds no token.
pub proof fn lemma_tokens_space(rest: Seq<char>)
    ensures
        tokens(seq![' '] + rest) == tokens(rest),
{
    assert((seq![' '] + rest).skip(1) =~= rest);
}

/// An opening parenthesis before a text adds its token.
pub proof fn lemma_tokens_open(rest: Seq<char>)
    ensures
        tokens(seq!['('] + rest) == prepend(Token::Open, tokens(rest)),
{
    assert((seq!['('] + rest).skip(1) =~= rest);
}

/// A closing parenthesis before a text adds its token.
pub proof fn lemma_tokens_close(rest: Seq<char>)
    ensures
        tokens(seq![')'] + rest) == prepend(Token::Close, tokens(rest)),
{
    assert((seq![')'] + rest).skip(1) =~= rest);
}

/// A run without separators, before the end or a separator, is one word.
pub proof fn lemma_word_len_run(w: Seq<char>, rest: Seq<char>)
    requires
        forall|i: int| 0 <= i < w.len() ==> !is_separator(#[trigger] w[i]),
        rest.len() == 0 || is_separator(rest[0]),
    ensures
        word_len(w + rest) == w.len(),
    decreases w.len(),
{
    if w.len() > 0 {
        assert((w + rest).skip(1) =~= w.skip(1) + rest);
        lemma_word_len_run(w.skip(1), rest);
    }
}

/// A word before the end or a separator adds its token.
pub proof fn lemma_tokens_word(w: Seq<char>, rest: Seq<char>)
    requires
        w.len() > 0,
        forall|i: int| 0 <= i < w.len() ==> !is_separator(#[trigger] w[i]),
        rest.len() == 0 || is_separator(rest[0]),
    ensures
        tokens(w + rest) == match word_token(w) {
            Some(t) => prepend(t, tokens(rest)),
            None => None,
        },
{
    let s = w + rest;
    lemma_word_len_run(w, rest);
    assert(s.take(w.len() as int) =~= w);
    assert(s.skip(w.len() as int) =~= rest);
}

/// Splits expression text into tokens.
pub fn tokenize(text: &str) -> (r: Option<Vec<Token>>)
    ensures
        match r {
            Some(v) => tokens(text@) == Some(v@),
            None => tokens(text@) is None,
        },
{
    let chars = chars_of(text);
    let n: usize = chars.len();
    let mut out: Vec<Token> = Vec::new();
    let mut i: usize = 0;
    proof {
        assert(chars@.skip(0) =~= chars@);
    }
    while i < n
        invariant
            i <= n == chars.len(),
            chars@ == text@,
            tokens(chars@) == joined(out@, tokens(chars@.skip(i as int))),
        decreases n - i,
    {
        let c: char = chars[i];
        let ghost rest = chars@.skip(i as int);
        proof {
            assert(rest.skip(1) =~= chars@.skip(i + 1));
        }
        if c == ' ' {
            i = i + 1;
        } else if c == '(' || c == ')' {
            let t = if c == '(' { Token::Open } else { Token::Close };
            proof {
                assert(tokens(rest) == prepend(t, tokens(chars@.skip(i + 1))));
            }
            out.push(t);
            i = i + 1;
        } else {
            let mut e: usize = i + 1;
            while e < n && chars[e] != ' ' && chars[e] != '(' && chars[e] != ')'
                invariant
                    i < e <= n == chars.len(),
                    word_len(chars@.skip(i as int)) == (e - i) + word_len(chars@.skip(e as int)),
                decreases n - e,
            {
                proof {
                    assert(chars@.skip(e as int).skip(1) =~= chars@.skip(e + 1));
                }
                e = e + 1;
            }
            proof {
                assert(rest.take(e - i) =~= chars@.subrange(i as int, e as int));
                assert(rest.skip(e - i) =~= chars@.skip(e as int));
            }
            let found: Option<Token> = if e - i == 1 && Operator::from_char(c).is_some() {
                Some(Token::Symbol(Operator::from_char(c).unwrap()))
            } else {
                match read_number(&chars, i, e) {
                    Some(v) => if v <= 0x7fff_ffff_ffff_ffffu64 {
                        Some(Token::Number(v as i64))
                    } else {
                        None
                    },
                    None => None,
                }
            };
            match found {
                None => {
                    return None;
                },
                Some(t) => {
                    proof {
                        assert(tokens(rest) == prepend(t, tokens(chars@.skip(e as int))));
                    }
                    out.push(t);
                    i = e;
                },
            }
        }
    }
    Some(out)
}

/// The first place at which `tokens` holds `wanted`.
fn first_place(tokens: &Vec<Token>, wanted: Token) -> (r: Option<usize>)
    ensures
        match r {
            Some(i) => i < tokens.len() && tokens@[i as int] == wanted && forall|j: int|
                0 <= j < i ==> tokens@[j] != wanted,
            None => forall|j: int| 0 <= j < tokens.len() ==> tokens@[j] != wanted,
        },
{
    let mut i: usize = 0;
    while i < tokens.len()
        invariant
            i <= tokens.len(),
            forall|j: int| 0 <= j < i ==> tokens@[j] != wanted,
        decreases tokens.len() - i,
    {
        if tokens[i] == wanted {
            return Some(i);
        }
        i = i + 1;
    }
    None
}

/// The last place at which `tokens` holds `wanted`.
fn last_place(tokens: &Vec<Token>, wanted: Token) -> (r: Option<usize>)
    ensures
        match r {
            Some(i) => i < tokens.len() && tokens@[i as int] == wanted && forall|j: int|
                i < j < tokens.len() ==> tokens@[j] != wanted,
            None => forall|j: int| 0 <= j < tokens.len() ==> tokens@[j] != wanted,
        },
{
    let mut i: usize = tokens.len();
    while i > 0
        invariant
            i <= tokens.len(),
            forall|j: int| i <= j < tokens.len() ==> tokens@[j] != wanted,
        decreases i,
    {
        i = i - 1;
        if tokens[i] == wanted {
            return Some(i);
        }
    }
    None
}

/// The place of the first opening parenthesis and the place of the last
/// closing one. The two need not belong together: in `(3 + 4) * (2 - 1)`
/// they are the first and the last token.
pub fn find_parentheses_indices(tokens: &Vec<Token>) -> (r: (Option<usize>, Option<usize>))
    ensures
        match r.0 {
            Some(i) => i < tokens.len() && tokens@[i as int] == Token::Open && forall|j: int|
                0 <= j < i ==> tokens@[j] != Token::Open,
            None => forall|j: int| 0 <= j < tokens.len() ==> tokens@[j] != Token::Open,
        },
        match r.1 {
            Some(i) => i < tokens.len() && tokens@[i as int] == Token::Close && forall|j: int|
                i < j < tokens.len() ==> tokens@[j] != Token::Close,
            None => forall|j: int| 0 <= j < tokens.len() ==> tokens@[j] != Token::Close,
        },
{
    (first_place(tokens, Token::Open), last_place(tokens, Token::Close))
}

} // verus!
