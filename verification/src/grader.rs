//! Grading: the answer that a submission ends with is held against the
//! canonical answer, character by character.

use vstd::prelude::*;
use crate::canonical::canonical_text;
use crate::rational::Rational;
use crate::text::chars_of;

verus! {

/// The indices of the exercises that were answered correctly and of those
/// that were answered wrongly, each in the order of the exercises.
#[derive(Debug, PartialEq, Eq)]
pub struct GradeReport {
    pub correct_indices: Vec<usize>,
    pub incorrect_indices: Vec<usize>,
}

/// What follows the last space of a text: the whole text if it has no
/// space, nothing if it ends with one.
pub open spec fn trailing_token(s: Seq<char>) -> Seq<char>
    decreases s.len(),
{
    if s.len() == 0 || s.last() == ' ' {
        Seq::empty()
    } else {
        trailing_token(s.drop_last()).push(s.last())
    }
}

/// The text of the first submission that carries `index`.
pub open spec fn submitted(subs: Seq<(usize, String)>, index: usize) -> Option<Seq<char>>
    decreases subs.len(),
{
    if subs.len() == 0 {
        None
    } else if subs[0].0 == index {
        Some(subs[0].1@)
    } else {
        submitted(subs.skip(1), index)
    }
}

/// Whether a submitted text gives the canonical answer.
pub open spec fn answers(text: Seq<char>, answer: Rational) -> bool {
    trailing_token(text) == canonical_text(answer@)
}

/// The correct and the incorrect indices among `exercises`: an exercise
/// without a submission is in neither list.
pub open spec fn graded(exercises: Seq<(usize, Rational)>, subs: Seq<(usize, String)>) -> (
    Seq<usize>,
    Seq<usize>,
)
    decreases exercises.len(),
{
    if exercises.len() == 0 {
        (Seq::empty(), Seq::empty())
    } else {
        let before = graded(exercises.drop_last(), subs);
        let (index, answer) = exercises.last();
        match submitted(subs, index) {
            None => before,
            Some(text) => if answers(text, answer) {
                (before.0.push(index), before.1)
            } else {
                (before.0, before.1.push(index))
            },
        }
    }
}

/// The length of the trailing token of `chars`.
fn trailing_len(chars: &Vec<char>) -> (k: usize)
    ensures
        k <= chars.len(),
        trailing_token(chars@) == chars@.subrange(chars.len() - k, chars.len() as int),
{
    let n: usize = chars.len();
    let mut k: usize = 0;
    while k < n && chars[n - 1 - k] != ' '
        invariant
            k <= n == chars.len(),
            forall|j: int| n - k <= j < n ==> chars@[j] != ' ',
        decreases n - k,
    {
        k = k + 1;
    }
    proof {
        lemma_trailing_token(chars@, k as int);
    }
    k
}

/// A suffix without a space, after a space or at the start, is the
/// trailing token.
proof fn lemma_trailing_token(s: Seq<char>, k: int)
    requires
        0 <= k <= s.len(),
        forall|j: int| s.len() - k <= j < s.len() ==> s[j] != ' ',
        k < s.len() ==> s[s.len() - 1 - k] == ' ',
    ensures
        trailing_token(s) == s.subrange(s.len() - k, s.len() as int),
    decreases k,
{
    if k > 0 {
        lemma_trailing_token(s.drop_last(), k - 1);
    }
}

/// The trailing token of a text.
pub fn last_token(text: &str) -> (token: String)
    ensures
        token@ == trailing_token(text@),
{
    let chars = chars_of(text);
    let n: usize = chars.len();
    let k = trailing_len(&chars);
    let mut out = String::new();
    let mut i: usize = n - k;
    while i < n
        invariant
            k <= n,
            n - k <= i <= n == chars.len(),
            out@ == chars@.subrange(n - k, i as int),
        decreases n - i,
    {
        out.push(chars[i]);
        i = i + 1;
    }
    out
}

/// The place of the first submission that carries `index`.
fn find_submission(subs: &Vec<(usize, String)>, index: usize) -> (r: Option<usize>)
    ensures
        match r {
            Some(j) => j < subs.len() && submitted(subs@, index) == Some(subs@[j as int].1@),
            None => submitted(subs@, index) is None,
        },
{
    let mut j: usize = 0;
    proof {
        assert(subs@.skip(0) =~= subs@);
    }
    while j < subs.len()
        invariant
            j <= subs.len(),
            submitted(subs@, index) == submitted(subs@.skip(j as int), index),
        decreases subs.len() - j,
    {
        proof {
            assert(subs@.skip(j as int).skip(1) =~= subs@.skip(j + 1));
        }
        if subs[j].0 == index {
            return Some(j);
        }
        j = j + 1;
    }
    None
}

/// Grades submissions against canonical answers. Each exercise is held
/// against the first submission that carries its index; the comparison is
/// of spellings, not of values.
pub fn grade(
    exercises: &Vec<(usize, Rational)>,
    submissions: &Vec<(usize, String)>,
) -> (report: GradeReport)
    ensures
        (report.correct_indices@, report.incorrect_indices@) == graded(
            exercises@,
            submissions@,
        ),
{
    let mut correct: Vec<usize> = Vec::new();
    let mut incorrect: Vec<usize> = Vec::new();
    let mut i: usize = 0;
    while i < exercises.len()
        invariant
            i <= exercises.len(),
            (correct@, incorrect@) == graded(exercises@.take(i as int), submissions@),
        decreases exercises.len() - i,
    {
        let index: usize = exercises[i].0;
        proof {
            assert(exercises@.take(i + 1).drop_last() =~= exercises@.take(i as int));
        }
        match find_submission(submissions, index) {
            None => {},
            Some(j) => {
                let given = last_token(submissions[j].1.as_str());
                let expected = exercises[i].1.to_canonical_string();
                if given == expected {
                    correct.push(index);
                } else {
                    incorrect.push(index);
                }
            },
        }
        i = i + 1;
    }
    proof {
        assert(exercises@.take(exercises.len() as int) =~= exercises@);
    }
    GradeReport { correct_indices: correct, incorrect_indices: incorrect }
}

} // verus!
