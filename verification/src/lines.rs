//! The lines of an exercise file and of an answer file. An exercise line is
//! an index, a period, a space, the expression and a closing `=`; an
//! answer line ends with the answer.

use vstd::prelude::*;
use regex::Regex;
use crate::grader::{last_token, trailing_token, GradeReport};
use crate::canonical::canonical_text;
use crate::parser::{evaluate, text_outcome};
use crate::text::chars_of;

verus! {

/// The pattern of an index: a run of digits, a period and a space.
pub open spec fn index_pattern_text() -> Seq<char> {
    seq!['\\', 'd', '+', '\\', '.', ' ']
}

/// The pattern of an index, as text for the pattern matcher.
pub fn index_pattern() -> (pattern: &'static str)
    ensures
        pattern@ == index_pattern_text(),
{
    proof {
        reveal_strlit("\\d+\\. ");
    }
    "\\d+\\. "
}

/// What follows the leftmost match of a pattern in a line. None if the
/// line has no match, and none if the text is not a pattern.
pub uninterp spec fn text_after_match(pattern: Seq<char>, line: Seq<char>) -> Option<
    Seq<char>,
>;

/// `Regex::new` on the pattern, then `Regex::splitn` on the line with a
/// limit of two pieces: the second piece, which is all of the line behind
/// the leftmost match, or none where nothing matches and the line is the
/// only piece. None also where `Regex::new` refuses the pattern.
#[verifier::external_body]
fn after_match(pattern: &str, line: &str) -> (r: Option<String>)
    ensures
        r is Some <==> text_after_match(pattern@, line@) is Some,
        r matches Some(rest) ==> text_after_match(pattern@, line@) == Some(rest@),
{
    match Regex::new(pattern) {
        Ok(compiled) => compiled.splitn(line, 2).nth(1).map(|rest| rest.to_string()),
        Err(_) => None,
    }
}

/// The length of a text without the spaces at its end.
pub open spec fn content_len(s: Seq<char>) -> nat
    decreases s.len(),
{
    if s.len() > 0 && s.last() == ' ' {
        content_len(s.drop_last())
    } else {
        s.len()
    }
}

/// An exercise line without its closing `=` and the spaces behind it;
/// none if the line does not close with `=`.
pub open spec fn question_body(line: Seq<char>) -> Option<Seq<char>> {
    let n = content_len(line) as int;
    if n > 0 && line[n - 1] == '=' {
        Some(line.take(n - 1))
    } else {
        None
    }
}

/// The expression of an exercise line: what stands between the index and
/// the closing `=`.
pub open spec fn line_expression(line: Seq<char>) -> Option<Seq<char>> {
    match question_body(line) {
        Some(body) => text_after_match(index_pattern_text(), body),
        None => None,
    }
}

/// Whether an answer line gives the canonical answer to an expression;
/// none if the expression has no value.
pub open spec fn answer_verdict(expression: Seq<char>, answer_line: Seq<char>) -> Option<bool> {
    match text_outcome(expression) {
        Ok(v) => Some(trailing_token(answer_line) == canonical_text(v)),
        Err(_) => None,
    }
}

/// Whether an answer line answers an exercise line; none if the exercise
/// line holds no expression with a value.
pub open spec fn line_verdict(exercise_line: Seq<char>, answer_line: Seq<char>) -> Option<bool> {
    match line_expression(exercise_line) {
        Some(expression) => answer_verdict(expression, answer_line),
        None => None,
    }
}

/// The correct and the incorrect ones among the first `n` lines, counted
/// from one. A line without a verdict is in neither list.
pub open spec fn graded_lines(exercises: Seq<String>, answers: Seq<String>, n: nat) -> (
    Seq<usize>,
    Seq<usize>,
)
    decreases n,
{
    if n == 0 {
        (Seq::empty(), Seq::empty())
    } else {
        let before = graded_lines(exercises, answers, (n - 1) as nat);
        match line_verdict(exercises[n - 1]@, answers[n - 1]@) {
            None => before,
            Some(true) => (before.0.push(n as usize), before.1),
            Some(false) => (before.0, before.1.push(n as usize)),
        }
    }
}

/// The length of `chars` without the spaces at its end.
fn content_end(chars: &Vec<char>) -> (n: usize)
    ensures
        n == content_len(chars@),
        n <= chars.len(),
{
    let mut n: usize = chars.len();
    proof {
        assert(chars@.take(n as int) =~= chars@);
    }
    while n > 0 && chars[n - 1] == ' '
        invariant
            n <= chars.len(),
            content_len(chars@) == content_len(chars@.take(n as int)),
        decreases n,
    {
        proof {
            assert(chars@.take(n as int).drop_last() =~= chars@.take(n - 1));
        }
        n = n - 1;
    }
    n
}

/// The expression of an exercise line.
pub fn exercise_expression(line: &str) -> (r: Option<String>)
    ensures
        r is Some <==> line_expression(line@) is Some,
        r matches Some(expression) ==> line_expression(line@) == Some(expression@),
{
    let chars = chars_of(line);
    let n = content_end(&chars);
    if n == 0 || chars[n - 1] != '=' {
        return None;
    }
    let mut body = String::new();
    let mut i: usize = 0;
    while i < n - 1
        invariant
            i <= n - 1 < chars.len(),
            body@ == chars@.take(i as int),
        decreases n - 1 - i,
    {
        body.push(chars[i]);
        i = i + 1;
    }
    after_match(index_pattern(), body.as_str())
}

/// Whether an answer line gives the canonical answer to an expression.
pub fn grade_answer(expression: &str, answer_line: &str) -> (r: Option<bool>)
    ensures
        r == answer_verdict(expression@, answer_line@),
{
    match evaluate(expression) {
        Ok(value) => {
            let expected = value.to_canonical_string();
            let given = last_token(answer_line);
            Some(given == expected)
        },
        Err(_) => None,
    }
}

/// Grades answer lines against exercise lines, pairing them by their
/// place. Lines beyond the shorter list, and exercise lines that hold no
/// expression with a value, are passed over.
pub fn grade_lines(exercises: &Vec<String>, answers: &Vec<String>) -> (report: GradeReport)
    ensures
        (report.correct_indices@, report.incorrect_indices@) == graded_lines(
            exercises@,
            answers@,
            if exercises.len() <= answers.len() {
                exercises.len() as nat
            } else {
                answers.len() as nat
            },
        ),
{
    let count: usize = if exercises.len() <= answers.len() {
        exercises.len()
    } else {
        answers.len()
    };
    let mut correct: Vec<usize> = Vec::new();
    let mut incorrect: Vec<usize> = Vec::new();
    let mut i: usize = 0;
    while i < count
        invariant
            i <= count,
            count <= exercises.len(),
            count <= answers.len(),
            (correct@, incorrect@) == graded_lines(exercises@, answers@, i as nat),
        decreases count - i,
    {
        let verdict = match exercise_expression(exercises[i].as_str()) {
            Some(expression) => grade_answer(expression.as_str(), answers[i].as_str()),
            None => None,
        };
        match verdict {
            Some(true) => {
                correct.push(i + 1);
            },
            Some(false) => {
                incorrect.push(i + 1);
            },
            None => {},
        }
        i = i + 1;
    }
    GradeReport { correct_indices: correct, incorrect_indices: incorrect }
}

} // verus!
