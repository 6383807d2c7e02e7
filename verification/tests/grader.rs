use miniopgenerator::grader::{grade, last_token, GradeReport};
use miniopgenerator::lines::{exercise_expression, grade_answer, grade_lines};
use miniopgenerator::rational::Rational;

fn lines(texts: &[&str]) -> Vec<String> {
    texts.iter().map(|t| t.to_string()).collect()
}

fn report(correct: &[usize], incorrect: &[usize]) -> GradeReport {
    GradeReport { correct_indices: correct.to_vec(), incorrect_indices: incorrect.to_vec() }
}

#[test]
fn last_token_follows_the_last_space() {
    assert_eq!(last_token("1. 2 + 3 = 5"), "5");
    assert_eq!(last_token("1'1/2"), "1'1/2");
    assert_eq!(last_token("1. 2 + 3 = "), "");
    assert_eq!(last_token(""), "");
    assert_eq!(last_token("a  b"), "b");
}

#[test]
fn exercise_expression_strips_index_and_equals_sign() {
    assert_eq!(exercise_expression("1. 2 + 3 ="), Some("2 + 3 ".to_string()));
    assert_eq!(exercise_expression("12. 6 / 4 =   "), Some("6 / 4 ".to_string()));
    assert_eq!(exercise_expression("1. 2 + 3 = "), Some("2 + 3 ".to_string()));
    assert_eq!(exercise_expression("x 7. (1 + 2) * 3 ="), Some("(1 + 2) * 3 ".to_string()));
}

#[test]
fn index_pattern_is_digits_period_space() {
    assert_eq!(miniopgenerator::lines::index_pattern(), "\\d+\\. ");
}

#[test]
fn exercise_expression_needs_index_and_equals_sign() {
    assert_eq!(exercise_expression("1. 2 + 3"), None);
    assert_eq!(exercise_expression("2 + 3 ="), None);
    assert_eq!(exercise_expression("1.2 + 3 ="), None);
    assert_eq!(exercise_expression(""), None);
    assert_eq!(exercise_expression("="), None);
    assert_eq!(exercise_expression("   "), None);
}

#[test]
fn grade_answer_compares_spellings() {
    assert_eq!(grade_answer("6 / 4", "2. 6 / 4 = 1'1/2"), Some(true));
    assert_eq!(grade_answer("6 / 4", "2. 6 / 4 = 3/2"), Some(false));
    assert_eq!(grade_answer("6 / 4", "2. 6 / 4 = "), Some(false));
    assert_eq!(grade_answer("6 / 4", "1'1/2"), Some(true));
    assert_eq!(grade_answer("6 / 0", "1"), None);
    assert_eq!(grade_answer("6 /", "1"), None);
}

#[test]
fn grading_scenario_all_correct() {
    let exercises = lines(&["1. 2 + 3 =", "2. 6 / 4 ="]);
    let answers = lines(&["1. 2 + 3 = 5", "2. 6 / 4 = 1'1/2"]);
    assert_eq!(grade_lines(&exercises, &answers), report(&[1, 2], &[]));
}

#[test]
fn grading_scenario_equal_value_in_another_spelling() {
    let exercises = lines(&["1. 2 + 3 =", "2. 6 / 4 ="]);
    let answers = lines(&["1. 2 + 3 = 5", "2. 6 / 4 = 3/2"]);
    assert_eq!(grade_lines(&exercises, &answers), report(&[1], &[2]));
}

#[test]
fn grade_lines_passes_over_what_it_cannot_grade() {
    let exercises = lines(&["1. 2 + 3 =", "no exercise", "3. 4 / 0 =", "4. 7 - 3 = ", "5. 1 + 1 ="]);
    let answers = lines(&["1. 2 + 3 = 6", "2. x", "3. 4 / 0 = 0", "4. 7 - 3 = 4"]);
    assert_eq!(grade_lines(&exercises, &answers), report(&[4], &[1]));
    assert_eq!(grade_lines(&vec![], &answers), report(&[], &[]));
}

#[test]
fn grade_pairs_by_index() {
    let exercises = vec![
        (1, Rational::from_integer(5)),
        (2, Rational::new(3, 2).unwrap()),
        (3, Rational::from_integer(0)),
        (4, Rational::new(-1, 2).unwrap()),
    ];
    let submissions = vec![
        (4, "4. 1 / 2 - 1 = -1/2".to_string()),
        (2, "2. 6 / 4 = 3/2".to_string()),
        (1, "5".to_string()),
        (1, "6".to_string()),
        (9, "0".to_string()),
    ];
    assert_eq!(grade(&exercises, &submissions), report(&[1, 4], &[2]));
    assert_eq!(grade(&exercises, &vec![]), report(&[], &[]));
    assert_eq!(grade(&vec![], &submissions), report(&[], &[]));
}
