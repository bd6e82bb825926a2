use quiz_app::config::Config;
use quiz_app::points::Points;
use quiz_app::question::{Answer, Question};
use quiz_app::quiz::Quiz;
use quiz_app::grading::{
    correct_places_of, grade_choice, grade_typed, parse_selection, selection_matches, session_score,
    typed_answer_matches, Response,
};
use quiz_app::order::{answer_order, question_order, session_order, shuffle, shuffle_with};

fn question(ordered: bool, answers: Vec<Answer>) -> Question {
    Question { title: "t".to_owned(), answers, config: Config { ordered, ..Config::default() } }
}

#[test]
fn shuffle_with_follows_the_draws() {
    let mut v = vec![10, 20, 30, 40];
    // i = 0: 5 % 4 = 1 -> swap 0,1; i = 1: 0 % 3 = 0 -> stay; i = 2: 3 % 2 = 1 -> swap 2,3
    shuffle_with(&mut v, &vec![5, 0, 3]);
    assert_eq!(v, vec![20, 10, 40, 30]);
}

#[test]
fn shuffle_with_zero_draws_keeps_order() {
    let mut v = vec!['a', 'b', 'c'];
    shuffle_with(&mut v, &vec![0, 0]);
    assert_eq!(v, vec!['a', 'b', 'c']);
    let mut e: Vec<u8> = vec![];
    shuffle_with(&mut e, &vec![]);
    assert!(e.is_empty());
}

#[test]
fn shuffle_is_a_permutation() {
    let mut v: Vec<u32> = (0..50).collect();
    shuffle(&mut v);
    let mut sorted = v.clone();
    sorted.sort();
    assert_eq!(sorted, (0..50).collect::<Vec<u32>>());
}

#[test]
fn question_order_puts_kept_questions_last() {
    let qs = vec![
        question(true, vec![Answer::Correct("a".to_owned())]),
        question(false, vec![Answer::Correct("b".to_owned())]),
        question(true, vec![Answer::Correct("c".to_owned())]),
        question(false, vec![Answer::Correct("d".to_owned())]),
        question(false, vec![Answer::Correct("e".to_owned())]),
    ];
    // free positions [1, 3, 4]; i = 0: 1 % 3 = 1 -> swap 0,1 -> [3, 1, 4]; i = 1: 1 % 2 = 1 -> swap 1,2 -> [3, 4, 1]
    assert_eq!(question_order(&qs, &vec![1, 1, 0, 0]), vec![3, 4, 1, 0, 2]);
    assert_eq!(question_order(&qs, &vec![0, 0, 0, 0]), vec![1, 3, 4, 0, 2]);
}

#[test]
fn session_order_asks_each_question_once() {
    let qs = vec![
        question(false, vec![Answer::Correct("a".to_owned())]),
        question(true, vec![Answer::Correct("b".to_owned())]),
        question(false, vec![Answer::Correct("c".to_owned())]),
        question(true, vec![Answer::Correct("d".to_owned())]),
    ];
    let order = session_order(&qs);
    assert_eq!(&order[2..], &[1, 3]);
    let mut front = order[..2].to_vec();
    front.sort();
    assert_eq!(front, vec![0, 2]);
}

#[test]
fn typed_answers_fold_case_unless_case_sensitive() {
    let mut q = question(true, vec![Answer::Correct("Paris".to_owned())]);
    assert!(grade_typed(&q, "  paris \n"));
    assert!(grade_typed(&q, "PARIS"));
    assert!(!grade_typed(&q, "Lyon"));
    q.config.case_sensitive = true;
    assert!(grade_typed(&q, "Paris\n"));
    assert!(!grade_typed(&q, "paris"));
}

#[test]
fn typed_answer_matches_trims_the_response_only() {
    assert!(typed_answer_matches("a b", "  a b\t\n"));
    assert!(!typed_answer_matches(" a", "a"));
    assert!(!typed_answer_matches("ab", "a"));
}

#[test]
fn selection_reads_numbers_between_separators() {
    assert_eq!(parse_selection("0 2,3;4.5\n"), vec![0, 2, 3, 4, 5]);
    assert_eq!(parse_selection("1, x, +2 ,-3"), vec![1, 2]);
    assert_eq!(parse_selection(""), Vec::<usize>::new());
    assert_eq!(parse_selection("99999999999999999999999 7"), vec![7]);
}

#[test]
fn selection_is_compared_as_a_set() {
    assert!(selection_matches(&vec![2, 0], &vec![0, 2]));
    assert!(selection_matches(&vec![0, 0, 2], &vec![0, 2]));
    assert!(!selection_matches(&vec![0], &vec![0, 2]));
    assert!(!selection_matches(&vec![0, 1, 2], &vec![0, 2]));
    assert!(selection_matches(&vec![], &vec![]));
}

#[test]
fn choice_grading_uses_shown_places() {
    let q = question(
        true,
        vec![
            Answer::Correct("a".to_owned()),
            Answer::Incorrect("b".to_owned()),
            Answer::Correct("c".to_owned()),
        ],
    );
    let order = vec![1, 2, 0];
    assert_eq!(correct_places_of(&q, &order), vec![1, 2]);
    assert!(grade_choice(&q, &order, "2 1\n"));
    assert!(grade_choice(&q, &order, "1,1,2"));
    assert!(!grade_choice(&q, &order, "1"));
    assert!(!grade_choice(&q, &order, "0 1 2"));
    assert!(!grade_choice(&q, &order, "0 2"));
}

#[test]
fn answer_order_keeps_written_order_when_asked() {
    let mut q = question(
        true,
        vec![Answer::Correct("a".to_owned()), Answer::Incorrect("b".to_owned()), Answer::Incorrect("c".to_owned())],
    );
    assert_eq!(answer_order(&q), vec![0, 1, 2]);
    q.config.ordered_answers = false;
    let mut shown = answer_order(&q);
    shown.sort();
    assert_eq!(shown, vec![0, 1, 2]);
}

#[test]
fn session_score_adds_values_of_right_answers() {
    let quiz = Quiz::parse("?a\n+x\n\n;value: 2.5\n?b\n+y\n\n;value: 4\n?c\n+z").expect("should parse");
    assert_eq!(quiz.total_score, Points::from_micros(7_500_000));
    let score = session_score(&quiz, &vec![2, 0, 1], &vec![true, false, true]);
    assert_eq!(score, Points::from_micros(6_500_000));
    assert_eq!(session_score(&quiz, &vec![0, 1, 2], &vec![false, false, false]), Points::zero());
}

#[test]
fn response_keeps_last_line_before_blank() {
    let mut r = Response::new();
    r.take_line("first\n".to_owned());
    assert!(!r.done);
    r.take_line("second\n".to_owned());
    assert_eq!(r.text, "second\n");
    r.take_line("   \n".to_owned());
    assert!(r.done);
    assert_eq!(r.text, "second\n");
}

#[test]
fn response_blank_first_line_is_empty() {
    let mut r = Response::new();
    r.take_line("\n".to_owned());
    assert!(r.done);
    assert_eq!(r.text, "");
}

#[test]
fn points_arithmetic() {
    assert_eq!(Points::whole(3).add(Points::from_micros(250_000)), Points::from_micros(3_250_000));
    assert_eq!(Points::whole(-1).micros, -1_000_000);
}

#[test]
fn single_correct_counts_correct_answers() {
    let one = question(true, vec![Answer::Correct("a".to_owned()), Answer::Incorrect("b".to_owned())]);
    let two = question(true, vec![Answer::Correct("a".to_owned()), Answer::Correct("b".to_owned())]);
    assert!(quiz_app::grading::single_correct(&one));
    assert!(!quiz_app::grading::single_correct(&two));
}
