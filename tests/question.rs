use quiz_app::config::{Config, ConfigErrorKind};
use quiz_app::points::Points;
use quiz_app::question::{segment_answers, to_context_string, Answer, Question, QuestionError, QuestionErrorKind};

#[test]
fn question_empty() {
    let res = Question::parse_str(&Config::default(), "").expect_err("empty question should err with only config");

    let expected = QuestionError {
        kind: QuestionErrorKind::OnlyConfig,
        lines_parsed: 0,
        context: "".to_owned(),
    };

    assert_eq!(res, expected)
}

#[test]
fn question_only_config() {
    let res = Question::parse_str(&Config::default(), ";value: 0\n;tutorial: false\n#comment\n").expect_err("config-only question should err with only config");

    let expected = QuestionError {
        kind: QuestionErrorKind::OnlyConfig,
        lines_parsed: 3,
        context: "".to_owned(),
    };

    assert_eq!(res, expected)
}

#[test]
fn question_config_error() {
    let inputs = &[
        "#comment\nvalue: missing-delimiter\n? question\n",
        ";invalid-option\n? question\n",
        ";value: invalid-value\n? question\n",
    ];

    for input in inputs {
        let res = Question::parse_str(&Config::default(), input).expect_err("invalid config should err with ConfigError");

        let config_err = Config::parse_str(&Config::default(), input).expect_err("config should err");

        let expected = QuestionError {
            lines_parsed: config_err.lines_parsed,
            kind: QuestionErrorKind::ConfigError(config_err),
            context: "question".to_owned(),
        };

        assert_eq!(res, expected)
    }
}

#[test]
fn question_missing_delimiter() {
    let res = Question::parse_str(&Config::default(), "question\n").expect_err("`?`-less question should err with missing delimiter");

    let expected = QuestionError {
        kind: QuestionErrorKind::MissingDelimiter,
        lines_parsed: 0,
        context: "".to_owned(),
    };

    assert_eq!(res, expected)
}

#[test]
fn question_no_answers() {
    let res = Question::parse_str(&Config::default(), "?question\n").expect_err("answerless question should err with no correct answer");

    let expected = QuestionError {
        kind: QuestionErrorKind::NoCorrectAnswer,
        lines_parsed: 0,
        context: "question".to_owned(),
    };

    assert_eq!(res, expected)
}

#[test]
fn question_no_correct_answer() {
    let res = Question::parse_str(&Config::default(), "?question\n- inc-answer\n").expect_err("correct-answer-less question should err with no correct answer");

    let expected = QuestionError {
        kind: QuestionErrorKind::NoCorrectAnswer,
        lines_parsed: 0,
        context: "question".to_owned(),
    };

    assert_eq!(res, expected)
}

#[test]
fn question_typed() {
    let res = Question::parse_str(&Config::default(), "?question\n+answer\n").expect("typed-answer question should parse");

    let expected = Question {
        title: "question".to_owned(),
        config: Config::default(),
        answers: vec![Answer::Correct("answer".to_owned())],
    };

    assert_eq!(res, expected)
}

#[test]
fn question_multiple_choice() {
    let res = Question::parse_str(&Config::default(), "?question\n+answer\n-incorrect\n-also incorrect").expect("multiple-choice question should parse");

    let expected = Question {
        title: "question".to_owned(),
        config: Config::default(),
        answers: vec![
            Answer::Correct("answer".to_owned()),
            Answer::Incorrect("incorrect".to_owned()),
            Answer::Incorrect("also incorrect".to_owned()),
        ],
    };

    assert_eq!(res, expected)
}

#[test]
fn question_multiple_answer() {
    let res = Question::parse_str(&Config::default(), "?question\n+answer\n-incorrect\n+also correct").expect("multiple-answer question should parse");

    let expected = Question {
        title: "question".to_owned(),
        config: Config::default(),
        answers: vec![
            Answer::Correct("answer".to_owned()),
            Answer::Incorrect("incorrect".to_owned()),
            Answer::Correct("also correct".to_owned()),
        ],
    };

    assert_eq!(res, expected)
}

#[test]
fn question_multiline_title_and_answers_are_folded() {
    let res = Question::parse_str(&Config::default(), "?first line\r\nsecond line\n+right\nstill right\n-wrong  \n  and more")
        .expect("question should parse");
    assert_eq!(res.title, "first line second line");
    assert_eq!(
        res.answers,
        vec![
            Answer::Correct("right still right".to_owned()),
            Answer::Incorrect("wrong     and more".to_owned()),
        ]
    );
}

#[test]
fn question_config_before_marker_applies_over_base() {
    let base = Config { tutorial: false, ..Config::default() };
    let res = Question::parse_str(&base, "# a comment\n;value: 4\n;case-sensitive: true\n?title\n+yes")
        .expect("question should parse");
    assert_eq!(res.config, Config { value: Points::whole(4), case_sensitive: true, tutorial: false, ..Config::default() });
    assert_eq!(res.title, "title");
}

#[test]
fn question_no_correct_answer_counts_config_lines() {
    let res = Question::parse_str(&Config::default(), ";value: 2\n# note\n?title\n-no\n-nope").expect_err("should fail");
    let expected = QuestionError { kind: QuestionErrorKind::NoCorrectAnswer, lines_parsed: 2, context: "title".to_owned() };
    assert_eq!(res, expected);
}

#[test]
fn question_missing_delimiter_after_comment() {
    let res = Question::parse_str(&Config::default(), "# note\nforgot the marker\n+answer").expect_err("should fail");
    assert_eq!(res.kind, QuestionErrorKind::MissingDelimiter);
    assert_eq!(res.lines_parsed, 1);
}

#[test]
fn question_config_error_kind_is_kept() {
    let res = Question::parse_str(&Config::default(), ";colour: red\n?title\n+yes").expect_err("should fail");
    match res.kind {
        QuestionErrorKind::ConfigError(e) => assert_eq!(e.kind, ConfigErrorKind::InvalidOption),
        other => panic!("unexpected {:?}", other),
    }
}

#[test]
fn question_leading_marks_are_dropped() {
    let res = Question::parse_str(&Config::default(), "???  title\n+yes").expect("question should parse");
    assert_eq!(res.title, "title");
}

#[test]
fn question_from_str_uses_defaults() {
    let res: Question = "?t\n+a\n-b".parse().expect("question should parse");
    assert_eq!(res.config, Config::default());
    assert_eq!(res.answers.len(), 2);
}

#[test]
fn segment_answers_splits_at_tags() {
    let (title, answers) = segment_answers("what\n+a\n-b\n+c");
    assert_eq!(title, "what");
    assert_eq!(
        answers,
        vec![Answer::Correct("a".to_owned()), Answer::Incorrect("b".to_owned()), Answer::Correct("c".to_owned())]
    );
}

#[test]
fn segment_answers_keeps_inner_dashes() {
    let (title, answers) = segment_answers("a - b + c\n- x-y\n+ p+q");
    assert_eq!(title, "a - b + c");
    assert_eq!(answers, vec![Answer::Incorrect("x-y".to_owned()), Answer::Correct("p+q".to_owned())]);
}

#[test]
fn segment_answers_reproduce_parsed_question() {
    let text = "?  the title \n+one\n-two\nlines\n+three";
    let q = Question::parse_str(&Config::default(), text).expect("question should parse");
    let (title, answers) = segment_answers("the title \n+one\n-two\nlines\n+three".trim());
    assert_eq!(q.title, title);
    assert_eq!(q.answers, answers);
}

#[test]
fn context_is_first_line_cut_to_32() {
    assert_eq!(to_context_string("short\nrest"), "short");
    assert_eq!(to_context_string("carriage\rreturn"), "carriage");
    assert_eq!(to_context_string(""), "");
    let long = "abcdefghijklmnopqrstuvwxyz0123456789";
    assert_eq!(to_context_string(long), &long[..32]);
}

#[test]
fn question_written_back_parses_the_same() {
    let q = Question::parse_str(&Config::default(), "# note\n?Which are prime?\n+2\n-4\n+  3 \n-\n").expect("question should parse");
    let mut block = format!("?{}", q.title);
    for a in &q.answers {
        match a {
            Answer::Correct(t) => block.push_str(&format!("\n+{}", t)),
            Answer::Incorrect(t) => block.push_str(&format!("\n-{}", t)),
        }
    }
    assert_eq!(block, "?Which are prime?\n+2\n-4\n+3\n-");
    let again = Question::parse_str(&Config::default(), &block).expect("written block should parse");
    assert_eq!(again, q);
}

#[test]
fn question_without_title_written_back_parses_the_same() {
    let q = Question::parse_str(&Config::default(), "?\n+a\n-b").expect("question should parse");
    assert_eq!(q.title, "");
    let again = Question::parse_str(&Config::default(), "?\n+a\n-b").expect("written block should parse");
    assert_eq!(again, q);
    let q2 = Question::parse_str(&Config::default(), "?+a\n-b").expect("question should parse");
    assert_eq!(q2.title, "");
    assert_eq!(q2.answers, q.answers);
}
