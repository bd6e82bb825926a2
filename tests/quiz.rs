use quiz_app::config::Config;
use quiz_app::points::Points;
use quiz_app::question::{Answer, Question, QuestionErrorKind};
use quiz_app::quiz::{Quiz, QuizError, QuizErrorKind};

#[test]
fn quiz_empty() {
    let res: Quiz = "".parse().expect("empty quiz should parse");

    let expected = Quiz {
        config: Config::default(),
        questions: vec![],
        total_score: Points::zero(),
    };

    assert_eq!(res, expected)
}

#[test]
fn quiz_config_empty() {
    let res: Quiz = "---".parse().expect("quiz with empty config should parse");

    let expected = Quiz {
        config: Config::default(),
        questions: vec![],
        total_score: Points::zero(),
    };

    assert_eq!(res, expected)
}

#[test]
fn quiz_config_only() {
    let res: Quiz = ";value: 2\n;tutorial: false\n---".parse().expect("config-only quiz should parse");

    let expected = Quiz {
        config: Config {
            value: Points::whole(2),
            tutorial: false,
            ..Default::default()
        },
        questions: vec![],
        total_score: Points::zero(),
    };

    assert_eq!(res, expected)
}

#[test]
fn quiz_single_question() {
    let res: Quiz = "?question\n+answer".parse().expect("quiz with questions should parse");

    let expected = Quiz {
        config: Config::default(),
        questions: vec![Question {
            title: "question".to_owned(),
            answers: vec![Answer::Correct("answer".to_owned())],
            config: Config::default(),
        }],
        total_score: Points::whole(1),
    };

    assert_eq!(res, expected)
}

#[test]
fn quiz_single_question_with_config() {
    let res: Quiz = ";value: 2\n?question\n+answer".parse().expect("quiz with questions should parse");

    let expected = Quiz {
        config: Config::default(),
        questions: vec![Question {
            title: "question".to_owned(),
            answers: vec![Answer::Correct("answer".to_owned())],
            config: Config {
                value: Points::whole(2),
                ..Default::default()
            },
        }],
        total_score: Points::whole(2),
    };

    assert_eq!(res, expected)
}

#[test]
fn quiz_multiple_questions() {
    let res: Quiz = "?question\n+answer\n\n?question2\n+answer\n-incorrect".parse().expect("quiz with questions should parse");

    let expected = Quiz {
        config: Config::default(),
        questions: vec![
            Question {
                title: "question".to_owned(),
                answers: vec![Answer::Correct("answer".to_owned())],
                config: Config::default(),
            },
            Question {
                title: "question2".to_owned(),
                answers: vec![
                    Answer::Correct("answer".to_owned()),
                    Answer::Incorrect("incorrect".to_owned()),
                ],
                config: Config::default(),
            },
        ],
        total_score: Points::whole(2),
    };

    assert_eq!(res, expected)
}

#[test]
fn quiz_multiple_questions_with_config() {
    let res: Quiz = ";ordered_answers:true\n?question\n+answer\n\n;value:3\n?question2\n+answer\n-incorrect".parse().expect("quiz with questions with config should parse");

    let expected = Quiz {
        config: Config::default(),
        questions: vec![
            Question {
                title: "question".to_owned(),
                answers: vec![Answer::Correct("answer".to_owned())],
                config: Config {
                    ordered_answers: true,
                    ..Default::default()
                },
            },
            Question {
                title: "question2".to_owned(),
                answers: vec![
                    Answer::Correct("answer".to_owned()),
                    Answer::Incorrect("incorrect".to_owned()),
                ],
                config: Config {
                    value: Points::whole(3),
                    ..Default::default()
                },
            },
        ],
        total_score: Points::whole(4),
    };

    assert_eq!(res, expected)
}

#[test]
fn quiz_config_and_multiple_questions_with_config() {
    let res: Quiz = ";tutorial:false\n---\n;ordered_answers:true\n?question\n+answer\n\n;value:3\n?question2\n+answer\n-incorrect".parse().expect("quiz with questions with config should parse");

    let expected = Quiz {
        config: Config {
            tutorial: false,
            ..Default::default()
        },
        questions: vec![
            Question {
                title: "question".to_owned(),
                answers: vec![Answer::Correct("answer".to_owned())],
                config: Config {
                    ordered_answers: true,
                    tutorial: false,
                    ..Default::default()
                },
            },
            Question {
                title: "question2".to_owned(),
                answers: vec![
                    Answer::Correct("answer".to_owned()),
                    Answer::Incorrect("incorrect".to_owned()),
                ],
                config: Config {
                    value: Points::whole(3),
                    tutorial: false,
                    ..Default::default()
                },
            },
        ],
        total_score: Points::whole(4),
    };

    assert_eq!(res, expected)
}

#[test]
fn quiz_config_error() {
    let res: QuizError = "tutorial:false\n---\n;ordered_answers:true\n?question\n+answer\n\n;value:3\n?question2\n+answer\n-incorrect".parse::<Quiz>()
        .expect_err("quiz with invalid file-config should err with config error");

    let expected = QuizError {
        kind: QuizErrorKind::ConfigError(Config::parse_str(&Config::default(), "tutorial:false").expect_err("invalid config should error")),
        lines_parsed: 0,
    };

    assert_eq!(res, expected)
}

#[test]
fn quiz_question_error() {
    let res: QuizError = ";tutorial:false\n---\n;ordered_answers:true\n?question\n+answer\n\n;value:3\nquestion2\n+answer\n-incorrect".parse::<Quiz>()
        .expect_err("quiz with invalid question should err with question error");

    let expected = QuizError {
        kind: QuizErrorKind::QuestionError(Question::parse_str(&Config::default(), ";value:3\nquestion2\n+answer\n-incorrect").expect_err("invalid question should error")),
        lines_parsed: 7,
    };

    assert_eq!(res, expected)
}

#[test]
fn quiz_example_typed_question() {
    let q = Quiz::parse("?question\n+answer").expect("should parse");
    assert_eq!(q.questions.len(), 1);
    assert_eq!(q.questions[0].title, "question");
    assert_eq!(q.questions[0].answers, vec![Answer::Correct("answer".to_owned())]);
    assert_eq!(q.total_score, Points::whole(1));
}

#[test]
fn quiz_example_question_value() {
    let q = Quiz::parse(";value: 2\n?question\n+answer").expect("should parse");
    assert_eq!(q.questions.len(), 1);
    assert_eq!(q.questions[0].config.value, Points::whole(2));
    assert_eq!(q.total_score, Points::whole(2));
}

#[test]
fn quiz_example_missing_semicolon() {
    let e = Config::parse_str(&Config::default(), "value: 1").expect_err("should fail");
    assert_eq!(e.kind, quiz_app::config::ConfigErrorKind::MissingDelimiter);
    assert_eq!(e.lines_parsed, 0);
    assert_eq!(e.context, "value: 1");
}

#[test]
fn quiz_example_no_correct_answer() {
    let e = Quiz::parse("?question\n- inc-answer").expect_err("should fail");
    match e.kind {
        QuizErrorKind::QuestionError(q) => assert_eq!(q.kind, QuestionErrorKind::NoCorrectAnswer),
        other => panic!("unexpected {:?}", other),
    }
    assert_eq!(e.lines_parsed, 0);
}

#[test]
fn quiz_comment_blocks_are_skipped() {
    let q = Quiz::parse("# just a note\n# another\n\n?q\n+a\n\n;value: 9\n# only options").expect("should parse");
    assert_eq!(q.questions.len(), 1);
    assert_eq!(q.total_score, Points::whole(1));
}

#[test]
fn quiz_windows_blank_lines_separate_questions() {
    let q = Quiz::parse("?one\r\n+a\r\n\r\n?two\r\n+b").expect("should parse");
    assert_eq!(q.questions.len(), 2);
    assert_eq!(q.questions[0].title, "one");
    assert_eq!(q.questions[1].title, "two");
    assert_eq!(q.questions[1].answers, vec![Answer::Correct("b".to_owned())]);
}

#[test]
fn quiz_total_is_sum_of_values() {
    let q = Quiz::parse(";value: 0.5\n---\n?a\n+x\n\n;value: 2.25\n?b\n+y\n\n?c\n+z").expect("should parse");
    assert_eq!(q.questions.len(), 3);
    assert_eq!(q.total_score, Points::from_micros(500_000 + 2_250_000 + 500_000));
}

#[test]
fn quiz_error_line_counts_previous_blocks() {
    let e = Quiz::parse("?one\n+a\n\n?two\n+b\n\n# note\nnot an option\n?three\n+c").expect_err("should fail");
    assert_eq!(e.lines_parsed, 7);
    match e.kind {
        QuizErrorKind::QuestionError(q) => {
            assert!(matches!(q.kind, QuestionErrorKind::ConfigError(_)));
            assert_eq!(q.lines_parsed, 1);
        },
        other => panic!("unexpected {:?}", other),
    }
}

#[test]
fn quiz_leading_fences_are_ignored() {
    let q = Quiz::parse("------?q\n+a").expect("should parse");
    assert_eq!(q.questions.len(), 1);
    assert_eq!(q.questions[0].title, "q");
}

#[test]
fn quiz_error_kind_from_inner_errors() {
    let c = Config::parse_str(&Config::default(), "oops").expect_err("should fail");
    let expected = QuizErrorKind::ConfigError(Config::parse_str(&Config::default(), "oops").expect_err("should fail"));
    assert_eq!(QuizErrorKind::from(c), expected);
    let q = Question::parse_str(&Config::default(), "?t\n-x").expect_err("should fail");
    assert!(matches!(QuizErrorKind::from(q), QuizErrorKind::QuestionError(_)));
    let k = quiz_app::config::ConfigErrorKind::from(quiz_app::config::ConfigValueParseError::ParseBoolError);
    assert_eq!(
        k,
        quiz_app::config::ConfigErrorKind::InvalidValue(quiz_app::config::ConfigValueParseError::ParseBoolError)
    );
}
