use quiz_app::config::{Config, ConfigError, ConfigErrorKind, ConfigValueParseError};
use quiz_app::points::Points;

#[test]
fn config_empty() {
    let res = Config::parse_str(&Config::default(), "").expect("empty config should parse");
    let expected = Config::default();
    assert_eq!(res, expected)
}

#[test]
fn config_missing_delimiter() {
    let input = "value: 1";

    let res = Config::parse_str(&Config::default(), input).expect_err("should err with missing delimiter");
    let expected = ConfigError {
        kind: ConfigErrorKind::MissingDelimiter,
        context: input.to_owned(),
        lines_parsed: 0,
    };
    assert_eq!(res, expected)
}

#[test]
fn config_invalid_option() {
    let res = Config::parse_str(&Config::default(), ";not-an-option").expect_err("should err with invalid option");
    let expected = ConfigError {
        kind: ConfigErrorKind::InvalidOption,
        context: "notanoption".to_owned(),
        lines_parsed: 0,
    };
    assert_eq!(res, expected)
}

#[test]
fn config_invalid_value_float() {
    let res = Config::parse_str(&Config::default(), ";value: false").expect_err("should err with invalid value");
    let expected = ConfigError {
        kind: ConfigErrorKind::InvalidValue(ConfigValueParseError::ParseFloatError),
        context: "false".to_owned(),
        lines_parsed: 0,
    };
    assert_eq!(res, expected)
}

#[test]
fn config_invalid_value_bool() {
    let res = Config::parse_str(&Config::default(), ";tutorial: 10").expect_err("should err with invalid value");
    let expected = ConfigError {
        kind: ConfigErrorKind::InvalidValue(ConfigValueParseError::ParseBoolError),
        context: "10".to_owned(),
        lines_parsed: 0,
    };
    assert_eq!(res, expected)
}

#[test]
fn config_comment() {
    let res = Config::parse_str(&Config::default(), "# this is a comment").expect("comment-only config should parse");
    let expected = Config::default();
    assert_eq!(res, expected)
}

#[test]
fn config_opt_ignore_separation() {
    let res = Config::parse_str(&Config::default(), "; v a-l_uE :1.5").expect("value config option should parse");

    let mut expected = Config::default();
    expected.value = Points::from_micros(1_500_000);

    assert_eq!(res, expected)
}

#[test]
fn config_opt_value() {
    let res = Config::parse_str(&Config::default(), "; value: 1.5").expect("value config option should parse");

    let mut expected = Config::default();
    expected.value = Points::from_micros(1_500_000);

    assert_eq!(res, expected)
}

#[test]
fn config_opt_tutorial() {
    let res = Config::parse_str(&Config::default(), "; tutorial: false").expect("tutorial config option should parse");

    let mut expected = Config::default();
    expected.tutorial = false;

    assert_eq!(res, expected)
}

#[test]
fn config_all() {
    let res = Config::parse_str(&Config::default(), "\
        #comment
        ;ordered: false
        ;case-sensitive: true
        ;ordered-answers: true
        ;value: 1.2
        ;tutorial: false
    ").expect("all config options should parse");

    let expected = Config {
        ordered: false,
        case_sensitive: true,
        ordered_answers: true,
        value: Points::from_micros(1_200_000),
        tutorial: false,
    };

    assert_eq!(res, expected)
}

#[test]
fn config_default_values() {
    let c = Config::default();
    assert_eq!(c.value, Points::whole(1));
    assert!(!c.case_sensitive);
    assert!(c.ordered);
    assert!(c.ordered_answers);
    assert!(c.tutorial);
}

#[test]
fn config_from_str_uses_defaults() {
    let res: Config = ";ordered: false".parse().expect("config should parse");
    assert_eq!(res, Config { ordered: false, ..Config::default() });
}

#[test]
fn config_base_is_kept_where_not_set() {
    let base = Config { value: Points::whole(3), tutorial: false, ..Config::default() };
    let res = Config::parse_str(&base, ";ordered: false").expect("config should parse");
    assert_eq!(res, Config { ordered: false, ..base });
}

#[test]
fn config_only_comments_and_blanks_keep_base() {
    let base = Config { value: Points::whole(5), case_sensitive: true, ..Config::default() };
    let res = Config::parse_str(&base, "\n   \n# one\n\t# two\r\n\n").expect("comments should parse");
    assert_eq!(res, base);
}

#[test]
fn config_name_case_and_separators_ignored() {
    let a = Config::parse_str(&Config::default(), ";Case-Sensitive:true").expect("should parse");
    let b = Config::parse_str(&Config::default(), ";casesensitive:true").expect("should parse");
    let c = Config::parse_str(&Config::default(), "; CASE_sensitive : TRUE").expect("should parse");
    assert_eq!(a, b);
    assert_eq!(b, c);
    assert!(a.case_sensitive);
}

#[test]
fn config_missing_delimiter_reports_its_line() {
    let res = Config::parse_str(&Config::default(), "# note\n;ordered: false\n\n  tutorial: true  \n;value: 2")
        .expect_err("should err with missing delimiter");
    let expected = ConfigError {
        kind: ConfigErrorKind::MissingDelimiter,
        context: "tutorial: true".to_owned(),
        lines_parsed: 3,
    };
    assert_eq!(res, expected)
}

#[test]
fn config_first_error_wins() {
    let res = Config::parse_str(&Config::default(), ";bogus: 1\nno delimiter").expect_err("should fail");
    assert_eq!(res.kind, ConfigErrorKind::InvalidOption);
    assert_eq!(res.lines_parsed, 0);
    assert_eq!(res.context, "bogus");
}

#[test]
fn config_name_without_value_is_invalid_value() {
    let res = Config::parse_str(&Config::default(), ";ordered").expect_err("should fail");
    assert_eq!(res.kind, ConfigErrorKind::InvalidValue(ConfigValueParseError::ParseBoolError));
    assert_eq!(res.context, "");
}

#[test]
fn config_value_forms() {
    let cases: [(&str, i128); 8] = [
        ("2", 2_000_000),
        ("0", 0),
        ("-1.5", -1_500_000),
        ("+3", 3_000_000),
        (".25", 250_000),
        ("4.", 4_000_000),
        ("0.1234567", 123_456),
        ("1000000000000", 1_000_000_000_000_000_000),
    ];
    for (text, micros) in cases {
        let line = format!(";value: {}", text);
        let res = Config::parse_str(&Config::default(), &line).expect("value should parse");
        assert_eq!(res.value, Points::from_micros(micros), "value {}", text);
    }
}

#[test]
fn config_value_rejected_forms() {
    for text in ["", ".", "-", "1.2.3", "1e", "e5", "1e+", "1.5e3.2", "1e1e1", "inf", "nan", "1 000", "1000000000001", "1e13", "1e999999999999999999999999"] {
        let line = format!(";value: {}", text);
        let res = Config::parse_str(&Config::default(), &line).expect_err("value should fail");
        assert_eq!(res.kind, ConfigErrorKind::InvalidValue(ConfigValueParseError::ParseFloatError), "value {}", text);
        assert_eq!(res.context, text.to_lowercase());
    }
}

#[test]
fn config_apply_option_directly() {
    let base = Config::default();
    assert_eq!(base.apply_option("ordered", "false", 4).expect("should apply").ordered, false);
    assert_eq!(base.apply_option("orderedanswers", "false", 4).expect("should apply").ordered_answers, false);
    let err = base.apply_option("Ordered", "false", 4).expect_err("names are matched as given");
    assert_eq!(err.kind, ConfigErrorKind::InvalidOption);
    assert_eq!(err.lines_parsed, 4);
    let err = base.apply_option("tutorial", "TRUE", 2).expect_err("values are matched as given");
    assert_eq!(err.kind, ConfigErrorKind::InvalidValue(ConfigValueParseError::ParseBoolError));
}

#[test]
fn config_value_is_lowercased_in_context() {
    let res = Config::parse_str(&Config::default(), ";tutorial: YES").expect_err("should fail");
    assert_eq!(res.context, "yes");
}

#[test]
fn config_value_exponent_forms() {
    let cases: [(&str, i128); 9] = [
        ("1e3", 1_000_000_000),
        ("2.5E-1", 250_000),
        ("1e+2", 100_000_000),
        ("-1.5e1", -15_000_000),
        (".5e1", 5_000_000),
        ("1e-7", 0),
        ("123456789e-8", 1_234_567),
        ("0e999999999999999999999999999", 0),
        ("1e-999999999999999999999999999", 0),
    ];
    for (text, micros) in cases {
        let line = format!(";value: {}", text);
        let res = Config::parse_str(&Config::default(), &line).expect("value should parse");
        assert_eq!(res.value, Points::from_micros(micros), "value {}", text);
    }
}
