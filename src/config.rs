//! The option set of a quiz or a question, and the parser of `;name: value` lines.
use vstd::prelude::*;
use crate::points::{Points, is_points_text, points_text_micros};
use crate::text::{
    chars_of, find, find_chars, is_word, lemma_find_first, lemma_find_from_bounds, lemma_pieces_count,
    lemma_split_len, lemma_trim_end_concat, lower_of, match_at, slice, split_by, split_chars, string_of,
    to_lowercase, trim, trim_chars, trim_end, trim_start,
};

verus! {

/// Why a value could not be read as the type its option takes.
#[derive(Clone, Copy, Debug, PartialEq, Eq, Structural)]
pub enum ConfigValueParseError {
    ParseIntError,
    ParseFloatError,
    ParseBoolError,
}

#[derive(Clone, Copy, Debug, PartialEq, Eq, Structural)]
pub enum ConfigErrorKind {
    /// The option named in the config is unknown.
    InvalidOption,
    /// The value given to the option cannot be read.
    InvalidValue(ConfigValueParseError),
    /// The line is neither blank, a `#` comment, nor a `;` option.
    MissingDelimiter,
}

/// A config line that could not be read, with where it stands.
#[derive(Debug)]
pub struct ConfigError {
    /// The text that failed to parse.
    pub context: String,
    /// How many lines of config came before the failing one.
    pub lines_parsed: usize,
    /// What went wrong.
    pub kind: ConfigErrorKind,
}

/// The value of a [`ConfigError`].
pub struct ConfigErrorView {
    pub kind: ConfigErrorKind,
    pub context: Seq<char>,
    pub lines_parsed: int,
}

impl View for ConfigError {
    type V = ConfigErrorView;

    open spec fn view(&self) -> ConfigErrorView {
        ConfigErrorView { kind: self.kind, context: self.context@, lines_parsed: self.lines_parsed as int }
    }
}

impl PartialEq for ConfigError {
    fn eq(&self, o: &ConfigError) -> (r: bool) {
        self.kind == o.kind && self.lines_parsed == o.lines_parsed && self.context == o.context
    }
}

impl vstd::std_specs::cmp::PartialEqSpecImpl for ConfigError {
    open spec fn obeys_eq_spec() -> bool {
        true
    }

    open spec fn eq_spec(&self, o: &ConfigError) -> bool {
        self@ == o@
    }
}

/// The options in force for a quiz or a question.
#[derive(Clone, Copy, Debug, PartialEq, Eq, Structural)]
pub struct Config {
    /// Points that a right answer earns.
    pub value: Points,
    /// Typed answers are compared with case kept.
    pub case_sensitive: bool,
    /// The question keeps its place instead of being shuffled.
    pub ordered: bool,
    /// The answers are shown in the order written.
    pub ordered_answers: bool,
    /// The quiz opens with instructions.
    pub tutorial: bool,
}

/// The options in force where a document sets none.
pub open spec fn default_config() -> Config {
    Config {
        value: Points { micros: 1_000_000 },
        case_sensitive: false,
        ordered: true,
        ordered_answers: true,
        tutorial: true,
    }
}

impl Config {
    /// The point value is within the range that a written one can have.
    pub open spec fn wf(self) -> bool {
        self.value.is_bounded()
    }
}

impl Default for Config {
    fn default() -> (r: Config)
        ensures
            r == default_config(),
    {
        Config {
            value: Points { micros: 1_000_000 },
            case_sensitive: false,
            ordered: true,
            ordered_answers: true,
            tutorial: true,
        }
    }
}

/// The value of `true` or `false`, as `bool::from_str` reads it.
pub open spec fn bool_text(s: Seq<char>) -> Option<bool> {
    if s == "true"@ {
        Some(true)
    } else if s == "false"@ {
        Some(false)
    } else {
        None
    }
}

/// The effect of option `name` (already normalised) with `value` (already lower-cased)
/// on `cfg`, met on line `line`.
pub open spec fn option_result(cfg: Config, name: Seq<char>, value: Seq<char>, line: int) -> Result<
    Config,
    ConfigErrorView,
> {
    let bad_bool = ConfigErrorView {
        kind: ConfigErrorKind::InvalidValue(ConfigValueParseError::ParseBoolError),
        context: value,
        lines_parsed: line,
    };
    if name == "value"@ {
        if is_points_text(value) {
            Ok(Config { value: Points { micros: points_text_micros(value) as i128 }, ..cfg })
        } else {
            Err(
                ConfigErrorView {
                    kind: ConfigErrorKind::InvalidValue(ConfigValueParseError::ParseFloatError),
                    context: value,
                    lines_parsed: line,
                },
            )
        }
    } else if name == "casesensitive"@ {
        match bool_text(value) {
            Some(b) => Ok(Config { case_sensitive: b, ..cfg }),
            None => Err(bad_bool),
        }
    } else if name == "ordered"@ {
        match bool_text(value) {
            Some(b) => Ok(Config { ordered: b, ..cfg }),
            None => Err(bad_bool),
        }
    } else if name == "orderedanswers"@ {
        match bool_text(value) {
            Some(b) => Ok(Config { ordered_answers: b, ..cfg }),
            None => Err(bad_bool),
        }
    } else if name == "tutorial"@ {
        match bool_text(value) {
            Some(b) => Ok(Config { tutorial: b, ..cfg }),
            None => Err(bad_bool),
        }
    } else {
        Err(ConfigErrorView { kind: ConfigErrorKind::InvalidOption, context: name, lines_parsed: line })
    }
}

/// A character that may separate the words of an option name.
pub open spec fn is_name_separator(c: char) -> bool {
    c == '-' || c == '_' || c == ' '
}

/// `s` without its name separators.
pub open spec fn drop_separators(s: Seq<char>) -> Seq<char>
    decreases s.len(),
{
    if s.len() == 0 {
        s
    } else if is_name_separator(s.last()) {
        drop_separators(s.drop_last())
    } else {
        drop_separators(s.drop_last()).push(s.last())
    }
}

/// The name part of a trimmed option line `t` (which starts with `;`): the text up to
/// the first `:`.
pub open spec fn directive_name(t: Seq<char>) -> Seq<char> {
    match find(t, seq![':']) {
        Some(c) => t.subrange(0, c),
        None => t,
    }
}

/// The value part of a trimmed option line: the text after the first `:`, if any.
pub open spec fn directive_value(t: Seq<char>) -> Seq<char> {
    match find(t, seq![':']) {
        Some(c) => t.subrange(c + 1, t.len() as int),
        None => seq![],
    }
}

/// The option name that an option line `t` refers to, in the form that is matched.
pub open spec fn normal_name(t: Seq<char>) -> Seq<char> {
    lower_of(drop_separators(trim(directive_name(t).drop_first())))
}

/// The value an option line `t` gives, in the form that is read.
pub open spec fn normal_value(t: Seq<char>) -> Seq<char> {
    lower_of(trim(directive_value(t)))
}

/// The effect of the config line `line`, which is line number `idx`, on `cfg`.
pub open spec fn line_result(cfg: Config, line: Seq<char>, idx: int) -> Result<Config, ConfigErrorView> {
    let t = trim(line);
    if t.len() == 0 || t[0] == '#' {
        Ok(cfg)
    } else if t[0] != ';' {
        Err(ConfigErrorView { kind: ConfigErrorKind::MissingDelimiter, context: t, lines_parsed: idx })
    } else {
        option_result(cfg, normal_name(t), normal_value(t), idx)
    }
}

/// The first `n` of `lines` applied in turn to `base`, stopping at the first error.
pub open spec fn lines_result(base: Config, lines: Seq<Seq<char>>, n: nat) -> Result<
    Config,
    ConfigErrorView,
>
    decreases n,
{
    if n == 0 {
        Ok(base)
    } else {
        match lines_result(base, lines, (n - 1) as nat) {
            Ok(c) => line_result(c, lines[n - 1], n - 1),
            Err(e) => Err(e),
        }
    }
}

/// The lines of `s`.
pub open spec fn lines_of(s: Seq<char>) -> Seq<Seq<char>> {
    split_by(s, seq!['\n'])
}

/// What parsing the config text `s` over `base` gives.
pub open spec fn config_result(base: Config, s: Seq<char>) -> Result<Config, ConfigErrorView> {
    lines_result(base, lines_of(s), lines_of(s).len())
}

proof fn lemma_lines_result_stops(base: Config, lines: Seq<Seq<char>>, n: nat, m: nat)
    requires
        n <= m,
        lines_result(base, lines, n) is Err,
    ensures
        lines_result(base, lines, m) == lines_result(base, lines, n),
    decreases m - n,
{
    if n < m {
        lemma_lines_result_stops(base, lines, n, (m - 1) as nat);
    }
}

/// The value of a config parse result.
pub open spec fn config_outcome(r: Result<Config, ConfigError>) -> Result<Config, ConfigErrorView> {
    match r {
        Ok(c) => Ok(c),
        Err(e) => Err(e@),
    }
}

/// Reads `true` or `false`.
fn read_bool(v: &Vec<char>) -> (r: Option<bool>)
    ensures
        r == bool_text(v@),
{
    if is_word(v, "true") {
        Some(true)
    } else if is_word(v, "false") {
        Some(false)
    } else {
        None
    }
}

/// Executable form of [`drop_separators`].
fn without_separators(s: &Vec<char>) -> (r: Vec<char>)
    ensures
        r@ == drop_separators(s@),
{
    let mut r: Vec<char> = Vec::new();
    let mut i: usize = 0;
    while i < s.len()
        invariant
            i <= s.len(),
            r@ == drop_separators(s@.subrange(0, i as int)),
        decreases s.len() - i,
    {
        assert(s@.subrange(0, i + 1).drop_last() =~= s@.subrange(0, i as int));
        let c = s[i];
        if !(c == '-' || c == '_' || c == ' ') {
            r.push(c);
        }
        i += 1;
    }
    assert(s@.subrange(0, s.len() as int) =~= s@);
    r
}

/// Applies the config line `line`, line number `idx`, to `cfg`.
fn apply_line(cfg: &Config, line: &Vec<char>, idx: usize) -> (r: Result<Config, ConfigError>)
    ensures
        config_outcome(r) == line_result(*cfg, line@, idx as int),
        r matches Ok(c) ==> (cfg.wf() ==> c.wf()),
{
    let t = trim_chars(line);
    if t.len() == 0 || t[0] == '#' {
        return Ok(*cfg);
    }
    if t[0] != ';' {
        return Err(ConfigError { kind: ConfigErrorKind::MissingDelimiter, context: string_of(&t), lines_parsed: idx });
    }
    let colon = vec![':'];
    let found = find_chars(&t, &colon, 0);
    proof {
        lemma_find_from_bounds(t@, colon@, 0);
        assert(colon@ =~= seq![':']);
    }
    let (name_part, value_part) = match found {
        Some(c) => {
            assert(t@.subrange(c as int, c + 1)[0] == ':');
            (slice(&t, 0, c), slice(&t, c + 1, t.len()))
        },
        None => (slice(&t, 0, t.len()), Vec::new()),
    };
    assert(name_part@ == directive_name(t@)) by {
        if found is None {
            assert(t@ =~= t@.subrange(0, t.len() as int));
        }
    }
    assert(value_part@ =~= directive_value(t@));
    let bare = slice(&name_part, 1, name_part.len());
    assert(bare@ =~= directive_name(t@).drop_first());
    let name = without_separators(&trim_chars(&bare));
    let name_lc = to_lowercase(string_of(&name).as_str());
    let value_lc = to_lowercase(string_of(&trim_chars(&value_part)).as_str());
    cfg.apply_option(name_lc.as_str(), value_lc.as_str(), idx)
}

impl Config {
    /// Parses the config text `text` over `base`: each line, trimmed, is blank, a `#`
    /// comment, or a `;name: value` option, applied in turn to a copy of `base`.
    pub fn parse_str(base: &Config, text: &str) -> (r: Result<Config, ConfigError>)
        ensures
            config_outcome(r) == config_result(*base, text@),
            r matches Err(e) ==> e.lines_parsed <= text@.len(),
            r matches Ok(c) ==> (base.wf() ==> c.wf()),
    {
        let s = chars_of(text);
        let nl = vec!['\n'];
        assert(nl@ =~= seq!['\n']);
        let lines = split_chars(&s, &nl);
        let ghost ls = lines_of(text@);
        proof {
            lemma_split_len(s@, nl@, 0);
            lemma_pieces_count(ls, 1);
        }
        let mut cfg = *base;
        let mut i: usize = 0;
        while i < lines.len()
            invariant
                lines@.map_values(|v: Vec<char>| v@) == ls,
                ls == lines_of(text@),
                i <= lines.len(),
                lines.len() <= text@.len() + 1,
                base.wf() ==> cfg.wf(),
                lines_result(*base, ls, i as nat) == Ok::<Config, ConfigErrorView>(cfg),
            decreases lines.len() - i,
        {
            assert(ls[i as int] == lines[i as int]@);
            match apply_line(&cfg, &lines[i], i) {
                Ok(c) => cfg = c,
                Err(e) => {
                    proof {
                        lemma_lines_result_stops(*base, ls, (i + 1) as nat, ls.len());
                    }
                    return Err(e);
                },
            }
            i += 1;
        }
        Ok(cfg)
    }

    /// Applies option `name`, already normalised (separators removed, lower case), with
    /// `value`, already trimmed and lower-cased, met on config line `line`.
    pub fn apply_option(&self, name: &str, value: &str, line: usize) -> (r: Result<Config, ConfigError>)
        ensures
            config_outcome(r) == option_result(*self, name@, value@, line as int),
            r matches Ok(c) ==> (self.wf() ==> c.wf()),
    {
        let n = chars_of(name);
        let v = chars_of(value);
        let mut cfg = *self;
        if is_word(&n, "value") {
            match Points::parse(&v) {
                Some(p) => {
                    cfg.value = p;
                    Ok(cfg)
                },
                None => Err(
                    ConfigError {
                        kind: ConfigErrorKind::InvalidValue(ConfigValueParseError::ParseFloatError),
                        context: value.to_owned(),
                        lines_parsed: line,
                    },
                ),
            }
        } else {
            let bad = ConfigError {
                kind: ConfigErrorKind::InvalidValue(ConfigValueParseError::ParseBoolError),
                context: value.to_owned(),
                lines_parsed: line,
            };
            if is_word(&n, "casesensitive") {
                match read_bool(&v) {
                    Some(b) => {
                        cfg.case_sensitive = b;
                        Ok(cfg)
                    },
                    None => Err(bad),
                }
            } else if is_word(&n, "ordered") {
                match read_bool(&v) {
                    Some(b) => {
                        cfg.ordered = b;
                        Ok(cfg)
                    },
                    None => Err(bad),
                }
            } else if is_word(&n, "orderedanswers") {
                match read_bool(&v) {
                    Some(b) => {
                        cfg.ordered_answers = b;
                        Ok(cfg)
                    },
                    None => Err(bad),
                }
            } else if is_word(&n, "tutorial") {
                match read_bool(&v) {
                    Some(b) => {
                        cfg.tutorial = b;
                        Ok(cfg)
                    },
                    None => Err(bad),
                }
            } else {
                Err(ConfigError { kind: ConfigErrorKind::InvalidOption, context: name.to_owned(), lines_parsed: line })
            }
        }
    }
}

/// The line `line`, trimmed, is blank or a `#` comment.
pub open spec fn is_comment_line(line: Seq<char>) -> bool {
    trim(line).len() == 0 || trim(line)[0] == '#'
}

proof fn lemma_comment_lines_keep(base: Config, lines: Seq<Seq<char>>, n: nat)
    requires
        n <= lines.len(),
        forall|i: int| 0 <= i < lines.len() ==> is_comment_line(#[trigger] lines[i]),
    ensures
        lines_result(base, lines, n) == Ok::<Config, ConfigErrorView>(base),
    decreases n,
{
    if n > 0 {
        lemma_comment_lines_keep(base, lines, (n - 1) as nat);
        assert(is_comment_line(lines[n - 1]));
    }
}

/// Config text made only of blank lines and `#` comments leaves the options as they were.
pub proof fn lemma_comments_keep_config(base: Config, text: Seq<char>)
    requires
        forall|i: int| 0 <= i < lines_of(text).len() ==> is_comment_line(#[trigger] lines_of(text)[i]),
    ensures
        config_result(base, text) == Ok::<Config, ConfigErrorView>(base),
{
    lemma_comment_lines_keep(base, lines_of(text), lines_of(text).len());
}

/// A line that is not blank and starts with neither `;` nor `#` fails with
/// `MissingDelimiter`, its trimmed text as context and its zero-based number as
/// `lines_parsed`, as soon as the lines before it have been read.
pub proof fn lemma_missing_delimiter(base: Config, text: Seq<char>, k: int)
    requires
        0 <= k < lines_of(text).len(),
        lines_result(base, lines_of(text), k as nat) is Ok,
        trim(lines_of(text)[k]).len() > 0,
        trim(lines_of(text)[k])[0] != ';',
        trim(lines_of(text)[k])[0] != '#',
    ensures
        config_result(base, text) == Err::<Config, ConfigErrorView>(
            ConfigErrorView {
                kind: ConfigErrorKind::MissingDelimiter,
                context: trim(lines_of(text)[k]),
                lines_parsed: k,
            },
        ),
{
    lemma_lines_result_stops(base, lines_of(text), (k + 1) as nat, lines_of(text).len());
}

/// The option line that names `name` and gives it `value`: `;name:value`.
pub open spec fn option_line(name: Seq<char>, value: Seq<char>) -> Seq<char> {
    seq![';'] + name + seq![':'] + value
}

/// Which option a line sets does not depend on case (as `str::to_lowercase` folds it),
/// nor on spaces, `-` or `_` in its name: two names that agree once these are set aside
/// have the same effect.
pub proof fn lemma_option_name_spelling(cfg: Config, n1: Seq<char>, n2: Seq<char>, value: Seq<char>, idx: int)
    requires
        !n1.contains(':'),
        !n2.contains(':'),
        lower_of(drop_separators(trim(n1))) == lower_of(drop_separators(trim(n2))),
    ensures
        line_result(cfg, option_line(n1, value), idx) == line_result(cfg, option_line(n2, value), idx),
{
    lemma_option_line_parts(n1, value);
    lemma_option_line_parts(n2, value);
}

proof fn lemma_option_line_parts(name: Seq<char>, value: Seq<char>)
    requires
        !name.contains(':'),
    ensures
        trim(option_line(name, value)).len() > 0,
        trim(option_line(name, value))[0] == ';',
        directive_name(trim(option_line(name, value))).drop_first() == name,
        directive_value(trim(option_line(name, value))) == trim_end(value),
{
    let head = seq![';'] + name + seq![':'];
    let line = option_line(name, value);
    assert(line =~= head + value);
    assert(line[0] == ';');
    assert(trim_start(line) == line);
    assert(head.last() == ':');
    lemma_trim_end_concat(head, value);
    let t = head + trim_end(value);
    assert(trim(line) == t);
    let colon = seq![':'];
    let j = name.len() + 1int;
    assert(t.subrange(j, j + 1) =~= colon);
    assert forall|k: int| 0 <= k < j implies !match_at(t, colon, k) by {
        if k > 0 {
            assert(t.subrange(k, k + 1)[0] == name[k - 1]);
            assert(name[k - 1] != ':') by {
                if name[k - 1] == ':' {
                    assert(name.contains(':'));
                }
            }
        } else {
            assert(t.subrange(k, k + 1)[0] == ';');
        }
    }
    lemma_find_first(t, colon, 0, j);
    assert(t.subrange(0, j).drop_first() =~= name);
    assert(t.subrange(j + 1, t.len() as int) =~= trim_end(value));
}

impl From<ConfigValueParseError> for ConfigErrorKind {
    fn from(value: ConfigValueParseError) -> (r: ConfigErrorKind)
        ensures
            r == ConfigErrorKind::InvalidValue(value),
    {
        ConfigErrorKind::InvalidValue(value)
    }
}

impl vstd::std_specs::convert::FromSpecImpl<ConfigValueParseError> for ConfigErrorKind {
    open spec fn obeys_from_spec() -> bool {
        true
    }

    open spec fn from_spec(v: ConfigValueParseError) -> ConfigErrorKind {
        ConfigErrorKind::InvalidValue(v)
    }
}

impl std::str::FromStr for Config {
    type Err = ConfigError;

    /// Parses config text over the default options.
    fn from_str(s: &str) -> (r: Result<Config, ConfigError>)
        ensures
            config_outcome(r) == config_result(default_config(), s@),
            r matches Ok(c) ==> c.wf(),
    {
        Config::parse_str(&Config::default(), s)
    }
}

} // verus!
