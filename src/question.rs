//! One question block: its own options, its title and its answers.
use vstd::prelude::*;
use vstd::std_specs::cmp::PartialEqSpec;
use crate::config::{
    Config, ConfigError, ConfigErrorKind, ConfigErrorView, config_result, default_config, line_result, lines_of, lines_result,
};
use crate::text::{
    find_from, is_ws, trim_end, trim_start, chars_of, count_newlines, find, find_chars, fold_line_breaks, fold_lines, lemma_find_from_bounds,
    match_at, newlines, slice, string_of, trim, trim_chars,
};

verus! {

/// One answer of a question, right or wrong, with its text.
#[derive(Debug)]
pub enum Answer {
    Correct(String),
    Incorrect(String),
}

/// The value of an [`Answer`].
pub struct AnswerView {
    pub correct: bool,
    pub text: Seq<char>,
}

impl View for Answer {
    type V = AnswerView;

    open spec fn view(&self) -> AnswerView {
        match self {
            Answer::Correct(t) => AnswerView { correct: true, text: t@ },
            Answer::Incorrect(t) => AnswerView { correct: false, text: t@ },
        }
    }
}

impl PartialEq for Answer {
    fn eq(&self, o: &Answer) -> (r: bool) {
        match self {
            Answer::Correct(a) => match o {
                Answer::Correct(b) => *a == *b,
                Answer::Incorrect(_) => false,
            },
            Answer::Incorrect(a) => match o {
                Answer::Incorrect(b) => *a == *b,
                Answer::Correct(_) => false,
            },
        }
    }
}

impl vstd::std_specs::cmp::PartialEqSpecImpl for Answer {
    open spec fn obeys_eq_spec() -> bool {
        true
    }

    open spec fn eq_spec(&self, o: &Answer) -> bool {
        self@ == o@
    }
}

/// A parsed question. It has at least one correct answer; one answer alone means the
/// answer is typed, more mean a choice among them.
#[derive(Debug)]
pub struct Question {
    pub title: String,
    pub answers: Vec<Answer>,
    pub config: Config,
}

/// The value of a [`Question`].
pub struct QuestionView {
    pub title: Seq<char>,
    pub answers: Seq<AnswerView>,
    pub config: Config,
}

impl View for Question {
    type V = QuestionView;

    open spec fn view(&self) -> QuestionView {
        QuestionView {
            title: self.title@,
            answers: self.answers@.map_values(|a: Answer| a@),
            config: self.config,
        }
    }
}

impl PartialEq for Question {
    fn eq(&self, o: &Question) -> (r: bool) {
        let same_answers = self.answers == o.answers;
        proof {
            let a = self.answers@.map_values(|a: Answer| a@);
            let b = o.answers@.map_values(|a: Answer| a@);
            if same_answers {
                assert forall|i: int| 0 <= i < a.len() implies a[i] == b[i] by {
                    assert(self.answers[i].eq_spec(&o.answers[i]));
                    assert(a[i] == self.answers@[i]@);
                    assert(b[i] == o.answers@[i]@);
                }
                assert(a =~= b);
            } else if a == b {
                assert(a.len() == self.answers.len() && b.len() == o.answers.len());
                assert forall|i: int| 0 <= i < self.answers.len() implies self.answers[i].eq_spec(
                    &o.answers[i],
                ) by {
                    assert(a[i] == b[i]);
                    assert(a[i] == self.answers@[i]@);
                    assert(b[i] == o.answers@[i]@);
                }
            }
        }
        self.title == o.title && self.config == o.config && same_answers
    }
}

impl vstd::std_specs::cmp::PartialEqSpecImpl for Question {
    open spec fn obeys_eq_spec() -> bool {
        true
    }

    open spec fn eq_spec(&self, o: &Question) -> bool {
        self@ == o@
    }
}

#[derive(Debug)]
pub enum QuestionErrorKind {
    /// No `?` marks the start of a question: a question with its marker forgotten.
    MissingDelimiter,
    /// The options of the question could not be read.
    ConfigError(ConfigError),
    /// The question has no correct answer.
    NoCorrectAnswer,
    /// The block holds only options and comments: a comment block.
    OnlyConfig,
}

/// The value of a [`QuestionErrorKind`].
pub enum QuestionErrorKindView {
    MissingDelimiter,
    ConfigError(ConfigErrorView),
    NoCorrectAnswer,
    OnlyConfig,
}

impl View for QuestionErrorKind {
    type V = QuestionErrorKindView;

    open spec fn view(&self) -> QuestionErrorKindView {
        match self {
            QuestionErrorKind::MissingDelimiter => QuestionErrorKindView::MissingDelimiter,
            QuestionErrorKind::ConfigError(e) => QuestionErrorKindView::ConfigError(e@),
            QuestionErrorKind::NoCorrectAnswer => QuestionErrorKindView::NoCorrectAnswer,
            QuestionErrorKind::OnlyConfig => QuestionErrorKindView::OnlyConfig,
        }
    }
}

impl PartialEq for QuestionErrorKind {
    fn eq(&self, o: &QuestionErrorKind) -> (r: bool) {
        match (self, o) {
            (QuestionErrorKind::MissingDelimiter, QuestionErrorKind::MissingDelimiter) => true,
            (QuestionErrorKind::ConfigError(a), QuestionErrorKind::ConfigError(b)) => a == b,
            (QuestionErrorKind::NoCorrectAnswer, QuestionErrorKind::NoCorrectAnswer) => true,
            (QuestionErrorKind::OnlyConfig, QuestionErrorKind::OnlyConfig) => true,
            _ => false,
        }
    }
}

impl vstd::std_specs::cmp::PartialEqSpecImpl for QuestionErrorKind {
    open spec fn obeys_eq_spec() -> bool {
        true
    }

    open spec fn eq_spec(&self, o: &QuestionErrorKind) -> bool {
        self@ == o@
    }
}

/// A question block that could not be read, with where it stands.
#[derive(Debug)]
pub struct QuestionError {
    pub kind: QuestionErrorKind,
    /// How many lines of the block came before the failing one.
    pub lines_parsed: usize,
    /// The start of the question text.
    pub context: String,
}

/// The value of a [`QuestionError`].
pub struct QuestionErrorView {
    pub kind: QuestionErrorKindView,
    pub lines_parsed: int,
    pub context: Seq<char>,
}

impl View for QuestionError {
    type V = QuestionErrorView;

    open spec fn view(&self) -> QuestionErrorView {
        QuestionErrorView { kind: self.kind@, lines_parsed: self.lines_parsed as int, context: self.context@ }
    }
}

impl PartialEq for QuestionError {
    fn eq(&self, o: &QuestionError) -> (r: bool) {
        self.kind == o.kind && self.lines_parsed == o.lines_parsed && self.context == o.context
    }
}

impl vstd::std_specs::cmp::PartialEqSpecImpl for QuestionError {
    open spec fn obeys_eq_spec() -> bool {
        true
    }

    open spec fn eq_spec(&self, o: &QuestionError) -> bool {
        self@ == o@
    }
}

/// `s` without its leading `?` marks.
pub open spec fn drop_marks(s: Seq<char>) -> Seq<char>
    decreases s.len(),
{
    if s.len() > 0 && s[0] == '?' {
        drop_marks(s.drop_first())
    } else {
        s
    }
}

/// A block cut into its option text, its question text, and the number of lines that
/// the cut itself takes (the `\n?` that ends the options).
pub open spec fn block_parts(text: Seq<char>) -> (Seq<char>, Seq<char>, int) {
    match find(text, seq!['\n', '?']) {
        Some(i) => (text.subrange(0, i), trim(text.subrange(i + 2, text.len() as int)), 1),
        None => if text.len() > 0 && text[0] == '?' {
            (seq![], trim(drop_marks(text)), 0)
        } else {
            (text, seq![], 0)
        },
    }
}

/// The first position at or after `i` of a line break (`\n` or `\r`) in `s`, or its end.
pub open spec fn line_end_from(s: Seq<char>, i: int) -> int
    decreases s.len() - i,
{
    if i < 0 || i >= s.len() {
        s.len() as int
    } else if s[i] == '\n' || s[i] == '\r' {
        i
    } else {
        line_end_from(s, i + 1)
    }
}

/// The longest context shown with an error.
pub const CONTEXT_LEN: usize = 32;

/// The start of `s` shown with an error: its first line, cut to `CONTEXT_LEN` characters.
pub open spec fn context_of(s: Seq<char>) -> Seq<char> {
    let e = line_end_from(s, 0);
    s.subrange(0, if e < CONTEXT_LEN { e } else { CONTEXT_LEN as int })
}

/// The first position `j >= i` with a newline at `j` followed by `+` or `-`.
pub open spec fn next_break_from(r: Seq<char>, i: int) -> Option<int>
    decreases r.len() - i,
{
    if i < 0 || i + 1 >= r.len() {
        None
    } else if r[i] == '\n' && (r[i + 1] == '+' || r[i + 1] == '-') {
        Some(i)
    } else {
        next_break_from(r, i + 1)
    }
}

/// Where the segment at the start of `r` ends: just before the `+` or `-` of the next
/// answer, or at the end of `r`.
pub open spec fn segment_end(r: Seq<char>) -> int {
    match next_break_from(r, 1) {
        Some(i) => i + 1,
        None => r.len() as int,
    }
}

/// Text as it is kept in a title or an answer: trimmed, line breaks folded into spaces.
pub open spec fn clean(s: Seq<char>) -> Seq<char> {
    fold_lines(trim(s))
}

/// A segment that starts with an answer tag.
pub open spec fn is_answer_segment(seg: Seq<char>) -> bool {
    seg.len() > 0 && (seg[0] == '+' || seg[0] == '-')
}

/// The answer that an answer segment gives.
pub open spec fn segment_answer(seg: Seq<char>) -> AnswerView {
    AnswerView { correct: seg[0] == '+', text: clean(seg.drop_first()) }
}

/// Reads the segments of `r` in turn into a title and a list of answers: an answer
/// segment adds an answer, any other sets the title.
pub open spec fn read_segments(r: Seq<char>, title: Seq<char>, answers: Seq<AnswerView>) -> (
    Seq<char>,
    Seq<AnswerView>,
)
    decreases r.len(),
{
    let e = segment_end(r);
    // `segment_end` of a non-empty `r` lies in `1..=r.len()`; the bounds are checked so
    // that the recursion is seen to shrink.
    if r.len() == 0 || e < 1 || e > r.len() {
        (title, answers)
    } else {
        let seg = r.subrange(0, e);
        let rest = r.subrange(e, r.len() as int);
        if is_answer_segment(seg) {
            read_segments(rest, title, answers.push(segment_answer(seg)))
        } else {
            read_segments(rest, clean(seg), answers)
        }
    }
}

/// The title and answers of a question text whose `?` has been taken off.
pub open spec fn segment_body(body: Seq<char>) -> (Seq<char>, Seq<AnswerView>) {
    read_segments(body, seq![], seq![])
}

/// Some answer is correct.
pub open spec fn has_correct(answers: Seq<AnswerView>) -> bool {
    exists|i: int| 0 <= i < answers.len() && (#[trigger] answers[i]).correct
}

/// What parsing the question block `text` over `base` gives.
pub open spec fn question_result(base: Config, text: Seq<char>) -> Result<QuestionView, QuestionErrorView> {
    let (cfg_text, body, marker_lines) = block_parts(text);
    let ctx = context_of(body);
    match config_result(base, cfg_text) {
        Err(e) => if e.kind is MissingDelimiter && body.len() == 0 {
            Err(QuestionErrorView { kind: QuestionErrorKindView::MissingDelimiter, lines_parsed: e.lines_parsed, context: ctx })
        } else {
            Err(QuestionErrorView { kind: QuestionErrorKindView::ConfigError(e), lines_parsed: e.lines_parsed, context: ctx })
        },
        Ok(c) => {
            let lines = marker_lines + newlines(cfg_text);
            if body.len() == 0 {
                Err(QuestionErrorView { kind: QuestionErrorKindView::OnlyConfig, lines_parsed: lines, context: ctx })
            } else if !has_correct(segment_body(body).1) {
                Err(QuestionErrorView { kind: QuestionErrorKindView::NoCorrectAnswer, lines_parsed: lines, context: ctx })
            } else {
                Ok(QuestionView { title: segment_body(body).0, answers: segment_body(body).1, config: c })
            }
        },
    }
}

/// The value of a question parse result.
pub open spec fn question_outcome(r: Result<Question, QuestionError>) -> Result<QuestionView, QuestionErrorView> {
    match r {
        Ok(q) => Ok(q@),
        Err(e) => Err(e@),
    }
}

proof fn lemma_line_end_bounds(s: Seq<char>, i: int)
    requires
        0 <= i <= s.len(),
    ensures
        i <= line_end_from(s, i) <= s.len(),
    decreases s.len() - i,
{
    if i < s.len() && !(s[i] == '\n' || s[i] == '\r') {
        lemma_line_end_bounds(s, i + 1);
    }
}

/// The start of `s` shown with an error: its first line, at most `CONTEXT_LEN`
/// characters of it.
pub fn to_context_string(s: &str) -> (r: String)
    ensures
        r@ == context_of(s@),
{
    let v = chars_of(s);
    let mut e: usize = 0;
    while e < v.len() && v[e] != '\n' && v[e] != '\r'
        invariant
            e <= v.len(),
            line_end_from(v@, 0) == line_end_from(v@, e as int),
        decreases v.len() - e,
    {
        e += 1;
    }
    let cut = if e < CONTEXT_LEN {
        e
    } else {
        CONTEXT_LEN
    };
    string_of(&slice(&v, 0, cut))
}

/// Executable form of [`segment_end`].
fn segment_end_of(r: &Vec<char>) -> (e: usize)
    requires
        r.len() > 0,
    ensures
        e == segment_end(r@),
        1 <= e <= r.len(),
{
    let mut i: usize = 1;
    while i < r.len() - 1
        invariant
            1 <= i <= r.len(),
            next_break_from(r@, 1) == next_break_from(r@, i as int),
        decreases r.len() - i,
    {
        if r[i] == '\n' && (r[i + 1] == '+' || r[i + 1] == '-') {
            return i + 1;
        }
        i += 1;
    }
    r.len()
}

/// Executable form of [`clean`].
fn clean_text(s: &Vec<char>) -> (r: Vec<char>)
    ensures
        r@ == clean(s@),
{
    fold_line_breaks(&trim_chars(s))
}

/// Reads the question text `b` (its `?` taken off) into a title and answers.
fn read_body(b: &Vec<char>) -> (r: (Vec<char>, Vec<Answer>))
    ensures
        (r.0@, r.1@.map_values(|a: Answer| a@)) == segment_body(b@),
{
    let mut rest = slice(b, 0, b.len());
    assert(rest@ =~= b@);
    let mut title: Vec<char> = Vec::new();
    let mut answers: Vec<Answer> = Vec::new();
    assert(answers@.map_values(|a: Answer| a@) =~= Seq::<AnswerView>::empty());
    while rest.len() > 0
        invariant
            read_segments(rest@, title@, answers@.map_values(|a: Answer| a@)) == segment_body(b@),
        decreases rest.len(),
    {
        let e = segment_end_of(&rest);
        let seg = slice(&rest, 0, e);
        let next = slice(&rest, e, rest.len());
        if seg[0] == '+' || seg[0] == '-' {
            let body = slice(&seg, 1, seg.len());
            assert(body@ =~= seg@.drop_first());
            let text = string_of(&clean_text(&body));
            let ghost before = answers@.map_values(|a: Answer| a@);
            if seg[0] == '+' {
                answers.push(Answer::Correct(text));
            } else {
                answers.push(Answer::Incorrect(text));
            }
            assert(answers@.map_values(|a: Answer| a@) =~= before.push(segment_answer(seg@)));
        } else {
            title = clean_text(&seg);
        }
        rest = next;
    }
    (title, answers)
}

/// Splits a question text whose `?` has been taken off into its title and its answers:
/// each answer starts on a new line with `+` (correct) or `-` (incorrect).
pub fn segment_answers(body: &str) -> (r: (String, Vec<Answer>))
    ensures
        r.0@ == segment_body(body@).0,
        r.1@.map_values(|a: Answer| a@) == segment_body(body@).1,
{
    let (t, a) = read_body(&chars_of(body));
    (string_of(&t), a)
}

proof fn lemma_drop_marks_skip(s: Seq<char>, k: int)
    requires
        0 <= k <= s.len(),
        forall|i: int| 0 <= i < k ==> #[trigger] s[i] == '?',
    ensures
        drop_marks(s) == drop_marks(s.subrange(k, s.len() as int)),
    decreases k,
{
    if k > 0 {
        let t = s.drop_first();
        assert forall|i: int| 0 <= i < k - 1 implies #[trigger] t[i] == '?' by {
            assert(t[i] == s[i + 1]);
        }
        lemma_drop_marks_skip(t, k - 1);
        assert(t.subrange(k - 1, t.len() as int) =~= s.subrange(k, s.len() as int));
    } else {
        assert(s.subrange(0, s.len() as int) =~= s);
    }
}

/// Executable form of [`drop_marks`].
fn without_marks(s: &Vec<char>) -> (r: Vec<char>)
    ensures
        r@ == drop_marks(s@),
{
    let mut k: usize = 0;
    while k < s.len() && s[k] == '?'
        invariant
            k <= s.len(),
            forall|i: int| 0 <= i < k ==> #[trigger] s@[i] == '?',
        decreases s.len() - k,
    {
        k += 1;
    }
    proof {
        lemma_drop_marks_skip(s@, k as int);
    }
    slice(s, k, s.len())
}

/// Whether some answer of `answers` is correct.
fn any_correct(answers: &Vec<Answer>) -> (r: bool)
    ensures
        r == has_correct(answers@.map_values(|a: Answer| a@)),
{
    let ghost v = answers@.map_values(|a: Answer| a@);
    let mut i: usize = 0;
    while i < answers.len()
        invariant
            v == answers@.map_values(|a: Answer| a@),
            i <= answers.len(),
            forall|k: int| 0 <= k < i ==> !(#[trigger] v[k]).correct,
        decreases answers.len() - i,
    {
        assert(v[i as int] == answers@[i as int]@);
        match &answers[i] {
            Answer::Correct(_) => {
                return true;
            },
            Answer::Incorrect(_) => {},
        }
        i += 1;
    }
    false
}

impl Question {
    /// Parses one question block over the options `base`: options and comments, then a
    /// line starting with `?` that holds the title, then one line per answer.
    pub fn parse_str(base: &Config, text: &str) -> (r: Result<Question, QuestionError>)
        ensures
            question_outcome(r) == question_result(*base, text@),
            r matches Err(e) ==> e.lines_parsed <= text@.len(),
            r matches Ok(q) ==> (base.wf() ==> q.config.wf()),
    {
        let t = chars_of(text);
        let pat = vec!['\n', '?'];
        let found = find_chars(&t, &pat, 0);
        proof {
            lemma_find_from_bounds(t@, pat@, 0);
            assert(pat@ =~= seq!['\n', '?']);
        }
        let (cfg_text, body, marker_lines): (Vec<char>, Vec<char>, usize) = match found {
            Some(i) => (slice(&t, 0, i), trim_chars(&slice(&t, i + 2, t.len())), 1),
            None => if t.len() > 0 && t[0] == '?' {
                (Vec::new(), trim_chars(&without_marks(&t)), 0)
            } else {
                (slice(&t, 0, t.len()), Vec::new(), 0)
            },
        };
        proof {
            assert(t@ =~= t@.subrange(0, t.len() as int));
            assert(cfg_text@ =~= block_parts(text@).0);
            assert(body@ =~= block_parts(text@).1);
        }
        let context = to_context_string(string_of(&body).as_str());
        match Config::parse_str(base, string_of(&cfg_text).as_str()) {
            Err(e) => {
                let missing = match e.kind {
                    ConfigErrorKind::MissingDelimiter => true,
                    _ => false,
                };
                if missing && body.len() == 0 {
                    Err(QuestionError { kind: QuestionErrorKind::MissingDelimiter, lines_parsed: e.lines_parsed, context })
                } else {
                    let lines_parsed = e.lines_parsed;
                    Err(QuestionError { kind: QuestionErrorKind::ConfigError(e), lines_parsed, context })
                }
            },
            Ok(c) => {
                let lines_parsed = marker_lines + count_newlines(&cfg_text);
                if body.len() == 0 {
                    return Err(QuestionError { kind: QuestionErrorKind::OnlyConfig, lines_parsed, context });
                }
                let (title, answers) = read_body(&body);
                if !any_correct(&answers) {
                    return Err(QuestionError { kind: QuestionErrorKind::NoCorrectAnswer, lines_parsed, context });
                }
                Ok(Question { title: string_of(&title), answers, config: c })
            },
        }
    }
}

proof fn lemma_next_break(r: Seq<char>, i: int)
    requires
        0 <= i,
    ensures
        next_break_from(r, i) matches Some(j) ==> i <= j && j + 1 < r.len() && r[j] == '\n' && (r[j + 1]
            == '+' || r[j + 1] == '-'),
    decreases r.len() - i,
{
    if i + 1 < r.len() && !(r[i] == '\n' && (r[i + 1] == '+' || r[i + 1] == '-')) {
        lemma_next_break(r, i + 1);
    }
}

proof fn lemma_segments_without_plus(r: Seq<char>, title: Seq<char>, answers: Seq<AnswerView>)
    requires
        r.len() == 0 || r[0] != '+',
        forall|k: int| !match_at(r, seq!['\n', '+'], k),
        forall|k: int| 0 <= k < answers.len() ==> !(#[trigger] answers[k]).correct,
    ensures
        !has_correct(read_segments(r, title, answers).1),
    decreases r.len(),
{
    let e = segment_end(r);
    lemma_next_break(r, 1);
    if r.len() > 0 && 1 <= e <= r.len() {
        let seg = r.subrange(0, e);
        let rest = r.subrange(e, r.len() as int);
        assert(seg[0] == r[0]);
        if rest.len() > 0 {
            assert(rest[0] == r[e]);
            assert(r[e] != '+') by {
                if r[e] == '+' {
                    assert(r.subrange(e - 1, e + 1) =~= seq!['\n', '+']);
                    assert(match_at(r, seq!['\n', '+'], e - 1));
                }
            }
        }
        assert forall|k: int| !match_at(rest, seq!['\n', '+'], k) by {
            if match_at(rest, seq!['\n', '+'], k) {
                assert(r.subrange(k + e, k + e + 2) =~= rest.subrange(k, k + 2));
                assert(match_at(r, seq!['\n', '+'], k + e));
            }
        }
        if is_answer_segment(seg) {
            let more = answers.push(segment_answer(seg));
            assert forall|k: int| 0 <= k < more.len() implies !(#[trigger] more[k]).correct by {
                if k < answers.len() {
                    assert(more[k] == answers[k]);
                }
            }
            lemma_segments_without_plus(rest, title, more);
        } else {
            lemma_segments_without_plus(rest, clean(seg), answers);
        }
    } else {
        assert(read_segments(r, title, answers).1 == answers);
    }
}

/// A question whose text, its `?` taken off, holds no answer tagged `+` (it does not
/// start with `+`, and no line of it does) fails with `NoCorrectAnswer` once its options
/// have been read.
pub proof fn lemma_no_plus_no_correct(base: Config, text: Seq<char>)
    requires
        config_result(base, block_parts(text).0) is Ok,
        block_parts(text).1.len() > 0,
        block_parts(text).1[0] != '+',
        forall|k: int| !match_at(block_parts(text).1, seq!['\n', '+'], k),
    ensures
        question_result(base, text) matches Err(e) && e.kind is NoCorrectAnswer,
{
    lemma_segments_without_plus(block_parts(text).1, seq![], seq![]);
}

/// Segmenting again the question text of a block that was accepted gives back the same
/// title and the same answers, in the same order.
pub proof fn lemma_segments_reproduce(base: Config, text: Seq<char>)
    requires
        question_result(base, text) is Ok,
    ensures
        ({
            let q = question_result(base, text)->Ok_0;
            &&& segment_body(block_parts(text).1).0 == q.title
            &&& segment_body(block_parts(text).1).1 == q.answers
            &&& has_correct(q.answers)
        }),
{
}

/// Text that a title or an answer can hold as it is kept: on one line, with no white
/// space at either end.
pub open spec fn is_plain_text(t: Seq<char>) -> bool {
    &&& forall|i: int| 0 <= i < t.len() ==> t[i] != '\n'
    &&& t.len() == 0 || (!is_ws(t[0]) && !is_ws(t.last()))
}

/// The tag that starts the line of answer `a`.
pub open spec fn tag_of(a: AnswerView) -> char {
    if a.correct {
        '+'
    } else {
        '-'
    }
}

/// The lines of `answers`, each after a line break: its tag, then its text.
pub open spec fn answers_text(answers: Seq<AnswerView>) -> Seq<char>
    decreases answers.len(),
{
    if answers.len() == 0 {
        seq![]
    } else {
        seq!['\n', tag_of(answers[0])] + answers[0].text + answers_text(answers.drop_first())
    }
}

/// A question written as a block: `?` and its title, then one line per answer.
pub open spec fn question_block(title: Seq<char>, answers: Seq<AnswerView>) -> Seq<char> {
    seq!['?'] + title + answers_text(answers)
}

proof fn lemma_fold_plain(s: Seq<char>)
    requires
        forall|i: int| 0 <= i < s.len() ==> s[i] != '\n',
    ensures
        fold_lines(s) == s,
    decreases s.len(),
{
    if s.len() > 0 {
        let t = s.drop_first();
        assert forall|i: int| 0 <= i < t.len() implies t[i] != '\n' by {
            assert(t[i] == s[i + 1]);
        }
        lemma_fold_plain(t);
        if s.len() >= 2 {
            assert(s[1] != '\n');
        }
        assert(seq![s[0]] + t =~= s);
    }
}

/// A plain text followed by a line break, cleaned, is the text.
proof fn lemma_clean_line(t: Seq<char>)
    requires
        is_plain_text(t),
    ensures
        clean(t.push('\n')) == t,
{
    let u = t.push('\n');
    assert(u.drop_last() =~= t);
    assert(is_ws(u.last()));
    if t.len() > 0 {
        assert(u[0] == t[0]);
        assert(trim_start(u) == u);
        assert(trim_end(u) == trim_end(t));
        assert(trim_end(t) == t);
    } else {
        assert(u.drop_first() =~= t);
        assert(trim_start(u) == trim_start(t));
        assert(trim_start(t) == t);
        assert(trim_end(t) == t);
    }
    lemma_fold_plain(t);
}

/// A plain text, cleaned, is itself.
proof fn lemma_clean_plain(t: Seq<char>)
    requires
        is_plain_text(t),
    ensures
        clean(t) == t,
{
    if t.len() > 0 {
        assert(trim_start(t) == t);
        assert(trim_end(t) == t);
    }
    lemma_fold_plain(t);
}

/// In `answers_text`, each line break is followed by a tag.
proof fn lemma_answers_text_breaks(answers: Seq<AnswerView>)
    requires
        forall|k: int| 0 <= k < answers.len() ==> is_plain_text(#[trigger] answers[k].text),
    ensures
        forall|i: int| 0 <= i < answers_text(answers).len() && #[trigger] answers_text(answers)[i] == '\n' ==> i + 1
            < answers_text(answers).len() && (answers_text(answers)[i + 1] == '+' || answers_text(answers)[i + 1]
            == '-'),
        answers.len() > 0 ==> answers_text(answers).len() >= 2 && !is_ws(answers_text(answers).last()),
        answers.len() > 0 ==> answers_text(answers)[0] == '\n' && answers_text(answers)[1] == tag_of(answers[0]),
    decreases answers.len(),
{
    if answers.len() > 0 {
        let rest = answers.drop_first();
        assert forall|k: int| 0 <= k < rest.len() implies is_plain_text(#[trigger] rest[k].text) by {
            assert(rest[k] == answers[k + 1]);
        }
        lemma_answers_text_breaks(rest);
        let a = answers[0];
        assert(is_plain_text(a.text));
        let head = seq!['\n', tag_of(a)] + a.text;
        let all = answers_text(answers);
        assert(all == head + answers_text(rest));
        assert forall|i: int| 0 <= i < all.len() && #[trigger] all[i] == '\n' implies i + 1 < all.len() && (all[i + 1] == '+'
            || all[i + 1] == '-') by {
            if i >= head.len() {
                assert(all[i] == answers_text(rest)[i - head.len()]);
                assert(all[i + 1] == answers_text(rest)[i + 1 - head.len()]);
            } else if i >= 2 {
                assert(all[i] == a.text[i - 2]);
            }
        }
        if rest.len() > 0 {
            assert(all.last() == answers_text(rest).last());
        } else {
            assert(answers_text(rest) =~= Seq::<char>::empty());
            assert(all =~= head);
            if a.text.len() > 0 {
                assert(all.last() == a.text.last());
            }
        }
    }
}

/// `next_break_from` on a plain stretch followed by a line break and a tag finds that
/// line break.
proof fn lemma_break_after_plain(r: Seq<char>, i: int, j: int)
    requires
        0 <= i <= j,
        j + 1 < r.len(),
        forall|k: int| i <= k < j ==> r[k] != '\n',
        r[j] == '\n',
        r[j + 1] == '+' || r[j + 1] == '-',
    ensures
        next_break_from(r, i) == Some(j),
    decreases j - i,
{
    if i < j {
        lemma_break_after_plain(r, i + 1, j);
    }
}

/// `next_break_from` on text without line breaks finds none.
proof fn lemma_no_break(r: Seq<char>, i: int)
    requires
        0 <= i,
        forall|k: int| i <= k < r.len() ==> r[k] != '\n',
    ensures
        next_break_from(r, i) is None,
    decreases r.len() - i,
{
    if i + 1 < r.len() {
        lemma_no_break(r, i + 1);
    }
}

/// Reading the answer lines back gives the answers, in order.
proof fn lemma_read_answer_lines(answers: Seq<AnswerView>, title: Seq<char>, acc: Seq<AnswerView>)
    requires
        answers.len() > 0,
        forall|k: int| 0 <= k < answers.len() ==> is_plain_text(#[trigger] answers[k].text),
    ensures
        read_segments(answers_text(answers).drop_first(), title, acc) == (title, acc + answers),
    decreases answers.len(),
{
    let a = answers[0];
    let rest = answers.drop_first();
    assert(is_plain_text(a.text));
    assert forall|k: int| 0 <= k < rest.len() implies is_plain_text(#[trigger] rest[k].text) by {
        assert(rest[k] == answers[k + 1]);
    }
    let r = answers_text(answers).drop_first();
    let tail = answers_text(rest);
    assert(r =~= seq![tag_of(a)] + a.text + tail);
    let n = a.text.len() as int;
    let ans = AnswerView { correct: tag_of(a) == '+', text: a.text };
    assert(ans == a);
    if rest.len() > 0 {
        lemma_answers_text_breaks(rest);
        assert forall|k: int| 1 <= k < n + 1 implies r[k] != '\n' by {
            assert(r[k] == a.text[k - 1]);
        }
        assert(r[n + 1] == tail[0]);
        assert(r[n + 2] == tail[1]);
        lemma_break_after_plain(r, 1, n + 1);
        assert(segment_end(r) == n + 2);
        let seg = r.subrange(0, n + 2);
        assert(seg[0] == tag_of(a));
        assert(is_answer_segment(seg));
        assert(seg.drop_first() =~= a.text.push('\n'));
        lemma_clean_line(a.text);
        assert(segment_answer(seg) == ans);
        assert(r.subrange(n + 2, r.len() as int) =~= tail.drop_first());
        lemma_read_answer_lines(rest, title, acc.push(a));
        assert(read_segments(r, title, acc) == read_segments(tail.drop_first(), title, acc.push(a)));
        assert(acc.push(a) + rest =~= acc + answers);
    } else {
        assert(tail =~= Seq::<char>::empty());
        assert forall|k: int| 1 <= k < r.len() implies r[k] != '\n' by {
            assert(r[k] == a.text[k - 1]);
        }
        lemma_no_break(r, 1);
        assert(segment_end(r) == r.len());
        let seg = r.subrange(0, r.len() as int);
        assert(seg[0] == tag_of(a));
        assert(is_answer_segment(seg));
        assert(seg =~= r);
        assert(seg.drop_first() =~= a.text);
        lemma_clean_plain(a.text);
        assert(segment_answer(seg) == ans);
        assert(r.subrange(r.len() as int, r.len() as int) =~= Seq::<char>::empty());
        assert(read_segments(r, title, acc) == read_segments(Seq::<char>::empty(), title, acc.push(a)));
        assert(rest =~= Seq::<AnswerView>::empty());
        assert(acc.push(a) =~= acc + answers);
    }
}

/// A question written back as a block, `?` and its title, then one line per answer
/// tagged `+` or `-`, parses to the same title and the same answers, in the same order,
/// under the options it was parsed over.
pub proof fn lemma_question_round_trip(base: Config, title: Seq<char>, answers: Seq<AnswerView>)
    requires
        is_plain_text(title),
        title.len() == 0 || (title[0] != '?' && title[0] != '+' && title[0] != '-'),
        forall|k: int| 0 <= k < answers.len() ==> is_plain_text(#[trigger] answers[k].text),
        has_correct(answers),
    ensures
        question_result(base, question_block(title, answers)) == Ok::<QuestionView, QuestionErrorView>(
            QuestionView { title, answers, config: base },
        ),
{
    let at = answers_text(answers);
    let text = question_block(title, answers);
    let body = title + at;
    assert(answers.len() > 0);
    lemma_answers_text_breaks(answers);
    // no `\n?` in the block
    assert forall|k: int| !match_at(text, seq!['\n', '?'], k) by {
        if match_at(text, seq!['\n', '?'], k) {
            assert(text.subrange(k, k + 2)[0] == '\n');
            assert(text.subrange(k, k + 2)[1] == '?');
            assert(text[k] == '\n');
            if k < title.len() + 1 {
                assert(text[k] == title[k - 1]);
            } else {
                assert(text[k] == at[k - 1 - title.len()]);
                assert(text[k + 1] == at[k - title.len()]);
            }
        }
    }
    lemma_find_from_bounds(text, seq!['\n', '?'], 0);
    assert(text[0] == '?');
    assert(text.drop_first() =~= body);
    assert(body[0] != '?') by {
        if title.len() == 0 {
            assert(body =~= at);
        } else {
            assert(body[0] == title[0]);
        }
    }
    assert(drop_marks(body) == body);
    assert(drop_marks(text) == drop_marks(text.drop_first()));
    assert(body.last() == at.last());
    // the options: none
    let empty = Seq::<char>::empty();
    assert(find_from(empty, seq!['\n'], 0) is None);
    assert(empty.subrange(0, 0) =~= empty);
    assert(lines_of(empty) =~= seq![empty]);
    assert(trim(empty) =~= empty);
    assert(line_result(base, empty, 0) == Ok::<Config, ConfigErrorView>(base));
    assert(lines_result(base, lines_of(empty), 0) == Ok::<Config, ConfigErrorView>(base));
    assert(config_result(base, empty) == Ok::<Config, ConfigErrorView>(base));
    if title.len() == 0 {
        // no title line: the text starts at the first answer line
        assert(body =~= at);
        let rest = at.drop_first();
        assert(rest[0] == at[1]);
        assert(trim_start(rest) == rest);
        assert(trim_start(at) == trim_start(rest));
        assert(rest.last() == at.last());
        assert(trim_end(rest) == rest);
        assert(trim(body) == rest);
        assert(block_parts(text).1 == rest);
        assert(rest.len() > 0);
        assert(title =~= Seq::<char>::empty());
        lemma_read_answer_lines(answers, title, seq![]);
        assert(seq![] + answers =~= answers);
        assert(segment_body(rest) == (title, answers));
    } else {
        assert(body[0] == title[0]);
        assert(trim_start(body) == body);
        assert(trim_end(body) == body);
        // the title line
        let n = title.len() as int;
        assert forall|k: int| 1 <= k < n implies body[k] != '\n' by {
            assert(body[k] == title[k]);
        }
        assert(body[n] == at[0]);
        assert(body[n + 1] == at[1]);
        lemma_break_after_plain(body, 1, n);
        let seg = body.subrange(0, n + 1);
        assert(seg =~= title.push('\n'));
        lemma_clean_line(title);
        assert(body.subrange(n + 1, body.len() as int) =~= at.drop_first());
        lemma_read_answer_lines(answers, title, seq![]);
        assert(seq![] + answers =~= answers);
        assert(block_parts(text).1 == body);
        assert(segment_body(body) == (title, answers));
    }
}

proof fn lemma_trim_start_shape(s: Seq<char>)
    ensures
        trim_start(s).len() == 0 || !is_ws(trim_start(s)[0]),
    decreases s.len(),
{
    if s.len() > 0 && is_ws(s[0]) {
        lemma_trim_start_shape(s.drop_first());
    }
}

proof fn lemma_trim_end_shape(u: Seq<char>)
    ensures
        trim_end(u).len() == 0 || !is_ws(trim_end(u).last()),
        u.len() > 0 && !is_ws(u[0]) ==> trim_end(u).len() > 0 && trim_end(u)[0] == u[0],
    decreases u.len(),
{
    if u.len() > 0 && is_ws(u.last()) {
        lemma_trim_end_shape(u.drop_last());
        if !is_ws(u[0]) {
            assert(u.len() >= 2);
            assert(u.drop_last()[0] == u[0]);
        }
    }
}

proof fn lemma_fold_no_newline(s: Seq<char>)
    ensures
        forall|i: int| 0 <= i < fold_lines(s).len() ==> fold_lines(s)[i] != '\n',
        fold_lines(s).len() == 0 <==> s.len() == 0,
    decreases s.len(),
{
    if s.len() > 0 {
        let rest = if s.len() >= 2 && s[0] == '\r' && s[1] == '\n' {
            s.subrange(2, s.len() as int)
        } else {
            s.drop_first()
        };
        lemma_fold_no_newline(rest);
        let f = fold_lines(s);
        assert forall|i: int| 0 <= i < f.len() implies f[i] != '\n' by {
            if i > 0 {
                assert(f[i] == fold_lines(rest)[i - 1]);
            }
        }
    }
}

proof fn lemma_fold_ends(s: Seq<char>)
    requires
        s.len() > 0,
        s.last() != '\n',
    ensures
        fold_lines(s).len() > 0,
        fold_lines(s).last() == s.last(),
        s[0] != '\n' && s[0] != '\r' ==> fold_lines(s)[0] == s[0],
    decreases s.len(),
{
    let rest = if s.len() >= 2 && s[0] == '\r' && s[1] == '\n' {
        s.subrange(2, s.len() as int)
    } else {
        s.drop_first()
    };
    if rest.len() > 0 {
        assert(rest.last() == s.last());
        lemma_fold_ends(rest);
        assert(fold_lines(s).last() == fold_lines(rest).last());
    } else {
        assert(fold_lines(rest) =~= rest);
        assert(s.len() == 1);
    }
}

/// What `clean` gives is plain text; it starts where a text that starts with other than
/// white space does.
proof fn lemma_clean_shape(s: Seq<char>)
    ensures
        is_plain_text(clean(s)),
        s.len() > 0 && !is_ws(s[0]) ==> clean(s).len() > 0 && clean(s)[0] == s[0],
{
    let u = trim_start(s);
    lemma_trim_start_shape(s);
    lemma_trim_end_shape(u);
    let t = trim(s);
    lemma_fold_no_newline(t);
    if t.len() > 0 {
        assert(!is_ws(t[0]));
        lemma_fold_ends(t);
    }
    if s.len() > 0 && !is_ws(s[0]) {
        assert(u == s);
    }
}

proof fn lemma_segments_shape(r: Seq<char>, title: Seq<char>, acc: Seq<AnswerView>)
    requires
        r.len() == 0 || !is_ws(r[0]),
        is_plain_text(title),
        title.len() == 0 || (title[0] != '+' && title[0] != '-'),
        forall|k: int| 0 <= k < acc.len() ==> is_plain_text(#[trigger] acc[k].text),
    ensures
        is_plain_text(read_segments(r, title, acc).0),
        read_segments(r, title, acc).0.len() == 0 || (read_segments(r, title, acc).0[0] != '+'
            && read_segments(r, title, acc).0[0] != '-'),
        forall|k: int|
            0 <= k < read_segments(r, title, acc).1.len() ==> is_plain_text(
                #[trigger] read_segments(r, title, acc).1[k].text,
            ),
    decreases r.len(),
{
    let e = segment_end(r);
    lemma_next_break(r, 1);
    if r.len() > 0 && 1 <= e <= r.len() {
        let seg = r.subrange(0, e);
        let rest = r.subrange(e, r.len() as int);
        assert(seg[0] == r[0]);
        if rest.len() > 0 {
            assert(rest[0] == r[e]);
        }
        if is_answer_segment(seg) {
            let more = acc.push(segment_answer(seg));
            lemma_clean_shape(seg.drop_first());
            assert forall|k: int| 0 <= k < more.len() implies is_plain_text(#[trigger] more[k].text) by {
                if k < acc.len() {
                    assert(more[k] == acc[k]);
                }
            }
            lemma_segments_shape(rest, title, more);
        } else {
            lemma_clean_shape(seg);
            lemma_segments_shape(rest, clean(seg), acc);
        }
    }
}

/// Every parsed question, written back as a block (`?` and its title, then one line
/// per answer tagged `+` or `-`), parses again to the same title and the same answers,
/// in the same order, unless its title starts with `?` (a leading `?` of a block is
/// taken for the question marker).
pub proof fn lemma_parsed_question_round_trip(base: Config, text: Seq<char>)
    requires
        question_result(base, text) is Ok,
        question_result(base, text)->Ok_0.title.len() == 0 || question_result(base, text)->Ok_0.title[0]
            != '?',
    ensures
        ({
            let q = question_result(base, text)->Ok_0;
            question_result(base, question_block(q.title, q.answers)) == Ok::<QuestionView, QuestionErrorView>(
                QuestionView { title: q.title, answers: q.answers, config: base },
            )
        }),
{
    let body = block_parts(text).1;
    match find(text, seq!['\n', '?']) {
        Some(i) => {
            lemma_trim_start_shape(text.subrange(i + 2, text.len() as int));
            lemma_trim_end_shape(trim_start(text.subrange(i + 2, text.len() as int)));
        },
        None => {
            lemma_trim_start_shape(drop_marks(text));
            lemma_trim_end_shape(trim_start(drop_marks(text)));
        },
    }
    assert(body.len() == 0 || !is_ws(body[0]));
    lemma_segments_shape(body, seq![], seq![]);
    let q = question_result(base, text)->Ok_0;
    lemma_question_round_trip(base, q.title, q.answers);
}

impl std::str::FromStr for Question {
    type Err = QuestionError;

    /// Parses a question block over the default options.
    fn from_str(s: &str) -> (r: Result<Question, QuestionError>)
        ensures
            question_outcome(r) == question_result(default_config(), s@),
            r matches Ok(q) ==> q.config.wf(),
    {
        Question::parse_str(&Config::default(), s)
    }
}

} // verus!
