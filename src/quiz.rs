//! A whole quiz document: quiz-wide options, then question blocks separated by blank
//! lines.
use vstd::prelude::*;
use vstd::std_specs::cmp::PartialEqSpec;
use crate::config::{Config, ConfigError, ConfigErrorView, config_result, default_config};
use crate::points::{MAX_MICROS, Points};
use crate::question::{
    Question, QuestionError, QuestionErrorKind, QuestionErrorView, QuestionView, question_result,
};
use crate::text::{
    chars_of, count_newlines, find, find_chars, lemma_find_from_bounds, lemma_pieces_len_concat,
    lemma_pieces_len_nonneg, lemma_split_len, newlines, pieces_len, slice, split_by, split_chars,
    string_of,
};

verus! {

/// A parsed quiz.
#[derive(Debug)]
pub struct Quiz {
    /// The quiz-wide options, which every question starts from.
    pub config: Config,
    /// The questions, in the order written.
    pub questions: Vec<Question>,
    /// The points of all questions together: the best score.
    pub total_score: Points,
}

/// The value of a [`Quiz`].
pub struct QuizView {
    pub config: Config,
    pub questions: Seq<QuestionView>,
    pub total_score: int,
}

impl View for Quiz {
    type V = QuizView;

    open spec fn view(&self) -> QuizView {
        QuizView {
            config: self.config,
            questions: self.questions@.map_values(|q: Question| q@),
            total_score: self.total_score.value(),
        }
    }
}

impl PartialEq for Quiz {
    fn eq(&self, o: &Quiz) -> (r: bool) {
        let same_questions = self.questions == o.questions;
        proof {
            let a = self.questions@.map_values(|q: Question| q@);
            let b = o.questions@.map_values(|q: Question| q@);
            if same_questions {
                assert forall|i: int| 0 <= i < a.len() implies a[i] == b[i] by {
                    assert(self.questions[i].eq_spec(&o.questions[i]));
                    assert(a[i] == self.questions@[i]@);
                    assert(b[i] == o.questions@[i]@);
                }
                assert(a =~= b);
            } else if a == b {
                assert(a.len() == self.questions.len() && b.len() == o.questions.len());
                assert forall|i: int| 0 <= i < self.questions.len() implies self.questions[i].eq_spec(
                    &o.questions[i],
                ) by {
                    assert(a[i] == b[i]);
                    assert(a[i] == self.questions@[i]@);
                    assert(b[i] == o.questions@[i]@);
                }
            }
        }
        self.config == o.config && self.total_score == o.total_score && same_questions
    }
}

impl vstd::std_specs::cmp::PartialEqSpecImpl for Quiz {
    open spec fn obeys_eq_spec() -> bool {
        true
    }

    open spec fn eq_spec(&self, o: &Quiz) -> bool {
        self@ == o@
    }
}

#[derive(Debug)]
pub enum QuizErrorKind {
    ConfigError(ConfigError),
    QuestionError(QuestionError),
}

/// The value of a [`QuizErrorKind`].
pub enum QuizErrorKindView {
    ConfigError(ConfigErrorView),
    QuestionError(QuestionErrorView),
}

impl View for QuizErrorKind {
    type V = QuizErrorKindView;

    open spec fn view(&self) -> QuizErrorKindView {
        match self {
            QuizErrorKind::ConfigError(e) => QuizErrorKindView::ConfigError(e@),
            QuizErrorKind::QuestionError(e) => QuizErrorKindView::QuestionError(e@),
        }
    }
}

impl PartialEq for QuizErrorKind {
    fn eq(&self, o: &QuizErrorKind) -> (r: bool) {
        match self {
            QuizErrorKind::ConfigError(a) => match o {
                QuizErrorKind::ConfigError(b) => a == b,
                QuizErrorKind::QuestionError(_) => false,
            },
            QuizErrorKind::QuestionError(a) => match o {
                QuizErrorKind::QuestionError(b) => a == b,
                QuizErrorKind::ConfigError(_) => false,
            },
        }
    }
}

impl vstd::std_specs::cmp::PartialEqSpecImpl for QuizErrorKind {
    open spec fn obeys_eq_spec() -> bool {
        true
    }

    open spec fn eq_spec(&self, o: &QuizErrorKind) -> bool {
        self@ == o@
    }
}

/// A quiz document that could not be read.
#[derive(Debug)]
pub struct QuizError {
    pub kind: QuizErrorKind,
    /// How many lines of the document came before the failing one (the failing line is
    /// `lines_parsed + 1`, counted from one).
    pub lines_parsed: usize,
}

/// The value of a [`QuizError`].
pub struct QuizErrorView {
    pub kind: QuizErrorKindView,
    pub lines_parsed: int,
}

impl View for QuizError {
    type V = QuizErrorView;

    open spec fn view(&self) -> QuizErrorView {
        QuizErrorView { kind: self.kind@, lines_parsed: self.lines_parsed as int }
    }
}

impl PartialEq for QuizError {
    fn eq(&self, o: &QuizError) -> (r: bool) {
        self.kind == o.kind && self.lines_parsed == o.lines_parsed
    }
}

impl vstd::std_specs::cmp::PartialEqSpecImpl for QuizError {
    open spec fn obeys_eq_spec() -> bool {
        true
    }

    open spec fn eq_spec(&self, o: &QuizError) -> bool {
        self@ == o@
    }
}

/// `s` without the `---` fences at its start.
pub open spec fn drop_fences(s: Seq<char>) -> Seq<char>
    decreases s.len(),
{
    if s.len() >= 3 && s.subrange(0, 3) == seq!['-', '-', '-'] {
        drop_fences(s.subrange(3, s.len() as int))
    } else {
        s
    }
}

/// A document cut into its quiz-wide option text and its questions, at the first line
/// that starts with `---`.
pub open spec fn quiz_parts(text: Seq<char>) -> (Seq<char>, Seq<char>) {
    let t = drop_fences(text);
    match find(t, seq!['\n', '-', '-', '-']) {
        Some(i) => (t.subrange(0, i), t.subrange(i + 4, t.len() as int)),
        None => (seq![], t),
    }
}

/// The blocks of the pieces `pieces`, each cut at its blank lines.
pub open spec fn blocks_of_pieces(pieces: Seq<Seq<char>>) -> Seq<Seq<char>>
    decreases pieces.len(),
{
    if pieces.len() == 0 {
        seq![]
    } else {
        blocks_of_pieces(pieces.drop_last()) + split_by(pieces.last(), seq!['\n', '\n'])
    }
}

/// The question blocks of `body`: cut at Windows blank lines, then at blank lines.
pub open spec fn blocks_of(body: Seq<char>) -> Seq<Seq<char>> {
    blocks_of_pieces(split_by(body, seq!['\r', '\n', '\r', '\n']))
}

/// Reads the first `n` of `blocks` over `cfg`, the first of them after `first_line`
/// lines: the questions read, and the lines that they and their separators take.
pub open spec fn blocks_result(cfg: Config, blocks: Seq<Seq<char>>, n: nat, first_line: int) -> Result<
    (Seq<QuestionView>, int),
    QuizErrorView,
>
    decreases n,
{
    if n == 0 {
        Ok((seq![], first_line))
    } else {
        match blocks_result(cfg, blocks, (n - 1) as nat, first_line) {
            Err(e) => Err(e),
            Ok((qs, line)) => {
                let b = blocks[n - 1];
                let next = line + 2 + newlines(b);
                if b.len() == 0 {
                    Ok((qs, next))
                } else {
                    match question_result(cfg, b) {
                        Ok(q) => Ok((qs.push(q), next)),
                        Err(e) => if e.kind is OnlyConfig {
                            Ok((qs, next))
                        } else {
                            Err(
                                QuizErrorView {
                                    kind: QuizErrorKindView::QuestionError(e),
                                    lines_parsed: line + e.lines_parsed,
                                },
                            )
                        },
                    }
                }
            },
        }
    }
}

/// The points of the questions `qs` together.
pub open spec fn total_of(qs: Seq<QuestionView>) -> int
    decreases qs.len(),
{
    if qs.len() == 0 {
        0
    } else {
        total_of(qs.drop_last()) + qs.last().config.value.value()
    }
}

/// The lines before the first question block.
pub open spec fn header_lines(cfg_text: Seq<char>) -> int {
    newlines(cfg_text) + if cfg_text.len() != 0 {
        1int
    } else {
        0
    }
}

/// What parsing the quiz document `text` gives.
pub open spec fn quiz_result(text: Seq<char>) -> Result<QuizView, QuizErrorView> {
    let (cfg_text, body) = quiz_parts(text);
    match config_result(default_config(), cfg_text) {
        Err(e) => Err(QuizErrorView { kind: QuizErrorKindView::ConfigError(e), lines_parsed: e.lines_parsed }),
        Ok(c) => {
            let blocks = blocks_of(body);
            match blocks_result(c, blocks, blocks.len(), header_lines(cfg_text)) {
                Err(e) => Err(e),
                Ok((qs, _)) => Ok(QuizView { config: c, questions: qs, total_score: total_of(qs) }),
            }
        },
    }
}

/// The value of a quiz parse result.
pub open spec fn quiz_outcome(r: Result<Quiz, QuizError>) -> Result<QuizView, QuizErrorView> {
    match r {
        Ok(q) => Ok(q@),
        Err(e) => Err(e@),
    }
}

proof fn lemma_drop_fences_skip(s: Seq<char>, k: int)
    requires
        0 <= k <= s.len(),
        k % 3 == 0,
        forall|i: int| 0 <= i < k ==> #[trigger] s[i] == '-',
    ensures
        drop_fences(s) == drop_fences(s.subrange(k, s.len() as int)),
    decreases k,
{
    if k > 0 {
        assert(s.subrange(0, 3) =~= seq!['-', '-', '-']);
        let t = s.subrange(3, s.len() as int);
        assert forall|i: int| 0 <= i < k - 3 implies #[trigger] t[i] == '-' by {
            assert(t[i] == s[i + 3]);
        }
        lemma_drop_fences_skip(t, k - 3);
        assert(t.subrange(k - 3, t.len() as int) =~= s.subrange(k, s.len() as int));
    } else {
        assert(s.subrange(0, s.len() as int) =~= s);
    }
}

/// Executable form of [`drop_fences`].
fn without_fences(s: &Vec<char>) -> (r: Vec<char>)
    ensures
        r@ == drop_fences(s@),
{
    let mut k: usize = 0;
    while s.len() - k >= 3 && s[k] == '-' && s[k + 1] == '-' && s[k + 2] == '-'
        invariant
            k <= s.len(),
            k % 3 == 0,
            forall|i: int| 0 <= i < k ==> #[trigger] s@[i] == '-',
        decreases s.len() - k,
    {
        k += 3;
    }
    proof {
        lemma_drop_fences_skip(s@, k as int);
        let t = s@.subrange(k as int, s.len() as int);
        if t.len() >= 3 {
            assert(t.subrange(0, 3)[0] == s@[k as int]);
            assert(t.subrange(0, 3)[1] == s@[k + 1]);
            assert(t.subrange(0, 3)[2] == s@[k + 2]);
        }
    }
    slice(s, k, s.len())
}

/// The question blocks of `body`, which together take at most two more characters
/// than `body` when each is counted with two for its separator.
fn blocks_in(body: &Vec<char>) -> (r: Vec<Vec<char>>)
    ensures
        r@.map_values(|v: Vec<char>| v@) == blocks_of(body@),
        pieces_len(blocks_of(body@), 2) <= body.len() + 2,
{
    let crlf = vec!['\r', '\n', '\r', '\n'];
    let lf = vec!['\n', '\n'];
    assert(crlf@ =~= seq!['\r', '\n', '\r', '\n']);
    assert(lf@ =~= seq!['\n', '\n']);
    let pieces = split_chars(body, &crlf);
    let ghost ps = split_by(body@, crlf@);
    proof {
        lemma_split_len(body@, crlf@, 0);
    }
    let mut r: Vec<Vec<char>> = Vec::new();
    let mut k: usize = 0;
    assert(ps.take(0) =~= Seq::<Seq<char>>::empty());
    assert(r@.map_values(|v: Vec<char>| v@) =~= Seq::<Seq<char>>::empty());
    assert(ps.skip(0) =~= ps);
    while k < pieces.len()
        invariant
            pieces@.map_values(|v: Vec<char>| v@) == ps,
            ps == split_by(body@, crlf@),
            lf@ == seq!['\n', '\n'],
            ps.len() >= 1,
            k <= ps.len(),
            r@.map_values(|v: Vec<char>| v@) == blocks_of_pieces(ps.take(k as int)),
            pieces_len(blocks_of_pieces(ps.take(k as int)), 2) + pieces_len(ps.skip(k as int), 4) + 2 * k
                == body.len() + 4,
        decreases pieces.len() - k,
    {
        let piece = &pieces[k];
        assert(piece@ == ps[k as int]);
        let blocks = split_chars(piece, &lf);
        let ghost bs = split_by(ps[k as int], lf@);
        proof {
            lemma_split_len(ps[k as int], lf@, 0);
            assert(ps.take(k + 1).drop_last() =~= ps.take(k as int));
            assert(blocks_of_pieces(ps.take(k + 1)) == blocks_of_pieces(ps.take(k as int)) + bs);
            lemma_pieces_len_concat(blocks_of_pieces(ps.take(k as int)), bs, 2);
            assert(ps.skip(k as int).drop_first() =~= ps.skip(k + 1));
        }
        let mut j: usize = 0;
        let ghost before = r@.map_values(|v: Vec<char>| v@);
        while j < blocks.len()
            invariant
                blocks@.map_values(|v: Vec<char>| v@) == bs,
                j <= blocks.len(),
                r@.map_values(|v: Vec<char>| v@) == before + bs.take(j as int),
            decreases blocks.len() - j,
        {
            let b = slice(&blocks[j], 0, blocks[j].len());
            assert(b@ =~= bs[j as int]);
            let ghost mid = r@.map_values(|v: Vec<char>| v@);
            r.push(b);
            assert(r@.map_values(|v: Vec<char>| v@) =~= mid.push(b@));
            assert(bs.take(j + 1) =~= bs.take(j as int).push(bs[j as int]));
            j += 1;
        }
        assert(bs.take(j as int) =~= bs);
        k += 1;
    }
    proof {
        assert(ps.take(k as int) =~= ps);
        assert(ps.skip(k as int) =~= Seq::<Seq<char>>::empty());
        assert(pieces_len(ps.skip(k as int), 4) == 0);
    }
    r
}

proof fn lemma_blocks_result_stops(cfg: Config, blocks: Seq<Seq<char>>, n: nat, m: nat, first: int)
    requires
        n <= m,
        blocks_result(cfg, blocks, n, first) is Err,
    ensures
        blocks_result(cfg, blocks, m, first) == blocks_result(cfg, blocks, n, first),
    decreases m - n,
{
    if n < m {
        lemma_blocks_result_stops(cfg, blocks, n, (m - 1) as nat, first);
    }
}

/// The points of `qs` together.
fn total_points(qs: &Vec<Question>) -> (r: Points)
    requires
        forall|i: int| 0 <= i < qs.len() ==> (#[trigger] qs[i]).config.wf(),
    ensures
        r.value() == total_of(qs@.map_values(|q: Question| q@)),
{
    let ghost v = qs@.map_values(|q: Question| q@);
    let mut total = Points::zero();
    let mut i: usize = 0;
    while i < qs.len()
        invariant
            v == qs@.map_values(|q: Question| q@),
            forall|i: int| 0 <= i < qs.len() ==> (#[trigger] qs[i]).config.wf(),
            i <= qs.len(),
            total.value() == total_of(v.take(i as int)),
            -(i * MAX_MICROS) <= total.value() <= i * MAX_MICROS,
        decreases qs.len() - i,
    {
        assert(v.take(i + 1).drop_last() =~= v.take(i as int));
        assert(v[i as int] == qs[i as int]@);
        assert(qs[i as int].config.wf());
        let ghost t = total.value();
        assert(-((i + 1) * MAX_MICROS) <= t + qs[i as int].config.value.value() <= (i + 1) * MAX_MICROS)
            by (nonlinear_arith)
            requires
                -(i * MAX_MICROS) <= t <= i * MAX_MICROS,
                -MAX_MICROS <= qs[i as int].config.value.value() <= MAX_MICROS,
        ;
        assert((i + 1) * MAX_MICROS <= usize::MAX * MAX_MICROS) by (nonlinear_arith)
            requires
                i + 1 <= usize::MAX,
        ;
        total = total.add(qs[i].config.value);
        i += 1;
    }
    assert(v.take(i as int) =~= v);
    total
}

impl Quiz {
    /// The options of the quiz and of each question hold point values within range.
    pub open spec fn wf(&self) -> bool {
        &&& self.config.wf()
        &&& forall|i: int| 0 <= i < self.questions.len() ==> (#[trigger] self.questions[i]).config.wf()
    }

    /// Parses a quiz document: quiz-wide options ended by a line starting with `---`
    /// (optional), then question blocks separated by blank lines. Blocks that hold only
    /// options and comments are left out.
    pub fn parse(text: &str) -> (r: Result<Quiz, QuizError>)
        ensures
            quiz_outcome(r) == quiz_result(text@),
            r matches Ok(q) ==> q.wf(),
    {
        let t0 = chars_of(text);
        let t = without_fences(&t0);
        let pat = vec!['\n', '-', '-', '-'];
        assert(pat@ =~= seq!['\n', '-', '-', '-']);
        let found = find_chars(&t, &pat, 0);
        proof {
            lemma_find_from_bounds(t@, pat@, 0);
        }
        let (cfg_text, body) = match found {
            Some(i) => (slice(&t, 0, i), slice(&t, i + 4, t.len())),
            None => (Vec::new(), slice(&t, 0, t.len())),
        };
        proof {
            assert(t@ =~= t@.subrange(0, t.len() as int));
            assert(cfg_text@ =~= quiz_parts(text@).0);
            assert(body@ =~= quiz_parts(text@).1);
        }
        let dflt = Config::default();
        let config = match Config::parse_str(&dflt, string_of(&cfg_text).as_str()) {
            Ok(c) => c,
            Err(e) => {
                let lines_parsed = e.lines_parsed;
                return Err(QuizError { kind: QuizErrorKind::ConfigError(e), lines_parsed });
            },
        };
        let mut line: usize = count_newlines(&cfg_text);
        if cfg_text.len() != 0 {
            line = line + 1;
        }
        let ghost header = line as int;
        assert(header == header_lines(quiz_parts(text@).0));
        assert(config_result(default_config(), quiz_parts(text@).0) == Ok::<Config, ConfigErrorView>(config));
        let blocks = blocks_in(&body);
        let ghost bs = blocks_of(body@);
        let mut questions: Vec<Question> = Vec::new();
        let ghost mut used: int = 0;
        let mut k: usize = 0;
        assert(bs.skip(0) =~= bs);
        while k < blocks.len()
            invariant
                blocks@.map_values(|v: Vec<char>| v@) == bs,
                bs == blocks_of(body@),
                body@ == quiz_parts(text@).1,
                header == header_lines(quiz_parts(text@).0),
                config_result(default_config(), quiz_parts(text@).0) == Ok::<Config, ConfigErrorView>(config),
                config.wf(),
                forall|i: int| 0 <= i < questions.len() ==> (#[trigger] questions[i]).config.wf(),
                k <= bs.len(),
                blocks_result(config, bs, k as nat, header) matches Ok((qs, l)) && qs
                    == questions@.map_values(|q: Question| q@) && (k < bs.len() ==> l == line),
                line <= header + used,
                used + pieces_len(bs.skip(k as int), 2) == pieces_len(bs, 2),
                pieces_len(bs, 2) <= body.len() + 2,
                header + body.len() <= t.len(),
            decreases blocks.len() - k,
        {
            let b = &blocks[k];
            assert(b@ == bs[k as int]);
            assert(bs.skip(k as int).drop_first() =~= bs.skip(k + 1));
            assert(pieces_len(bs.skip(k as int), 2) == b.len() + 2 + pieces_len(bs.skip(k + 1), 2));
            proof {
                if k + 1 < bs.len() {
                    assert(bs.skip(k + 1).drop_first() =~= bs.skip(k + 2));
                    assert(bs.skip(k + 1)[0] == bs[k + 1]);
                    lemma_pieces_len_nonneg(bs.skip(k + 2), 2);
                }
                lemma_pieces_len_nonneg(bs.skip(k + 1), 2);
            }
            let ghost qv = questions@.map_values(|q: Question| q@);
            if b.len() != 0 {
                match Question::parse_str(&config, string_of(b).as_str()) {
                    Ok(q) => {
                        questions.push(q);
                        assert(questions@.map_values(|q: Question| q@) =~= qv.push(q@));
                    },
                    Err(e) => {
                        let only = match e.kind {
                            QuestionErrorKind::OnlyConfig => true,
                            _ => false,
                        };
                        if !only {
                            let lines_parsed = line + e.lines_parsed;
                            proof {
                                assert(!(e@.kind is OnlyConfig));
                                assert(question_result(config, bs[k as int]) == Err::<QuestionView, QuestionErrorView>(e@));
                                assert(blocks_result(config, bs, (k + 1) as nat, header) == Err::<
                                    (Seq<QuestionView>, int),
                                    QuizErrorView,
                                >(QuizErrorView { kind: QuizErrorKindView::QuestionError(e@), lines_parsed: line + e.lines_parsed }));
                                lemma_blocks_result_stops(config, bs, (k + 1) as nat, bs.len(), header);
                            }
                            return Err(QuizError { kind: QuizErrorKind::QuestionError(e), lines_parsed });
                        }
                    },
                }
            }
            if k + 1 < blocks.len() {
                line = line + 2 + count_newlines(b);
            }
            proof {
                used = used + b.len() + 2;
            }
            k += 1;
        }
        let total_score = total_points(&questions);
        Ok(Quiz { config, questions, total_score })
    }
}

/// The best score of a parsed quiz is the sum of the point values of its questions; a
/// quiz without questions has a best score of zero.
pub proof fn lemma_total_score(text: Seq<char>)
    requires
        quiz_result(text) is Ok,
    ensures
        ({
            let q = quiz_result(text)->Ok_0;
            &&& q.total_score == total_of(q.questions)
            &&& q.questions.len() == 0 ==> q.total_score == 0
        }),
{
}

impl From<ConfigError> for QuizErrorKind {
    fn from(value: ConfigError) -> (r: QuizErrorKind)
        ensures
            r@ == QuizErrorKindView::ConfigError(value@),
    {
        QuizErrorKind::ConfigError(value)
    }
}

impl vstd::std_specs::convert::FromSpecImpl<ConfigError> for QuizErrorKind {
    open spec fn obeys_from_spec() -> bool {
        true
    }

    open spec fn from_spec(v: ConfigError) -> QuizErrorKind {
        QuizErrorKind::ConfigError(v)
    }
}

impl From<QuestionError> for QuizErrorKind {
    fn from(value: QuestionError) -> (r: QuizErrorKind)
        ensures
            r@ == QuizErrorKindView::QuestionError(value@),
    {
        QuizErrorKind::QuestionError(value)
    }
}

impl vstd::std_specs::convert::FromSpecImpl<QuestionError> for QuizErrorKind {
    open spec fn obeys_from_spec() -> bool {
        true
    }

    open spec fn from_spec(v: QuestionError) -> QuizErrorKind {
        QuizErrorKind::QuestionError(v)
    }
}

impl std::str::FromStr for Quiz {
    type Err = QuizError;

    /// Parses a quiz document, as [`Quiz::parse`] does.
    fn from_str(s: &str) -> (r: Result<Quiz, QuizError>)
        ensures
            quiz_outcome(r) == quiz_result(s@),
            r matches Ok(q) ==> q.wf(),
    {
        Quiz::parse(s)
    }
}

} // verus!
