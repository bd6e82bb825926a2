//! Grading the responses to a quiz's questions, and the score of a session.
use vstd::prelude::*;
use crate::points::{MAX_MICROS, Points, all_digits, digits_value, is_digit, lemma_digits_value_nonneg};
use crate::question::{Answer, AnswerView, Question, QuestionView};
use crate::quiz::Quiz;
use crate::text::{chars_of, lower_of, lowercase, string_of, trim, trim_chars};

verus! {
/// Whether the typed `response` answers the typed question `q`: after trimming the
/// response, it equals the answer, case folded on both sides unless the question is
/// case-sensitive.
pub open spec fn typed_correct(q: QuestionView, response: Seq<char>) -> bool {
    let a = q.answers[0].text;
    if q.config.case_sensitive {
        a == trim(response)
    } else {
        lower_of(a) == trim(lower_of(response))
    }
}

/// Whether `response`, once trimmed, is exactly `expected`.
pub fn typed_answer_matches(expected: &str, response: &str) -> (r: bool)
    ensures
        r == (expected@ == trim(response@)),
{
    let e = chars_of(expected);
    let t = trim_chars(&chars_of(response));
    if e.len() != t.len() {
        return false;
    }
    let mut i: usize = 0;
    while i < e.len()
        invariant
            e@ == expected@,
            t@ == trim(response@),
            e.len() == t.len(),
            i <= e.len(),
            forall|k: int| 0 <= k < i ==> e@[k] == t@[k],
        decreases e.len() - i,
    {
        if e[i] != t[i] {
            assert(e@[i as int] != t@[i as int]);
            return false;
        }
        i += 1;
    }
    assert(e@ =~= t@);
    true
}

/// Grades a typed response to `q`, a question with one answer, which is correct.
pub fn grade_typed(q: &Question, response: &str) -> (r: bool)
    requires
        q.answers.len() == 1,
        q@.answers[0].correct,
    ensures
        r == typed_correct(q@, response@),
{
    assert(q@.answers[0] == q.answers@[0]@);
    let answer = match &q.answers[0] {
        Answer::Correct(t) => t,
        Answer::Incorrect(t) => t,
    };
    if q.config.case_sensitive {
        typed_answer_matches(answer.as_str(), response)
    } else {
        let a = lowercase(&chars_of(answer.as_str()));
        let resp = lowercase(&chars_of(response));
        let a_text = string_of(&a);
        let resp_text = string_of(&resp);
        typed_answer_matches(a_text.as_str(), resp_text.as_str())
    }
}

/// The places, in the shown order `order`, that hold a correct answer of `answers`.
pub open spec fn correct_places(answers: Seq<AnswerView>, order: Seq<usize>) -> Seq<usize>
    decreases order.len(),
{
    if order.len() == 0 {
        seq![]
    } else if answers[order.last() as int].correct {
        correct_places(answers, order.drop_last()).push((order.len() - 1) as usize)
    } else {
        correct_places(answers, order.drop_last())
    }
}

/// The places, in the shown order `order`, of the correct answers of `q`.
pub fn correct_places_of(q: &Question, order: &Vec<usize>) -> (r: Vec<usize>)
    requires
        forall|k: int| 0 <= k < order.len() ==> #[trigger] order[k] < q.answers.len(),
    ensures
        r@ == correct_places(q@.answers, order@),
{
    let ghost answers = q@.answers;
    let mut r: Vec<usize> = Vec::new();
    let mut k: usize = 0;
    while k < order.len()
        invariant
            answers == q@.answers,
            forall|k: int| 0 <= k < order.len() ==> #[trigger] order[k] < q.answers.len(),
            k <= order.len(),
            r@ == correct_places(answers, order@.take(k as int)),
        decreases order.len() - k,
    {
        assert(order@.take(k + 1).drop_last() =~= order@.take(k as int));
        let a = order[k];
        assert(answers[a as int] == q.answers@[a as int]@);
        match &q.answers[a] {
            Answer::Correct(_) => r.push(k),
            Answer::Incorrect(_) => {},
        }
        k += 1;
    }
    assert(order@.take(k as int) =~= order@);
    r
}

/// The number of correct answers among `answers`.
pub open spec fn count_correct(answers: Seq<AnswerView>) -> nat
    decreases answers.len(),
{
    if answers.len() == 0 {
        0
    } else {
        count_correct(answers.drop_last()) + if answers.last().correct {
            1nat
        } else {
            0nat
        }
    }
}

/// Whether exactly one answer of `q` is correct: a single choice is then asked for, not
/// several.
pub fn single_correct(q: &Question) -> (r: bool)
    ensures
        r == (count_correct(q@.answers) == 1),
{
    let ghost answers = q@.answers;
    let mut n: usize = 0;
    let mut k: usize = 0;
    while k < q.answers.len()
        invariant
            answers == q@.answers,
            k <= q.answers.len(),
            n == count_correct(answers.take(k as int)),
            n <= k,
        decreases q.answers.len() - k,
    {
        assert(answers.take(k + 1).drop_last() =~= answers.take(k as int));
        assert(answers[k as int] == q.answers@[k as int]@);
        match &q.answers[k] {
            Answer::Correct(_) => n += 1,
            Answer::Incorrect(_) => {},
        }
        k += 1;
    }
    assert(answers.take(k as int) =~= answers);
    n == 1
}

/// A character that separates the numbers of a multiple-choice response.
pub open spec fn is_choice_separator(c: char) -> bool {
    c == '.' || c == ' ' || c == ';' || c == ','
}

/// `s` cut at each choice separator.
pub open spec fn choice_tokens(s: Seq<char>) -> Seq<Seq<char>>
    decreases s.len(),
{
    if s.len() == 0 {
        seq![seq![]]
    } else {
        let t = choice_tokens(s.drop_last());
        if is_choice_separator(s.last()) {
            t.push(seq![])
        } else {
            t.update(t.len() - 1, t.last().push(s.last()))
        }
    }
}

/// The number that `s` writes as `usize::from_str` reads it: an optional `+`, then
/// decimal digits, at most `usize::MAX`.
pub open spec fn index_text(s: Seq<char>) -> Option<usize> {
    let d = if s.len() > 0 && s[0] == '+' {
        s.drop_first()
    } else {
        s
    };
    if d.len() > 0 && all_digits(d) && digits_value(d) <= usize::MAX {
        Some(digits_value(d) as usize)
    } else {
        None
    }
}

/// The numbers read from the first `n` tokens of `ts`; tokens that are no number are
/// passed over.
pub open spec fn picks(ts: Seq<Seq<char>>, n: int) -> Seq<usize>
    decreases n,
{
    if n <= 0 {
        seq![]
    } else {
        match index_text(trim(ts[n - 1])) {
            Some(v) => picks(ts, n - 1).push(v),
            None => picks(ts, n - 1),
        }
    }
}

/// The numbers chosen in a multiple-choice response line.
pub open spec fn selection(line: Seq<char>) -> Seq<usize> {
    picks(choice_tokens(line), choice_tokens(line).len() as int)
}

/// Executable form of [`choice_tokens`].
fn tokens_of(s: &Vec<char>) -> (r: Vec<Vec<char>>)
    ensures
        r@.map_values(|v: Vec<char>| v@) == choice_tokens(s@),
{
    let mut done: Vec<Vec<char>> = Vec::new();
    let mut cur: Vec<char> = Vec::new();
    let mut i: usize = 0;
    assert(s@.subrange(0, 0) =~= Seq::<char>::empty());
    assert(done@.map_values(|v: Vec<char>| v@).push(cur@) =~= seq![Seq::<char>::empty()]);
    while i < s.len()
        invariant
            i <= s.len(),
            done@.map_values(|v: Vec<char>| v@).push(cur@) == choice_tokens(s@.subrange(0, i as int)),
        decreases s.len() - i,
    {
        let ghost before = done@.map_values(|v: Vec<char>| v@);
        assert(s@.subrange(0, i + 1).drop_last() =~= s@.subrange(0, i as int));
        let c = s[i];
        if c == '.' || c == ' ' || c == ';' || c == ',' {
            let finished = cur;
            cur = Vec::new();
            done.push(finished);
            assert(done@.map_values(|v: Vec<char>| v@) =~= before.push(finished@));
            assert(done@.map_values(|v: Vec<char>| v@).push(cur@) =~= before.push(finished@).push(seq![]));
        } else {
            let ghost old_cur = cur@;
            cur.push(c);
            assert(before.push(cur@) =~= before.push(old_cur).update(before.len() as int, old_cur.push(c)));
        }
        i += 1;
    }
    assert(s@.subrange(0, s.len() as int) =~= s@);
    let ghost before = done@.map_values(|v: Vec<char>| v@);
    done.push(cur);
    assert(done@.map_values(|v: Vec<char>| v@) =~= before.push(cur@));
    done
}

/// Reads a number as `usize::from_str` does.
fn read_index(s: &Vec<char>) -> (r: Option<usize>)
    ensures
        r == index_text(s@),
{
    let start: usize = if s.len() > 0 && s[0] == '+' {
        1
    } else {
        0
    };
    let ghost d = if s.len() > 0 && s@[0] == '+' {
        s@.drop_first()
    } else {
        s@
    };
    assert(d =~= s@.subrange(start as int, s.len() as int));
    if start >= s.len() {
        return None;
    }
    let mut acc: usize = 0;
    let mut i: usize = start;
    while i < s.len()
        invariant
            start <= i <= s.len(),
            d == s@.subrange(start as int, s.len() as int),
            d == (if s@.len() > 0 && s@[0] == '+' {
                s@.drop_first()
            } else {
                s@
            }),
            d.len() > 0,
            all_digits(s@.subrange(start as int, i as int)),
            acc == digits_value(s@.subrange(start as int, i as int)),
        decreases s.len() - i,
    {
        let ghost pre = s@.subrange(start as int, i as int);
        let ghost next = s@.subrange(start as int, i + 1);
        assert(next.drop_last() =~= pre);
        let c = s[i];
        if !('0' <= c && c <= '9') {
            assert(d[i - start] == c);
            assert(!all_digits(d));
            return None;
        }
        let v = (c as u32 - '0' as u32) as usize;
        assert(digits_value(next) == acc * 10 + v);
        assert(all_digits(next)) by {
            assert forall|k: int| 0 <= k < next.len() implies is_digit(#[trigger] next[k]) by {
                if k < pre.len() {
                    assert(next[k] == pre[k]);
                }
            }
        }
        if acc > (usize::MAX - v) / 10 {
            proof {
                assert(d.subrange(0, i + 1 - start) =~= next);
                lemma_digits_prefix_le(d, i + 1 - start);
                assert(acc * 10 + v > usize::MAX) by (nonlinear_arith)
                    requires
                        acc > (usize::MAX - v) / 10,
                        v <= 9,
                ;
            }
            return None;
        }
        acc = acc * 10 + v;
        i += 1;
    }
    Some(acc)
}

proof fn lemma_digits_prefix_le(d: Seq<char>, k: int)
    requires
        0 <= k <= d.len(),
        all_digits(d.subrange(0, k)),
    ensures
        all_digits(d) ==> digits_value(d.subrange(0, k)) <= digits_value(d),
    decreases d.len() - k,
{
    if k < d.len() && all_digits(d) {
        assert(d.subrange(0, k + 1).drop_last() =~= d.subrange(0, k));
        lemma_digits_prefix_le(d, k + 1);
        lemma_digits_value_nonneg(d.subrange(0, k));
        assert(is_digit(d[k]));
    } else if k == d.len() {
        assert(d.subrange(0, k) =~= d);
    }
}

/// The numbers chosen in a multiple-choice response line, in the order written:
/// the line is cut at `.`, space, `;` and `,`, and each piece that, trimmed, is a number
/// gives one.
pub fn parse_selection(line: &str) -> (r: Vec<usize>)
    ensures
        r@ == selection(line@),
{
    let ts = tokens_of(&chars_of(line));
    let ghost tv = choice_tokens(line@);
    let mut r: Vec<usize> = Vec::new();
    let mut k: usize = 0;
    while k < ts.len()
        invariant
            ts@.map_values(|v: Vec<char>| v@) == tv,
            tv == choice_tokens(line@),
            k <= ts.len(),
            r@ == picks(tv, k as int),
        decreases ts.len() - k,
    {
        assert(tv[k as int] == ts[k as int]@);
        match read_index(&trim_chars(&ts[k])) {
            Some(v) => r.push(v),
            None => {},
        }
        k += 1;
    }
    r
}

/// Whether `selected` and `correct`, taken as sets, are equal: no correct choice left
/// out, no other choice made, whatever the order and repetitions.
pub fn selection_matches(selected: &Vec<usize>, correct: &Vec<usize>) -> (r: bool)
    ensures
        r == (selected@.to_set() == correct@.to_set()),
{
    let mut i: usize = 0;
    while i < selected.len()
        invariant
            i <= selected.len(),
            forall|k: int| 0 <= k < i ==> correct@.contains(#[trigger] selected@[k]),
        decreases selected.len() - i,
    {
        if !contains(correct, selected[i]) {
            assert(selected@.to_set().contains(selected@[i as int]));
            return false;
        }
        i += 1;
    }
    let mut j: usize = 0;
    while j < correct.len()
        invariant
            j <= correct.len(),
            forall|k: int| 0 <= k < selected.len() ==> correct@.contains(#[trigger] selected@[k]),
            forall|k: int| 0 <= k < j ==> selected@.contains(#[trigger] correct@[k]),
        decreases correct.len() - j,
    {
        if !contains(selected, correct[j]) {
            assert(correct@.to_set().contains(correct@[j as int]));
            return false;
        }
        j += 1;
    }
    assert(selected@.to_set() =~= correct@.to_set());
    true
}

/// Whether `v` holds `x`.
fn contains(v: &Vec<usize>, x: usize) -> (r: bool)
    ensures
        r == v@.contains(x),
{
    let mut i: usize = 0;
    while i < v.len()
        invariant
            i <= v.len(),
            forall|k: int| 0 <= k < i ==> v@[k] != x,
        decreases v.len() - i,
    {
        if v[i] == x {
            return true;
        }
        i += 1;
    }
    false
}

/// Whether a multiple-choice response `line` to `q`, whose answers are shown in the
/// order `order`, is right: the numbers chosen, as a set, are exactly the places of the
/// correct answers.
pub fn grade_choice(q: &Question, order: &Vec<usize>, line: &str) -> (r: bool)
    requires
        forall|k: int| 0 <= k < order.len() ==> #[trigger] order[k] < q.answers.len(),
    ensures
        r == choice_correct(q@.answers, order@, line@),
{
    let correct = correct_places_of(q, order);
    let chosen = parse_selection(line);
    selection_matches(&chosen, &correct)
}

/// A multiple-choice response `line` to a question with answers `answers` shown in the
/// order `order` is right: the numbers chosen, as a set, are the correct places.
pub open spec fn choice_correct(answers: Seq<AnswerView>, order: Seq<usize>, line: Seq<char>) -> bool {
    selection(line).to_set() == correct_places(answers, order).to_set()
}

/// A multiple-choice response is graded as a set: the order of the numbers and their
/// repetitions do not matter, and a response that leaves out a correct place, or chooses
/// one that is not correct, is wrong.
pub proof fn lemma_choice_grading_exact(answers: Seq<AnswerView>, order: Seq<usize>, l1: Seq<char>, l2: Seq<char>)
    ensures
        selection(l1).to_set() == selection(l2).to_set() ==> choice_correct(answers, order, l1)
            == choice_correct(answers, order, l2),
        (exists|x: usize| correct_places(answers, order).contains(x) && !selection(l1).contains(x))
            ==> !choice_correct(answers, order, l1),
        (exists|x: usize| selection(l1).contains(x) && !correct_places(answers, order).contains(x))
            ==> !choice_correct(answers, order, l1),
{
    if exists|x: usize| correct_places(answers, order).contains(x) && !selection(l1).contains(x) {
        let x = choose|x: usize| correct_places(answers, order).contains(x) && !selection(l1).contains(x);
        assert(correct_places(answers, order).to_set().contains(x));
        assert(!selection(l1).to_set().contains(x));
    }
    if exists|x: usize| selection(l1).contains(x) && !correct_places(answers, order).contains(x) {
        let x = choose|x: usize| selection(l1).contains(x) && !correct_places(answers, order).contains(x);
        assert(selection(l1).to_set().contains(x));
        assert(!correct_places(answers, order).to_set().contains(x));
    }
}

/// The points earned over the first `n` questions asked, in the order `order`, where
/// `right` tells which were answered correctly.
pub open spec fn score_of(qs: Seq<QuestionView>, order: Seq<usize>, right: Seq<bool>, n: int) -> int
    decreases n,
{
    if n <= 0 {
        0
    } else {
        score_of(qs, order, right, n - 1) + if right[n - 1] {
            qs[order[n - 1] as int].config.value.value()
        } else {
            0
        }
    }
}

/// The score of a session: the points of each question asked in the order `order` and
/// answered correctly, as `right` tells.
pub fn session_score(quiz: &Quiz, order: &Vec<usize>, right: &Vec<bool>) -> (r: Points)
    requires
        quiz.wf(),
        order.len() == right.len(),
        forall|k: int| 0 <= k < order.len() ==> #[trigger] order[k] < quiz.questions.len(),
    ensures
        r.value() == score_of(quiz@.questions, order@, right@, order.len() as int),
{
    let ghost qs = quiz@.questions;
    let mut total = Points::zero();
    let mut k: usize = 0;
    while k < order.len()
        invariant
            qs == quiz@.questions,
            quiz.wf(),
            order.len() == right.len(),
            forall|k: int| 0 <= k < order.len() ==> #[trigger] order[k] < quiz.questions.len(),
            k <= order.len(),
            total.value() == score_of(qs, order@, right@, k as int),
            -(k * MAX_MICROS) <= total.value() <= k * MAX_MICROS,
        decreases order.len() - k,
    {
        let q = &quiz.questions[order[k]];
        assert(qs[order[k as int] as int] == q@);
        assert(quiz.questions[order[k as int] as int].config.wf());
        let ghost t = total.value();
        assert(-((k + 1) * MAX_MICROS) <= t + q.config.value.value() <= (k + 1) * MAX_MICROS)
            by (nonlinear_arith)
            requires
                -(k * MAX_MICROS) <= t <= k * MAX_MICROS,
                -MAX_MICROS <= q.config.value.value() <= MAX_MICROS,
        ;
        assert((k + 1) * MAX_MICROS <= usize::MAX * MAX_MICROS) by (nonlinear_arith)
            requires
                k + 1 <= usize::MAX,
        ;
        if right[k] {
            total = total.add(q.config.value);
        } else {
            assert(-((k + 1) * MAX_MICROS) <= t <= (k + 1) * MAX_MICROS) by (nonlinear_arith)
                requires
                    -(k * MAX_MICROS) <= t <= k * MAX_MICROS,
            ;
        }
        k += 1;
    }
    total
}

/// A response being typed: lines are read until a blank one; the last line that was
/// not blank is the response.
pub struct Response {
    /// The last line read that was not blank, or nothing.
    pub text: String,
    /// A blank line has been read: the response is complete.
    pub done: bool,
}

impl Response {
    /// A response with nothing typed yet.
    pub fn new() -> (r: Response)
        ensures
            r.text@.len() == 0,
            !r.done,
    {
        Response { text: String::new(), done: false }
    }

    /// Takes one line read: a blank line completes the response, any other replaces
    /// what was typed before.
    pub fn take_line(&mut self, line: String)
        requires
            !old(self).done,
        ensures
            trim(line@).len() == 0 ==> final(self).done && final(self).text@ == old(self).text@,
            trim(line@).len() != 0 ==> !final(self).done && final(self).text@ == line@,
    {
        let t = trim_chars(&chars_of(line.as_str()));
        if t.len() == 0 {
            self.done = true;
        } else {
            self.text = line;
        }
    }
}

} // verus!
