//! Character-level helpers over `Seq<char>` used by every parser of the crate.
use vstd::prelude::*;

verus! {

/// The Unicode `White_Space` property, as `char::is_whitespace` documents it.
pub open spec fn is_ws(c: char) -> bool {
    ('\u{9}' <= c && c <= '\u{d}') || c == ' ' || c == '\u{85}' || c == '\u{a0}'
        || c == '\u{1680}' || ('\u{2000}' <= c && c <= '\u{200a}') || c == '\u{2028}'
        || c == '\u{2029}' || c == '\u{202f}' || c == '\u{205f}' || c == '\u{3000}'
}

/// Executable test for [`is_ws`].
pub fn is_whitespace(c: char) -> (r: bool)
    ensures
        r == is_ws(c),
{
    ('\u{9}' <= c && c <= '\u{d}') || c == ' ' || c == '\u{85}' || c == '\u{a0}'
        || c == '\u{1680}' || ('\u{2000}' <= c && c <= '\u{200a}') || c == '\u{2028}'
        || c == '\u{2029}' || c == '\u{202f}' || c == '\u{205f}' || c == '\u{3000}'
}

/// `s` with its leading white space removed.
pub open spec fn trim_start(s: Seq<char>) -> Seq<char>
    decreases s.len(),
{
    if s.len() > 0 && is_ws(s[0]) {
        trim_start(s.drop_first())
    } else {
        s
    }
}

/// `s` with its trailing white space removed.
pub open spec fn trim_end(s: Seq<char>) -> Seq<char>
    decreases s.len(),
{
    if s.len() > 0 && is_ws(s.last()) {
        trim_end(s.drop_last())
    } else {
        s
    }
}

/// `s` with white space removed at both ends.
pub open spec fn trim(s: Seq<char>) -> Seq<char> {
    trim_end(trim_start(s))
}

proof fn lemma_trim_start_skip(s: Seq<char>, k: int)
    requires
        0 <= k <= s.len(),
        forall|i: int| 0 <= i < k ==> is_ws(#[trigger] s[i]),
    ensures
        trim_start(s) == trim_start(s.subrange(k, s.len() as int)),
    decreases k,
{
    if k > 0 {
        let t = s.drop_first();
        assert forall|i: int| 0 <= i < k - 1 implies is_ws(#[trigger] t[i]) by {
            assert(t[i] == s[i + 1]);
        }
        lemma_trim_start_skip(t, k - 1);
        assert(t.subrange(k - 1, t.len() as int) =~= s.subrange(k, s.len() as int));
    } else {
        assert(s.subrange(0, s.len() as int) =~= s);
    }
}

proof fn lemma_trim_end_skip(s: Seq<char>, k: int)
    requires
        0 <= k <= s.len(),
        forall|i: int| k <= i < s.len() ==> is_ws(#[trigger] s[i]),
    ensures
        trim_end(s) == trim_end(s.subrange(0, k)),
    decreases s.len() - k,
{
    if k < s.len() {
        let t = s.drop_last();
        assert forall|i: int| k <= i < t.len() implies is_ws(#[trigger] t[i]) by {
            assert(t[i] == s[i]);
        }
        lemma_trim_end_skip(t, k);
        assert(t.subrange(0, k) =~= s.subrange(0, k));
    } else {
        assert(s.subrange(0, k) =~= s);
    }
}

/// The characters of `s` from `lo` up to `hi`.
pub fn slice(s: &Vec<char>, lo: usize, hi: usize) -> (r: Vec<char>)
    requires
        lo <= hi <= s.len(),
    ensures
        r@ == s@.subrange(lo as int, hi as int),
{
    let mut r: Vec<char> = Vec::new();
    let mut i: usize = lo;
    while i < hi
        invariant
            lo <= i <= hi <= s.len(),
            r@ == s@.subrange(lo as int, i as int),
        decreases hi - i,
    {
        r.push(s[i]);
        i += 1;
        assert(r@ =~= s@.subrange(lo as int, i as int));
    }
    r
}

/// Executable form of [`trim`].
pub fn trim_chars(s: &Vec<char>) -> (r: Vec<char>)
    ensures
        r@ == trim(s@),
{
    let mut lo: usize = 0;
    while lo < s.len() && is_whitespace(s[lo])
        invariant
            lo <= s.len(),
            forall|i: int| 0 <= i < lo ==> is_ws(#[trigger] s@[i]),
        decreases s.len() - lo,
    {
        lo += 1;
    }
    let mut hi: usize = s.len();
    while hi > lo && is_whitespace(s[hi - 1])
        invariant
            lo <= hi <= s.len(),
            forall|i: int| hi <= i < s.len() ==> is_ws(#[trigger] s@[i]),
        decreases hi,
    {
        hi -= 1;
    }
    proof {
        lemma_trim_start_skip(s@, lo as int);
        let t = s@.subrange(lo as int, s.len() as int);
        assert(trim_start(t) == t);
        assert forall|i: int| hi - lo <= i < t.len() implies is_ws(#[trigger] t[i]) by {
            assert(t[i] == s@[lo + i]);
        }
        lemma_trim_end_skip(t, hi - lo);
        let u = t.subrange(0, hi - lo);
        assert(u =~= s@.subrange(lo as int, hi as int));
        assert(trim_end(u) == u);
    }
    slice(s, lo, hi)
}

/// `p` occurs in `s` at position `i`.
pub open spec fn match_at(s: Seq<char>, p: Seq<char>, i: int) -> bool {
    0 <= i && i + p.len() <= s.len() && s.subrange(i, i + p.len()) == p
}

/// The first position at or after `i` where `p` occurs in `s`.
pub open spec fn find_from(s: Seq<char>, p: Seq<char>, i: int) -> Option<int>
    decreases s.len() + 1 - i,
{
    if i < 0 || i + p.len() > s.len() {
        None
    } else if match_at(s, p, i) {
        Some(i)
    } else {
        find_from(s, p, i + 1)
    }
}

/// The first position where `p` occurs in `s`.
pub open spec fn find(s: Seq<char>, p: Seq<char>) -> Option<int> {
    find_from(s, p, 0)
}

pub proof fn lemma_find_from_bounds(s: Seq<char>, p: Seq<char>, i: int)
    requires
        0 <= i,
    ensures
        find_from(s, p, i) matches Some(j) ==> i <= j && j + p.len() <= s.len() && match_at(s, p, j),
        find_from(s, p, i) matches Some(j) ==> forall|k: int| i <= k < j ==> !match_at(s, p, k),
        find_from(s, p, i) is None ==> forall|k: int| i <= k ==> !match_at(s, p, k),
    decreases s.len() + 1 - i,
{
    if i + p.len() <= s.len() && !match_at(s, p, i) {
        lemma_find_from_bounds(s, p, i + 1);
    }
}

/// `s` cut at each occurrence of `p`, from the left; `p` is not kept.
pub open spec fn split_from(s: Seq<char>, p: Seq<char>, start: int) -> Seq<Seq<char>>
    decreases s.len() - start,
{
    if start < 0 || start > s.len() || p.len() == 0 {
        seq![]
    } else {
        match find_from(s, p, start) {
            Some(j) => if start <= j && j + p.len() <= s.len() {
                seq![s.subrange(start, j)] + split_from(s, p, j + p.len())
            } else {
                seq![]
            },
            None => seq![s.subrange(start, s.len() as int)],
        }
    }
}

/// The pieces of `s` between the occurrences of `p` (`str::split`).
pub open spec fn split_by(s: Seq<char>, p: Seq<char>) -> Seq<Seq<char>> {
    split_from(s, p, 0)
}

/// The number of times `c` occurs in `s`.
pub open spec fn count_char(s: Seq<char>, c: char) -> nat
    decreases s.len(),
{
    if s.len() == 0 {
        0
    } else {
        count_char(s.drop_last(), c) + if s.last() == c {
            1nat
        } else {
            0nat
        }
    }
}

/// Number of newlines in `s`.
pub open spec fn newlines(s: Seq<char>) -> nat {
    count_char(s, '\n')
}

/// `p` occurs in `s` at `i` (executable).
pub fn matches_at(s: &Vec<char>, p: &Vec<char>, i: usize) -> (r: bool)
    ensures
        r == match_at(s@, p@, i as int),
{
    if i > s.len() || p.len() > s.len() - i {
        return false;
    }
    let mut k: usize = 0;
    while k < p.len()
        invariant
            i + p.len() <= s.len(),
            k <= p.len(),
            forall|m: int| 0 <= m < k ==> s@[i + m] == p@[m],
        decreases p.len() - k,
    {
        if s[i + k] != p[k] {
            assert(s@.subrange(i as int, i + p.len())[k as int] != p@[k as int]);
            return false;
        }
        k += 1;
    }
    assert(s@.subrange(i as int, i + p.len()) =~= p@);
    true
}

/// The first position at or after `start` where `p` occurs in `s`.
pub fn find_chars(s: &Vec<char>, p: &Vec<char>, start: usize) -> (r: Option<usize>)
    requires
        p.len() > 0,
    ensures
        r matches Some(j) ==> find_from(s@, p@, start as int) == Some(j as int),
        r is None ==> find_from(s@, p@, start as int) is None,
{
    let mut i: usize = start;
    while i <= s.len() && p.len() <= s.len() - i
        invariant
            p.len() > 0,
            start <= i,
            find_from(s@, p@, start as int) == find_from(s@, p@, i as int),
        decreases s.len() + 1 - i,
    {
        if matches_at(s, p, i) {
            return Some(i);
        }
        i += 1;
    }
    None
}

/// The total length of `pieces`, counting `gap` more for each piece.
pub open spec fn pieces_len(pieces: Seq<Seq<char>>, gap: int) -> int
    decreases pieces.len(),
{
    if pieces.len() == 0 {
        0
    } else {
        pieces[0].len() + gap + pieces_len(pieces.drop_first(), gap)
    }
}

pub proof fn lemma_pieces_len_concat(a: Seq<Seq<char>>, b: Seq<Seq<char>>, gap: int)
    ensures
        pieces_len(a + b, gap) == pieces_len(a, gap) + pieces_len(b, gap),
    decreases a.len(),
{
    if a.len() > 0 {
        assert((a + b).drop_first() =~= a.drop_first() + b);
        lemma_pieces_len_concat(a.drop_first(), b, gap);
    } else {
        assert(a + b =~= b);
    }
}

pub proof fn lemma_pieces_len_nonneg(pieces: Seq<Seq<char>>, gap: int)
    requires
        gap >= 0,
    ensures
        pieces_len(pieces, gap) >= 0,
    decreases pieces.len(),
{
    if pieces.len() > 0 {
        lemma_pieces_len_nonneg(pieces.drop_first(), gap);
    }
}

pub proof fn lemma_pieces_count(pieces: Seq<Seq<char>>, gap: int)
    requires
        gap >= 1,
    ensures
        pieces.len() <= pieces_len(pieces, gap),
    decreases pieces.len(),
{
    if pieces.len() > 0 {
        lemma_pieces_count(pieces.drop_first(), gap);
    }
}

/// Cutting `s` at `p` loses exactly the occurrences of `p`: the pieces, each counted
/// with one `p`, are as long as `s` and one `p`.
pub proof fn lemma_split_len(s: Seq<char>, p: Seq<char>, start: int)
    requires
        p.len() > 0,
        0 <= start <= s.len(),
    ensures
        pieces_len(split_from(s, p, start), p.len() as int) == s.len() - start + p.len(),
        split_from(s, p, start).len() >= 1,
    decreases s.len() - start,
{
    lemma_find_from_bounds(s, p, start);
    let r = split_from(s, p, start);
    match find_from(s, p, start) {
        Some(j) => {
            lemma_split_len(s, p, j + p.len());
            assert(r.drop_first() =~= split_from(s, p, j + p.len()));
            assert(r[0].len() == j - start);
            assert(pieces_len(r, p.len() as int) == r[0].len() + p.len() + pieces_len(
                r.drop_first(),
                p.len() as int,
            ));
        },
        None => {
            assert(r.drop_first() =~= Seq::<Seq<char>>::empty());
            assert(pieces_len(r.drop_first(), p.len() as int) == 0);
            assert(pieces_len(r, p.len() as int) == r[0].len() + p.len() + pieces_len(
                r.drop_first(),
                p.len() as int,
            ));
        },
    }
}

/// The first occurrence of `p` at or after `i` is the one at `j` when none lies between.
pub proof fn lemma_find_first(s: Seq<char>, p: Seq<char>, i: int, j: int)
    requires
        0 <= i <= j,
        match_at(s, p, j),
        forall|k: int| i <= k < j ==> !match_at(s, p, k),
    ensures
        find_from(s, p, i) == Some(j),
    decreases j - i,
{
    if i < j {
        lemma_find_first(s, p, i + 1, j);
    }
}

/// Trailing white space is taken off the end only: text before a character that is not
/// white space stays.
pub proof fn lemma_trim_end_concat(a: Seq<char>, b: Seq<char>)
    requires
        a.len() > 0,
        !is_ws(a.last()),
    ensures
        trim_end(a + b) == a + trim_end(b),
    decreases b.len(),
{
    if b.len() > 0 && is_ws(b.last()) {
        assert((a + b).drop_last() =~= a + b.drop_last());
        lemma_trim_end_concat(a, b.drop_last());
    } else if b.len() > 0 {
        assert((a + b).last() == b.last());
    } else {
        assert(a + b =~= a);
        assert((a + b).last() == a.last());
    }
}

/// `s` cut at each occurrence of the non-empty pattern `p`.
pub fn split_chars(s: &Vec<char>, p: &Vec<char>) -> (r: Vec<Vec<char>>)
    requires
        p.len() > 0,
    ensures
        r@.map_values(|v: Vec<char>| v@) == split_by(s@, p@),
{
    let mut r: Vec<Vec<char>> = Vec::new();
    let mut start: usize = 0;
    loop
        invariant
            p.len() > 0,
            start <= s.len(),
            r@.map_values(|v: Vec<char>| v@) + split_from(s@, p@, start as int) == split_by(s@, p@),
        decreases s.len() - start,
    {
        let found = find_chars(s, p, start);
        proof {
            lemma_find_from_bounds(s@, p@, start as int);
        }
        match found {
            Some(j) => {
                let piece = slice(s, start, j);
                let ghost before = r@.map_values(|v: Vec<char>| v@);
                r.push(piece);
                assert(r@.map_values(|v: Vec<char>| v@) =~= before.push(piece@));
                assert(before + split_from(s@, p@, start as int) =~= before.push(piece@)
                    + split_from(s@, p@, (j + p.len()) as int));
                start = j + p.len();
            },
            None => {
                let piece = slice(s, start, s.len());
                let ghost before = r@.map_values(|v: Vec<char>| v@);
                r.push(piece);
                assert(r@.map_values(|v: Vec<char>| v@) =~= before.push(piece@));
                assert(before + split_from(s@, p@, start as int) =~= before.push(piece@));
                return r;
            },
        }
    }
}

/// The number of newlines in `s` (executable).
pub fn count_newlines(s: &Vec<char>) -> (r: usize)
    ensures
        r == newlines(s@),
        r <= s.len(),
{
    let mut n: usize = 0;
    let mut i: usize = 0;
    while i < s.len()
        invariant
            i <= s.len(),
            n == newlines(s@.subrange(0, i as int)),
            n <= i,
        decreases s.len() - i,
    {
        assert(s@.subrange(0, i + 1).drop_last() =~= s@.subrange(0, i as int));
        if s[i] == '\n' {
            n += 1;
        }
        i += 1;
    }
    assert(s@.subrange(0, s.len() as int) =~= s@);
    n
}

/// `s` with each line break (`\r\n` or `\n`) turned into one space.
pub open spec fn fold_lines(s: Seq<char>) -> Seq<char>
    decreases s.len(),
{
    if s.len() == 0 {
        s
    } else if s.len() >= 2 && s[0] == '\r' && s[1] == '\n' {
        seq![' '] + fold_lines(s.subrange(2, s.len() as int))
    } else if s[0] == '\n' {
        seq![' '] + fold_lines(s.drop_first())
    } else {
        seq![s[0]] + fold_lines(s.drop_first())
    }
}

/// Executable form of [`fold_lines`].
pub fn fold_line_breaks(s: &Vec<char>) -> (r: Vec<char>)
    ensures
        r@ == fold_lines(s@),
{
    let mut r: Vec<char> = Vec::new();
    let mut i: usize = 0;
    assert(s@.subrange(0, s.len() as int) =~= s@);
    while i < s.len()
        invariant
            i <= s.len(),
            r@ + fold_lines(s@.subrange(i as int, s.len() as int)) == fold_lines(s@),
        decreases s.len() - i,
    {
        let ghost rest = s@.subrange(i as int, s.len() as int);
        let ghost before = r@;
        if i + 1 < s.len() && s[i] == '\r' && s[i + 1] == '\n' {
            r.push(' ');
            assert(rest.subrange(2, rest.len() as int) =~= s@.subrange(i + 2, s.len() as int));
            i += 2;
        } else {
            if s[i] == '\n' {
                r.push(' ');
            } else {
                r.push(s[i]);
            }
            assert(rest.drop_first() =~= s@.subrange(i + 1, s.len() as int));
            i += 1;
        }
        assert(r@ + fold_lines(s@.subrange(i as int, s.len() as int)) =~= before + fold_lines(rest));
    }
    assert(r@ + fold_lines(s@.subrange(i as int, s.len() as int)) =~= r@);
    r
}

/// The characters of `s`.
pub fn chars_of(s: &str) -> (r: Vec<char>)
    ensures
        r@ == s@,
{
    let mut r: Vec<char> = Vec::new();
    for c in it: s.chars()
        invariant
            r@ == it.seq().subrange(0, it.index() as int),
    {
        r.push(c);
    }
    r
}

/// Relies on `String::push`: appends one character at the end.
#[verifier::external_body]
fn push_char(s: &mut String, c: char)
    ensures
        final(s)@ == old(s)@.push(c),
{
    s.push(c)
}

/// A `String` holding the characters of `v`.
pub fn string_of(v: &Vec<char>) -> (r: String)
    ensures
        r@ == v@,
{
    let mut r = String::new();
    let mut i: usize = 0;
    while i < v.len()
        invariant
            i <= v.len(),
            r@ == v@.subrange(0, i as int),
        decreases v.len() - i,
    {
        push_char(&mut r, v[i]);
        i += 1;
        assert(r@ =~= v@.subrange(0, i as int));
    }
    assert(v@.subrange(0, v.len() as int) =~= v@);
    r
}

/// The Unicode lower-case form of `s`, as `str::to_lowercase` computes it.
pub uninterp spec fn lower_of(s: Seq<char>) -> Seq<char>;

/// Relies on `str::to_lowercase`: its result depends on the characters of `s` alone.
#[verifier::external_body]
pub(crate) fn to_lowercase(s: &str) -> (r: String)
    ensures
        r@ == lower_of(s@),
{
    s.to_lowercase()
}

/// The lower-case form of the characters `v`.
pub fn lowercase(v: &Vec<char>) -> (r: Vec<char>)
    ensures
        r@ == lower_of(v@),
{
    let s = string_of(v);
    let l = to_lowercase(s.as_str());
    chars_of(l.as_str())
}

/// `v` holds exactly the characters of `w`.
pub fn is_word(v: &Vec<char>, w: &str) -> (r: bool)
    ensures
        r == (v@ == w@),
{
    let n = w.unicode_len();
    if n != v.len() {
        return false;
    }
    let mut i: usize = 0;
    while i < n
        invariant
            n == v.len(),
            n == w@.len(),
            i <= n,
            forall|k: int| 0 <= k < i ==> v@[k] == w@[k],
        decreases n - i,
    {
        if v[i] != w.get_char(i) {
            return false;
        }
        i += 1;
    }
    assert(v@ =~= w@);
    true
}

} // verus!
