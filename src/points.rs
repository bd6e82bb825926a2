//! Point values of questions, held exactly as a whole number of millionths.
use vstd::prelude::*;
use crate::text::{find, find_chars, lemma_find_from_bounds, slice};

verus! {

/// The largest number of millionths that a written point value may give: a whole part
/// of at most 10^12 points.
pub const MAX_MICROS: i128 = 1_000_000_000_000_999_999;

/// Exponents are read up to this size; any larger one gives zero or too large a value.
const EXPONENT_CAP: u128 = 0x40_0000_0000_0000_0000;

/// A number of points, kept as a count of millionths of a point.
#[derive(Clone, Copy, Debug, PartialEq, Eq, Structural)]
pub struct Points {
    pub micros: i128,
}

pub open spec fn is_digit(c: char) -> bool {
    '0' <= c && c <= '9'
}

pub open spec fn digit_value(c: char) -> int {
    c as int - '0' as int
}

pub open spec fn all_digits(s: Seq<char>) -> bool {
    forall|i: int| 0 <= i < s.len() ==> is_digit(#[trigger] s[i])
}

/// The number written in decimal by the digits `s`.
pub open spec fn digits_value(s: Seq<char>) -> int
    decreases s.len(),
{
    if s.len() == 0 {
        0
    } else {
        digits_value(s.drop_last()) * 10 + digit_value(s.last())
    }
}

/// Ten to the power `k`.
pub open spec fn pow10(k: nat) -> int
    decreases k,
{
    if k == 0 {
        1
    } else {
        10 * pow10((k - 1) as nat)
    }
}

/// `s` without a leading sign.
pub open spec fn unsigned_part(s: Seq<char>) -> Seq<char> {
    if s.len() > 0 && (s[0] == '+' || s[0] == '-') {
        s.drop_first()
    } else {
        s
    }
}

/// The number part of `s`: what stands before the exponent mark `e`.
pub open spec fn mantissa_text(s: Seq<char>) -> Seq<char> {
    let u = unsigned_part(s);
    match find(u, seq!['e']) {
        Some(i) => u.subrange(0, i),
        None => u,
    }
}

/// `s` has an exponent mark `e`.
pub open spec fn has_exponent(s: Seq<char>) -> bool {
    find(unsigned_part(s), seq!['e']) is Some
}

/// What follows the exponent mark, if any.
pub open spec fn exponent_text(s: Seq<char>) -> Seq<char> {
    let u = unsigned_part(s);
    match find(u, seq!['e']) {
        Some(i) => u.subrange(i + 1, u.len() as int),
        None => seq![],
    }
}

/// The digits of the exponent, after its optional sign.
pub open spec fn exponent_digits(s: Seq<char>) -> Seq<char> {
    unsigned_part(exponent_text(s))
}

/// The exponent of `s`; zero where there is none.
pub open spec fn exponent_value(s: Seq<char>) -> int {
    let t = exponent_text(s);
    if t.len() > 0 && t[0] == '-' {
        -digits_value(exponent_digits(s))
    } else {
        digits_value(exponent_digits(s))
    }
}

/// The digits before the decimal point.
pub open spec fn whole_digits(s: Seq<char>) -> Seq<char> {
    let m = mantissa_text(s);
    match find(m, seq!['.']) {
        Some(d) => m.subrange(0, d),
        None => m,
    }
}

/// The digits after the decimal point.
pub open spec fn fraction_digits(s: Seq<char>) -> Seq<char> {
    let m = mantissa_text(s);
    match find(m, seq!['.']) {
        Some(d) => m.subrange(d + 1, m.len() as int),
        None => seq![],
    }
}

/// How many places the decimal point of the digits moves to the right to count in
/// millionths.
pub open spec fn micro_shift(s: Seq<char>) -> int {
    6 + exponent_value(s) - fraction_digits(s).len()
}

/// The number that the digits `d` write once `k` places are added after them (zeros),
/// or, for a negative `k`, once their last `-k` places are dropped.
pub open spec fn shifted(d: Seq<char>, k: int) -> int {
    if k >= 0 {
        digits_value(d) * pow10(k as nat)
    } else if d.len() + k > 0 {
        digits_value(d.subrange(0, d.len() + k))
    } else {
        0
    }
}

/// The millionths of a point, without sign, that `s` writes: the digits, their point
/// moved by [`micro_shift`], the part after the point dropped.
pub open spec fn magnitude(s: Seq<char>) -> int {
    shifted(whole_digits(s) + fraction_digits(s), micro_shift(s))
}

/// `s` is a point value in decimal notation, as `f32::from_str` reads numbers: an
/// optional sign, digits with at most one decimal point and at least one digit, then
/// optionally `e` and an exponent with an optional sign; and it writes at most
/// `MAX_MICROS` millionths. (`inf` and `nan` are no point values.)
pub open spec fn is_points_text(s: Seq<char>) -> bool {
    &&& all_digits(whole_digits(s))
    &&& all_digits(fraction_digits(s))
    &&& whole_digits(s).len() + fraction_digits(s).len() > 0
    &&& has_exponent(s) ==> exponent_digits(s).len() > 0 && all_digits(exponent_digits(s))
    &&& magnitude(s) <= MAX_MICROS
}

/// The millionths of a point that `s` writes; digits past the sixth decimal place
/// are dropped.
pub open spec fn points_text_micros(s: Seq<char>) -> int {
    if s.len() > 0 && s[0] == '-' {
        -magnitude(s)
    } else {
        magnitude(s)
    }
}

pub proof fn lemma_digits_value_nonneg(s: Seq<char>)
    requires
        all_digits(s),
    ensures
        digits_value(s) >= 0,
    decreases s.len(),
{
    if s.len() > 0 {
        assert(is_digit(s[s.len() - 1]));
        lemma_digits_value_nonneg(s.drop_last());
    }
}

proof fn lemma_pow10_grows(a: nat, b: nat)
    requires
        a <= b,
    ensures
        1 <= pow10(a) <= pow10(b),
    decreases b,
{
    if a < b {
        lemma_pow10_grows(a, (b - 1) as nat);
    } else if a > 0 {
        lemma_pow10_grows((a - 1) as nat, (a - 1) as nat);
    }
}

/// Every character of `v` is a decimal digit.
fn digits_only(v: &Vec<char>) -> (r: bool)
    ensures
        r == all_digits(v@),
{
    let mut i: usize = 0;
    while i < v.len()
        invariant
            i <= v.len(),
            forall|k: int| 0 <= k < i ==> is_digit(#[trigger] v@[k]),
        decreases v.len() - i,
    {
        if !('0' <= v[i] && v[i] <= '9') {
            return false;
        }
        i += 1;
    }
    true
}

/// The number that the first `m` digits of `v` write, or `cap` where it is larger.
fn capped_value(v: &Vec<char>, m: usize, cap: u128) -> (r: u128)
    requires
        all_digits(v@),
        m <= v.len(),
        cap <= EXPONENT_CAP,
    ensures
        r == if digits_value(v@.subrange(0, m as int)) <= cap {
            digits_value(v@.subrange(0, m as int))
        } else {
            cap as int
        },
{
    let mut acc: u128 = 0;
    let mut i: usize = 0;
    while i < m
        invariant
            all_digits(v@),
            m <= v.len(),
            cap <= EXPONENT_CAP,
            i <= m,
            acc == if digits_value(v@.subrange(0, i as int)) <= cap {
                digits_value(v@.subrange(0, i as int))
            } else {
                cap as int
            },
        decreases m - i,
    {
        let ghost pre = v@.subrange(0, i as int);
        let ghost next = v@.subrange(0, i + 1);
        assert(next.drop_last() =~= pre);
        assert(is_digit(v@[i as int]));
        assert(all_digits(pre));
        proof {
            lemma_digits_value_nonneg(pre);
        }
        let d = (v[i] as u32 - '0' as u32) as u128;
        let t = acc * 10 + d;
        let ghost dv = digits_value(pre);
        assert(dv > cap ==> dv * 10 + d > cap) by (nonlinear_arith)
            requires
                d >= 0,
                dv >= 0,
        ;
        acc = if t <= cap {
            t
        } else {
            cap
        };
        i += 1;
    }
    acc
}

proof fn lemma_shift_far_right(d: Seq<char>, k1: int, k2: int)
    requires
        all_digits(d),
        k1 > 20,
        k2 > 20,
    ensures
        digits_value(d) == 0 ==> shifted(d, k1) == 0 && shifted(d, k2) == 0,
        digits_value(d) != 0 ==> shifted(d, k1) > MAX_MICROS && shifted(d, k2) > MAX_MICROS,
{
    lemma_digits_value_nonneg(d);
    lemma_pow10_grows(21, k1 as nat);
    lemma_pow10_grows(21, k2 as nat);
    assert(pow10(21) == 1_000_000_000_000_000_000_000) by {
        reveal_with_fuel(pow10, 22);
    }
    let n = digits_value(d);
    let p1 = pow10(k1 as nat);
    let p2 = pow10(k2 as nat);
    assert(shifted(d, k1) == n * p1);
    assert(shifted(d, k2) == n * p2);
    if n >= 1 {
        assert(n * p1 >= p1) by (nonlinear_arith)
            requires
                n >= 1,
                p1 >= 1,
        ;
        assert(n * p2 >= p2) by (nonlinear_arith)
            requires
                n >= 1,
                p2 >= 1,
        ;
    } else {
        assert(n * p1 == 0 && n * p2 == 0) by (nonlinear_arith)
            requires
                n == 0,
        ;
    }
}

proof fn lemma_shift_far_left(d: Seq<char>, k1: int, k2: int)
    requires
        d.len() + k1 <= 0,
        d.len() + k2 <= 0,
    ensures
        shifted(d, k1) == 0 && shifted(d, k2) == 0,
{
}

/// Executable form of [`shifted`], where the result is at most `MAX_MICROS`.
fn shifted_value(d: &Vec<char>, k: i128) -> (r: Option<u128>)
    requires
        all_digits(d@),
    ensures
        r is Some <==> shifted(d@, k as int) <= MAX_MICROS,
        r matches Some(v) ==> v == shifted(d@, k as int),
{
    let big: u128 = MAX_MICROS as u128 + 1;
    proof {
        lemma_digits_value_nonneg(d@);
    }
    assert(d@.subrange(0, d.len() as int) =~= d@);
    if k > 20 {
        proof {
            lemma_shift_far_right(d@, k as int, 21);
        }
        let n_c = capped_value(d, d.len(), big);
        if n_c == 0 {
            assert(digits_value(d@) == 0);
            return Some(0);
        }
        return None;
    }
    if k >= 0 {
        let n_c = capped_value(d, d.len(), big);
        let ghost n = digits_value(d@);
        if n_c > MAX_MICROS as u128 {
            proof {
                lemma_pow10_grows(0, k as nat);
                assert(n * pow10(k as nat) >= n) by (nonlinear_arith)
                    requires
                        n >= 1,
                        pow10(k as nat) >= 1,
                ;
            }
            return None;
        }
        assert(pow10(0) == 1);
        assert(n_c == n);
        assert(n * pow10(0) == n);
        let mut acc: u128 = n_c;
        let mut j: i128 = 0;
        while j < k
            invariant
                0 <= j <= k <= 20,
                n >= 0,
                acc == n * pow10(j as nat),
                acc <= MAX_MICROS,
                shifted(d@, k as int) == n * pow10(k as nat),
            decreases k - j,
        {
            acc = acc * 10;
            proof {
                assert(pow10((j + 1) as nat) == 10 * pow10(j as nat));
                assert(n * pow10((j + 1) as nat) == 10 * (n * pow10(j as nat))) by (nonlinear_arith)
                    requires
                        pow10((j + 1) as nat) == 10 * pow10(j as nat),
                ;
            }
            j = j + 1;
            if acc > MAX_MICROS as u128 {
                proof {
                    lemma_pow10_grows(j as nat, k as nat);
                    assert(n * pow10(k as nat) >= n * pow10(j as nat)) by (nonlinear_arith)
                        requires
                            n >= 0,
                            pow10(k as nat) >= pow10(j as nat),
                    ;
                }
                return None;
            }
        }
        return Some(acc);
    }
    let len = d.len() as i128;
    if len + k <= 0 {
        return Some(0);
    }
    let p = capped_value(d, (len + k) as usize, big);
    if p > MAX_MICROS as u128 {
        return None;
    }
    Some(p)
}

/// The parts of a number text `s`: whole digits, fraction digits, exponent digits,
/// whether the exponent is negative, and whether there is one.
fn number_parts(s: &Vec<char>) -> (r: (Vec<char>, Vec<char>, Vec<char>, bool, bool))
    ensures
        r.0@ == whole_digits(s@),
        r.1@ == fraction_digits(s@),
        r.2@ == exponent_digits(s@),
        r.3 == (exponent_text(s@).len() > 0 && exponent_text(s@)[0] == '-'),
        r.4 == has_exponent(s@),
{
    let start: usize = if s.len() > 0 && (s[0] == '+' || s[0] == '-') {
        1
    } else {
        0
    };
    let u = slice(s, start, s.len());
    assert(u@ == unsigned_part(s@)) by {
        if start == 1 {
            assert(s@.drop_first() =~= s@.subrange(1, s.len() as int));
        } else {
            assert(s@ =~= s@.subrange(0, s.len() as int));
        }
    }
    // the exponent
    let mark = vec!['e'];
    assert(mark@ =~= seq!['e']);
    let found_e = find_chars(&u, &mark, 0);
    proof {
        lemma_find_from_bounds(u@, mark@, 0);
    }
    let (m, et) = match found_e {
        Some(i) => (slice(&u, 0, i), slice(&u, i + 1, u.len())),
        None => (slice(&u, 0, u.len()), Vec::new()),
    };
    assert(m@ == mantissa_text(s@)) by {
        if found_e is None {
            assert(u@ =~= u@.subrange(0, u.len() as int));
        }
    }
    assert(et@ =~= exponent_text(s@));
    let es: usize = if et.len() > 0 && (et[0] == '+' || et[0] == '-') {
        1
    } else {
        0
    };
    let ed = slice(&et, es, et.len());
    assert(ed@ == exponent_digits(s@)) by {
        if es == 1 {
            assert(et@.drop_first() =~= et@.subrange(1, et.len() as int));
        } else {
            assert(et@ =~= et@.subrange(0, et.len() as int));
        }
    }
    let exp_negative = et.len() > 0 && et[0] == '-';
    // the digits and the decimal point
    let dot = vec!['.'];
    assert(dot@ =~= seq!['.']);
    let found = find_chars(&m, &dot, 0);
    proof {
        lemma_find_from_bounds(m@, dot@, 0);
    }
    let (w, f) = match found {
        Some(d) => (slice(&m, 0, d), slice(&m, d + 1, m.len())),
        None => (slice(&m, 0, m.len()), Vec::new()),
    };
    assert(w@ == whole_digits(s@)) by {
        if found is None {
            assert(m@ =~= m@.subrange(0, m.len() as int));
        }
    }
    assert(f@ =~= fraction_digits(s@));
    (w, f, ed, exp_negative, found_e.is_some())
}

impl Points {
    pub open spec fn value(self) -> int {
        self.micros as int
    }

    /// Within the range that a written point value can have.
    pub open spec fn is_bounded(self) -> bool {
        -MAX_MICROS <= self.micros <= MAX_MICROS
    }

    /// No points.
    pub fn zero() -> (r: Points)
        ensures
            r.value() == 0,
    {
        Points { micros: 0 }
    }

    /// `n` whole points.
    pub fn whole(n: i64) -> (r: Points)
        ensures
            r.value() == n * 1_000_000,
    {
        Points { micros: n as i128 * 1_000_000 }
    }

    /// `m` millionths of a point.
    pub fn from_micros(m: i128) -> (r: Points)
        ensures
            r.value() == m,
    {
        Points { micros: m }
    }

    /// Reads a point value written in decimal notation; `None` where `s` is not one
    /// (see [`is_points_text`]).
    pub fn parse(s: &Vec<char>) -> (r: Option<Points>)
        ensures
            r is Some <==> is_points_text(s@),
            r matches Some(p) ==> p.value() == points_text_micros(s@),
            r matches Some(p) ==> p.is_bounded(),
    {
        let (w, f, ed, exp_negative, has_e) = number_parts(s);
        if !digits_only(&ed) || (has_e && ed.len() == 0) {
            return None;
        }
        if !digits_only(&w) || !digits_only(&f) || (w.len() == 0 && f.len() == 0) {
            return None;
        }
        let mut d = slice(&w, 0, w.len());
        let mut f2 = slice(&f, 0, f.len());
        d.append(&mut f2);
        let ghost dd = whole_digits(s@) + fraction_digits(s@);
        assert(d@ =~= dd);
        assert(all_digits(dd)) by {
            assert forall|i: int| 0 <= i < dd.len() implies is_digit(#[trigger] dd[i]) by {
                if i < w.len() {
                    assert(dd[i] == w@[i]);
                } else {
                    assert(dd[i] == f@[i - w.len()]);
                }
            }
        }
        let exp_c = capped_value(&ed, ed.len(), EXPONENT_CAP);
        assert(ed@.subrange(0, ed.len() as int) =~= ed@);
        proof {
            lemma_digits_value_nonneg(ed@);
            lemma_digits_value_nonneg(dd);
        }
        let k: i128 = if exp_negative {
            6 - exp_c as i128 - f.len() as i128
        } else {
            6 + exp_c as i128 - f.len() as i128
        };
        let ghost k_spec = micro_shift(s@);
        assert(k_spec == if exp_negative {
            6 - digits_value(ed@) - f.len()
        } else {
            6 + digits_value(ed@) - f.len()
        });
        assert(magnitude(s@) == shifted(dd, k_spec));
        proof {
            if exp_c == EXPONENT_CAP {
                if exp_negative {
                    lemma_shift_far_left(dd, k as int, k_spec);
                } else {
                    lemma_shift_far_right(dd, k as int, k_spec);
                }
            }
        }
        let mag = match shifted_value(&d, k) {
            Some(v) => v,
            None => {
                return None;
            },
        };
        assert(mag == magnitude(s@));
        if s.len() > 0 && s[0] == '-' {
            Some(Points { micros: -(mag as i128) })
        } else {
            Some(Points { micros: mag as i128 })
        }
    }
    /// The sum of two point counts.
    pub fn add(self, other: Points) -> (r: Points)
        requires
            i128::MIN <= self.value() + other.value() <= i128::MAX,
        ensures
            r.value() == self.value() + other.value(),
    {
        Points { micros: self.micros + other.micros }
    }
}

} // verus!
