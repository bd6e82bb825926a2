//! The order in which a quiz asks its questions and shows their answers.
use std::hash::{BuildHasher, Hasher};
use vstd::prelude::*;
use vstd::seq_lib::{lemma_multiset_commutative, to_multiset_build, to_multiset_update};
use crate::question::{Question, QuestionView};

verus! {

/// A random number. Relies on `std::hash::RandomState`: the output of a freshly seeded
/// hasher serves as one; nothing is known of its value.
#[verifier::external_body]
pub fn rand() -> usize {
    std::hash::RandomState::new().build_hasher().finish() as usize
}

/// Exchanges the items of `v` at `i` and `j`.
fn swap_items<T>(v: &mut Vec<T>, i: usize, j: usize)
    requires
        i < old(v).len(),
        j < old(v).len(),
    ensures
        final(v)@ == old(v)@.update(i as int, old(v)@[j as int]).update(j as int, old(v)@[i as int]),
{
    if i == j {
        assert(old(v)@.update(i as int, old(v)@[j as int]).update(j as int, old(v)@[i as int]) =~= old(v)@);
        return;
    }
    let (lo, hi) = if i < j {
        (i, j)
    } else {
        (j, i)
    };
    let ghost s = v@;
    let high = v.remove(hi);
    let low = v.remove(lo);
    v.insert(lo, high);
    v.insert(hi, low);
    assert(v@ =~= s.update(i as int, s[j as int]).update(j as int, s[i as int]));
}

/// `s` with the items at `i` and `j` exchanged.
pub open spec fn swapped<T>(s: Seq<T>, i: int, j: int) -> Seq<T> {
    s.update(i, s[j]).update(j, s[i])
}

/// The Fisher-Yates shuffle of `s` from position `i` on: at each position `i`, the item
/// is exchanged with the one at `i + draws[i] % (len - i)`.
pub open spec fn fisher_yates<T>(s: Seq<T>, draws: Seq<usize>, i: int) -> Seq<T>
    decreases s.len() - i,
{
    if i < 0 || i + 1 >= s.len() {
        s
    } else {
        fisher_yates(swapped(s, i, i + draws[i] as int % (s.len() - i)), draws, i + 1)
    }
}

pub proof fn lemma_swapped_multiset<T>(s: Seq<T>, i: int, j: int)
    requires
        0 <= i < s.len(),
        0 <= j < s.len(),
    ensures
        swapped(s, i, j).to_multiset() == s.to_multiset(),
        swapped(s, i, j).len() == s.len(),
{
    broadcast use vstd::multiset::group_multiset_axioms;

    let u = s.update(i, s[j]);
    to_multiset_update(s, i, s[j]);
    to_multiset_update(u, j, s[i]);
    if i == j {
        assert(swapped(s, i, j) =~= s);
    } else {
        broadcast use vstd::seq_lib::group_to_multiset_ensures;

        assert(u[j] == s[j]);
        assert(s.contains(s[i]));
        let m = s.to_multiset();
        assert(m.count(s[i]) > 0);
        let m1 = m.insert(s[j]).remove(s[i]);
        assert(m1.count(s[j]) > 0);
        assert(swapped(s, i, j).to_multiset() =~= m);
    }
}

/// A Fisher-Yates shuffle moves items and neither adds nor drops any.
pub proof fn lemma_fisher_yates_permutes<T>(s: Seq<T>, draws: Seq<usize>, i: int)
    requires
        0 <= i,
    ensures
        fisher_yates(s, draws, i).to_multiset() == s.to_multiset(),
        fisher_yates(s, draws, i).len() == s.len(),
    decreases s.len() - i,
{
    if i + 1 < s.len() {
        let j = i + draws[i] as int % (s.len() - i);
        lemma_swapped_multiset(s, i, j);
        lemma_fisher_yates_permutes(swapped(s, i, j), draws, i + 1);
    }
}

/// Shuffles `v` by Fisher-Yates with the numbers `draws`, one for each position but
/// the last.
pub fn shuffle_with<T>(v: &mut Vec<T>, draws: &Vec<usize>)
    requires
        old(v).len() <= draws.len() + 1,
    ensures
        final(v)@ == fisher_yates(old(v)@, draws@, 0),
        final(v)@.to_multiset() == old(v)@.to_multiset(),
{
    proof {
        lemma_fisher_yates_permutes(old(v)@, draws@, 0);
    }
    let n = v.len();
    if n == 0 {
        return;
    }
    let mut i: usize = 0;
    while i < n - 1
        invariant
            n == v.len(),
            n <= draws.len() + 1,
            i < n,
            fisher_yates(v@, draws@, i as int) == fisher_yates(old(v)@, draws@, 0),
        decreases n - i,
    {
        let j = draws[i] % (n - i) + i;
        swap_items(v, i, j);
        i += 1;
    }
}

/// Shuffles `v` uniformly at random (Fisher-Yates): `v` keeps the same items.
pub fn shuffle<T>(v: &mut Vec<T>)
    ensures
        final(v)@.to_multiset() == old(v)@.to_multiset(),
        final(v)@.len() == old(v)@.len(),
{
    let n = v.len();
    let mut draws: Vec<usize> = Vec::new();
    let mut i: usize = 1;
    while i < n
        invariant
            1 <= i,
            draws.len() == i - 1,
        decreases n - i,
    {
        draws.push(rand());
        i += 1;
    }
    proof {
        lemma_fisher_yates_permutes(v@, draws@, 0);
    }
    shuffle_with(v, &draws);
}

/// The positions among the first `n` of `flags` that hold `keep`, in order.
pub open spec fn positions_where(flags: Seq<bool>, keep: bool, n: int) -> Seq<usize>
    decreases n,
{
    if n <= 0 {
        seq![]
    } else if flags[n - 1] == keep {
        positions_where(flags, keep, n - 1).push((n - 1) as usize)
    } else {
        positions_where(flags, keep, n - 1)
    }
}

/// The `ordered` option of each question.
pub open spec fn ordered_flags(qs: Seq<QuestionView>) -> Seq<bool> {
    qs.map_values(|q: QuestionView| q.config.ordered)
}

/// The order in which questions with `ordered` options `flags` are asked: those that may
/// move, shuffled with `draws`, then those that keep their place, as written.
pub open spec fn order_of(flags: Seq<bool>, draws: Seq<usize>) -> Seq<usize> {
    fisher_yates(positions_where(flags, false, flags.len() as int), draws, 0) + positions_where(
        flags,
        true,
        flags.len() as int,
    )
}

/// The positions `0..n`.
pub open spec fn all_positions(n: int) -> Seq<usize> {
    Seq::new(n as nat, |i: int| i as usize)
}

proof fn lemma_positions_where(flags: Seq<bool>, keep: bool, n: int)
    requires
        0 <= n <= flags.len(),
        flags.len() <= usize::MAX,
    ensures
        forall|k: int| 0 <= k < positions_where(flags, keep, n).len() ==> {
            let p = #[trigger] positions_where(flags, keep, n)[k];
            p < n && flags[p as int] == keep
        },
        positions_where(flags, false, n).to_multiset().add(positions_where(flags, true, n).to_multiset())
            == all_positions(n).to_multiset(),
    decreases n,
{
    broadcast use vstd::multiset::group_multiset_axioms;
    broadcast use vstd::seq_lib::group_to_multiset_ensures;

    if n > 0 {
        lemma_positions_where(flags, keep, n - 1);
        let f = positions_where(flags, false, n - 1);
        let t = positions_where(flags, true, n - 1);
        to_multiset_build(f, (n - 1) as usize);
        to_multiset_build(t, (n - 1) as usize);
        to_multiset_build(all_positions(n - 1), (n - 1) as usize);
        assert(all_positions(n) =~= all_positions(n - 1).push((n - 1) as usize));
        let fm = positions_where(flags, false, n).to_multiset();
        let tm = positions_where(flags, true, n).to_multiset();
        assert(fm.add(tm) =~= all_positions(n).to_multiset());
    } else {
        assert(all_positions(n) =~= Seq::<usize>::empty());
        assert(positions_where(flags, false, n) =~= Seq::<usize>::empty());
        assert(positions_where(flags, true, n) =~= Seq::<usize>::empty());
    }
}

/// `r` asks each of the questions with `ordered` options `flags` exactly once: first
/// those that may move, then those that keep their place, in the order written.
pub open spec fn is_session_order(flags: Seq<bool>, r: Seq<usize>) -> bool {
    let kept = positions_where(flags, true, flags.len() as int);
    let free = (flags.len() - kept.len()) as int;
    &&& r.to_multiset() == all_positions(flags.len() as int).to_multiset()
    &&& r.len() == flags.len()
    &&& r.subrange(free, r.len() as int) == kept
    &&& forall|k: int| 0 <= k < free ==> (#[trigger] r[k]) < flags.len() && !flags[r[k] as int]
    &&& forall|k: int| free <= k < r.len() ==> (#[trigger] r[k]) < flags.len() && flags[r[k] as int]
}

/// Whatever the draws, the shuffled order asks every question exactly once, and the
/// questions that keep their place come last, in the order written, after all others.
pub proof fn lemma_order_of(flags: Seq<bool>, draws: Seq<usize>)
    requires
        flags.len() <= usize::MAX,
    ensures
        is_session_order(flags, order_of(flags, draws)),
{
    broadcast use vstd::seq_lib::group_to_multiset_ensures;

    let n = flags.len() as int;
    let u = positions_where(flags, false, n);
    let o = positions_where(flags, true, n);
    let s = fisher_yates(u, draws, 0);
    let r = order_of(flags, draws);
    lemma_positions_where(flags, false, n);
    lemma_positions_where(flags, true, n);
    lemma_fisher_yates_permutes(u, draws, 0);
    lemma_multiset_commutative(s, o);
    lemma_multiset_commutative(u, o);
    assert(all_positions(n).len() == n);
    assert(all_positions(n).to_multiset().len() == n);
    assert(r.subrange(u.len() as int, r.len() as int) =~= o);
    assert(u.to_multiset().len() + o.to_multiset().len() == n);
    assert forall|k: int| 0 <= k < u.len() implies (#[trigger] r[k]) < flags.len() && !flags[r[k] as int] by {
        assert(r[k] == s[k]);
        assert(s.contains(s[k]));
        assert(u.to_multiset().count(s[k]) > 0);
        assert(u.contains(s[k]));
    }
    assert forall|k: int| u.len() <= k < r.len() implies (#[trigger] r[k]) < flags.len() && flags[r[k] as int] by {
        assert(r[k] == o[k - u.len()]);
    }
}

/// The positions of the questions of `qs` whose `ordered` option is `keep`.
fn positions_of(qs: &Vec<Question>, keep: bool) -> (r: Vec<usize>)
    ensures
        r@ == positions_where(ordered_flags(qs@.map_values(|q: Question| q@)), keep, qs.len() as int),
{
    let ghost flags = ordered_flags(qs@.map_values(|q: Question| q@));
    let mut r: Vec<usize> = Vec::new();
    let mut i: usize = 0;
    while i < qs.len()
        invariant
            flags == ordered_flags(qs@.map_values(|q: Question| q@)),
            i <= qs.len(),
            r@ == positions_where(flags, keep, i as int),
        decreases qs.len() - i,
    {
        assert(flags[i as int] == qs[i as int].config.ordered);
        if qs[i].config.ordered == keep {
            r.push(i);
        }
        i += 1;
    }
    r
}

/// The order in which the questions `qs` are asked, with the shuffle drawing `draws`:
/// those that may move, shuffled, then those that keep their place, as written.
pub fn question_order(qs: &Vec<Question>, draws: &Vec<usize>) -> (r: Vec<usize>)
    requires
        qs.len() <= draws.len() + 1,
    ensures
        r@ == order_of(ordered_flags(qs@.map_values(|q: Question| q@)), draws@),
{
    let mut free = positions_of(qs, false);
    let mut kept = positions_of(qs, true);
    proof {
        lemma_positions_where(ordered_flags(qs@.map_values(|q: Question| q@)), false, qs.len() as int);
        lemma_order_of(ordered_flags(qs@.map_values(|q: Question| q@)), draws@);
        lemma_fisher_yates_permutes(free@, draws@, 0);
    }
    shuffle_with(&mut free, draws);
    free.append(&mut kept);
    free
}

/// The order in which the questions `qs` are asked, drawn at random: every question
/// once, those whose `ordered` option is set last and in the order written.
pub fn session_order(qs: &Vec<Question>) -> (r: Vec<usize>)
    ensures
        is_session_order(ordered_flags(qs@.map_values(|q: Question| q@)), r@),
{
    let n = qs.len();
    let mut draws: Vec<usize> = Vec::new();
    let mut i: usize = 1;
    while i < n
        invariant
            1 <= i,
            draws.len() == i - 1,
        decreases n - i,
    {
        draws.push(rand());
        i += 1;
    }
    let r = question_order(qs, &draws);
    proof {
        lemma_order_of(ordered_flags(qs@.map_values(|q: Question| q@)), draws@);
    }
    r
}

/// The order in which the answers of `q` are shown: as written where the question keeps
/// its answers in order, else shuffled at random; each answer is shown once.
pub fn answer_order(q: &Question) -> (r: Vec<usize>)
    ensures
        r@.to_multiset() == all_positions(q.answers.len() as int).to_multiset(),
        r@.len() == q.answers.len(),
        forall|k: int| 0 <= k < r.len() ==> #[trigger] r[k] < q.answers.len(),
        q.config.ordered_answers ==> r@ == all_positions(q.answers.len() as int),
{
    broadcast use vstd::seq_lib::group_to_multiset_ensures;

    let n = q.answers.len();
    let mut r: Vec<usize> = Vec::new();
    let mut i: usize = 0;
    while i < n
        invariant
            i <= n,
            r@ == all_positions(i as int),
        decreases n - i,
    {
        r.push(i);
        i += 1;
        assert(r@ =~= all_positions(i as int));
    }
    let ghost first = r@;
    if !q.config.ordered_answers {
        shuffle(&mut r);
    }
    assert forall|k: int| 0 <= k < r.len() implies #[trigger] r[k] < q.answers.len() by {
        assert(r@.contains(r@[k]));
        assert(first.to_multiset().count(r@[k]) > 0);
        assert(first.contains(r@[k]));
    }
    r
}

} // verus!
