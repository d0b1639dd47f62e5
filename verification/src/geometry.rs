//! Whitespace gaps along one axis: intervals, taken in order of their
//! starts, are merged into runs, and the gaps between consecutive runs are
//! the candidate cuts.
//!
//! A coordinate is an order key (`Some`) or not a number (`None`); a
//! comparison that involves a coordinate that is not a number is false, as
//! for IEEE floating point.
use vstd::prelude::*;
use crate::ordering::{is_stable_order, sorts_before, stable_order};

verus! {

/// `a <= b` for coordinates.
pub open spec fn coord_le(a: Option<i64>, b: Option<i64>) -> bool {
    match (a, b) {
        (Some(x), Some(y)) => x <= y,
        _ => false,
    }
}

/// `a < b` for coordinates.
pub open spec fn coord_lt(a: Option<i64>, b: Option<i64>) -> bool {
    match (a, b) {
        (Some(x), Some(y)) => x < y,
        _ => false,
    }
}

fn coord_le_exec(a: Option<i64>, b: Option<i64>) -> (r: bool)
    ensures
        r == coord_le(a, b),
{
    match (a, b) {
        (Some(x), Some(y)) => x <= y,
        _ => false,
    }
}

fn coord_lt_exec(a: Option<i64>, b: Option<i64>) -> (r: bool)
    ensures
        r == coord_lt(a, b),
{
    match (a, b) {
        (Some(x), Some(y)) => x < y,
        _ => false,
    }
}

/// The runs that merging `ivs` in their order gives. A run is a pair of
/// positions: the interval that opened it, and the interval whose end is
/// the run's end. Each interval joins the last run when its start is at
/// most the run's end (touching intervals merge), and then moves the run's
/// end if its own end lies beyond; otherwise it opens a new run.
pub open spec fn merged_runs(ivs: Seq<(Option<i64>, Option<i64>)>) -> Seq<(usize, usize)>
    decreases ivs.len(),
{
    if ivs.len() == 0 {
        Seq::empty()
    } else {
        let prev = merged_runs(ivs.drop_last());
        let i = (ivs.len() - 1) as usize;
        if prev.len() > 0 && coord_le(ivs[i as int].0, ivs[prev.last().1 as int].1) {
            if coord_lt(ivs[prev.last().1 as int].1, ivs[i as int].1) {
                prev.update(prev.len() - 1, (prev.last().0, i))
            } else {
                prev
            }
        } else {
            prev.push((i, i))
        }
    }
}

/// The gaps between consecutive runs, each as the position of the interval
/// whose end opens the gap and of the interval whose start closes it.
pub open spec fn run_gaps_of(runs: Seq<(usize, usize)>) -> Seq<(usize, usize)> {
    Seq::new(
        if runs.len() == 0 {
            0
        } else {
            (runs.len() - 1) as nat
        },
        |k: int| (runs[k].1, runs[k + 1].0),
    )
}

proof fn lemma_runs_in_range(ivs: Seq<(Option<i64>, Option<i64>)>)
    ensures
        forall|k: int|
            0 <= k < merged_runs(ivs).len() ==> (#[trigger] merged_runs(ivs)[k]).0 < ivs.len()
                && merged_runs(ivs)[k].1 < ivs.len(),
        ivs.len() > 0 ==> merged_runs(ivs).len() > 0,
    decreases ivs.len(),
{
    if ivs.len() > 0 {
        let prev = merged_runs(ivs.drop_last());
        lemma_runs_in_range(ivs.drop_last());
        let r = merged_runs(ivs);
        assert forall|k: int| 0 <= k < r.len() implies (#[trigger] r[k]).0 < ivs.len() && r[k].1
            < ivs.len() by {
            if k < prev.len() {
                assert(prev[k].0 < ivs.len() - 1);
            }
        }
    }
}

/// Merges `ivs`, taken in the order given (by ascending start), into runs
/// of overlapping or touching intervals, and returns the gaps between
/// consecutive runs as pairs of positions into `ivs`: the gap runs from the
/// end of the first interval to the start of the second.
pub fn run_gaps(ivs: &Vec<(Option<i64>, Option<i64>)>) -> (gaps: Vec<(usize, usize)>)
    ensures
        gaps@ == run_gaps_of(merged_runs(ivs@)),
{
    let mut runs: Vec<(usize, usize)> = Vec::new();
    let mut i: usize = 0;
    while i < ivs.len()
        invariant
            i <= ivs@.len(),
            runs@ == merged_runs(ivs@.take(i as int)),
        decreases ivs@.len() - i,
    {
        proof {
            assert(ivs@.take(i + 1).drop_last() =~= ivs@.take(i as int));
            lemma_runs_in_range(ivs@.take(i as int));
        }
        let iv = ivs[i];
        let n = runs.len();
        if n > 0 && coord_le_exec(iv.0, ivs[runs[n - 1].1].1) {
            let last = runs[n - 1];
            if coord_lt_exec(ivs[last.1].1, iv.1) {
                runs.set(n - 1, (last.0, i));
            }
        } else {
            runs.push((i, i));
        }
        i = i + 1;
    }
    proof {
        assert(ivs@.take(i as int) =~= ivs@);
    }
    let mut gaps: Vec<(usize, usize)> = Vec::new();
    let m = runs.len();
    let mut k: usize = 0;
    while k + 1 < m
        invariant
            m == runs@.len(),
            k == 0 || k < m,
            runs@ == merged_runs(ivs@),
            gaps@.len() == k,
            forall|q: int| 0 <= q < k ==> #[trigger] gaps@[q] == (runs@[q].1, runs@[q + 1].0),
        decreases runs@.len() - k,
    {
        gaps.push((runs[k].1, runs[k + 1].0));
        k = k + 1;
    }
    proof {
        assert(gaps@ =~= run_gaps_of(runs@));
    }
    gaps
}

/// The start of interval `j`, as a number.
pub open spec fn st(ivs: Seq<(Option<i64>, Option<i64>)>, j: int) -> int {
    ivs[j].0->0 as int
}

/// The end of interval `j`, as a number.
pub open spec fn en(ivs: Seq<(Option<i64>, Option<i64>)>, j: int) -> int {
    ivs[j].1->0 as int
}

/// Every interval has numeric ends and does not end before it starts.
pub open spec fn well_formed(ivs: Seq<(Option<i64>, Option<i64>)>) -> bool {
    forall|j: int|
        #![trigger ivs[j]]
        0 <= j < ivs.len() ==> ivs[j].0 is Some && ivs[j].1 is Some && st(ivs, j) <= en(ivs, j)
}

/// The intervals come in order of their starts.
pub open spec fn sorted_by_start(ivs: Seq<(Option<i64>, Option<i64>)>) -> bool {
    forall|i: int, j: int| 0 <= i <= j < ivs.len() ==> #[trigger] st(ivs, i) <= #[trigger] st(ivs, j)
}

/// The position after the last interval of run `k`.
spec fn run_limit(runs: Seq<(usize, usize)>, k: int, n: int) -> int {
    if k + 1 < runs.len() {
        runs[k + 1].0 as int
    } else {
        n
    }
}

/// Run `k` is a range of positions holding its end interval, no interval
/// up to the end of the run ends beyond the run's end, and the next run
/// starts strictly after it.
spec fn run_ok(ivs: Seq<(Option<i64>, Option<i64>)>, runs: Seq<(usize, usize)>, k: int) -> bool {
    let n = ivs.len() as int;
    let lim = run_limit(runs, k, n);
    &&& runs[k].0 <= runs[k].1 < lim <= n
    &&& forall|j: int| 0 <= j < lim ==> #[trigger] en(ivs, j) <= en(ivs, runs[k].1 as int)
    &&& k + 1 < runs.len() ==> en(ivs, runs[k].1 as int) < st(ivs, runs[k + 1].0 as int)
}

/// What merging keeps true of well-formed intervals sorted by start.
spec fn runs_cover(ivs: Seq<(Option<i64>, Option<i64>)>, runs: Seq<(usize, usize)>) -> bool {
    &&& (ivs.len() > 0 <==> runs.len() > 0)
    &&& forall|k: int| 0 <= k < runs.len() ==> #[trigger] run_ok(ivs, runs, k)
}

proof fn lemma_front_ok(ivs: Seq<(Option<i64>, Option<i64>)>)
    requires
        ivs.len() > 0,
        well_formed(ivs),
        sorted_by_start(ivs),
    ensures
        well_formed(ivs.drop_last()),
        sorted_by_start(ivs.drop_last()),
        forall|j: int| 0 <= j < ivs.len() - 1 ==> #[trigger] ivs.drop_last()[j] == ivs[j],
{
    let front = ivs.drop_last();
    assert forall|j: int| 0 <= j < front.len() implies front[j].0 is Some && front[j].1 is Some
        && st(front, j) <= en(front, j) by {
        assert(front[j] == ivs[j]);
    }
    assert forall|i: int, j: int| 0 <= i <= j < front.len() implies #[trigger] st(front, i) <= #[trigger] st(
        front,
        j,
    ) by {
        assert(front[i] == ivs[i]);
        assert(front[j] == ivs[j]);
        assert(st(ivs, i) <= st(ivs, j));
    }
}

proof fn lemma_run_ok_front(
    ivs: Seq<(Option<i64>, Option<i64>)>,
    prev: Seq<(usize, usize)>,
    r: Seq<(usize, usize)>,
    k: int,
)
    requires
        ivs.len() > 0,
        run_ok(ivs.drop_last(), prev, k),
        run_ok(ivs.drop_last(), prev, k + 1),
        0 <= k,
        k + 1 < prev.len(),
        k + 1 < r.len(),
        r[k] == prev[k],
        r[k + 1].0 == prev[k + 1].0,
    ensures
        run_ok(ivs, r, k),
{
    let front = ivs.drop_last();
    let lim = run_limit(prev, k, front.len() as int);
    assert(run_limit(r, k, ivs.len() as int) == lim);
    assert forall|j: int| 0 <= j < lim implies #[trigger] en(ivs, j) <= en(ivs, r[k].1 as int) by {
        assert(en(front, j) <= en(front, prev[k].1 as int));
        assert(front[j] == ivs[j]);
        assert(front[prev[k].1 as int] == ivs[prev[k].1 as int]);
    }
    assert(front[prev[k].1 as int] == ivs[prev[k].1 as int]);
    assert(front[prev[k + 1].0 as int] == ivs[prev[k + 1].0 as int]);
}

proof fn lemma_last_bound(ivs: Seq<(Option<i64>, Option<i64>)>, prev: Seq<(usize, usize)>, q: int)
    requires
        ivs.len() > 0,
        prev.len() > 0,
        run_ok(ivs.drop_last(), prev, prev.len() - 1),
        0 <= q < ivs.len(),
        en(ivs, prev.last().1 as int) <= en(ivs, q),
        en(ivs, ivs.len() - 1) <= en(ivs, q),
    ensures
        forall|j: int| 0 <= j < ivs.len() ==> #[trigger] en(ivs, j) <= en(ivs, q),
        prev.last().1 < ivs.len() - 1,
{
    let front = ivs.drop_last();
    let last = prev.len() - 1;
    assert(run_limit(prev, last, front.len() as int) == front.len());
    assert(front[prev[last].1 as int] == ivs[prev[last].1 as int]);
    assert forall|j: int| 0 <= j < ivs.len() implies #[trigger] en(ivs, j) <= en(ivs, q) by {
        if j < ivs.len() - 1 {
            assert(en(front, j) <= en(front, prev[last].1 as int));
            assert(front[j] == ivs[j]);
        }
    }
}

proof fn lemma_runs_cover(ivs: Seq<(Option<i64>, Option<i64>)>)
    requires
        ivs.len() <= usize::MAX,
        well_formed(ivs),
        sorted_by_start(ivs),
    ensures
        runs_cover(ivs, merged_runs(ivs)),
    decreases ivs.len(),
{
    if ivs.len() > 0 {
        let front = ivs.drop_last();
        lemma_front_ok(ivs);
        lemma_runs_cover(front);
        let prev = merged_runs(front);
        let r = merged_runs(ivs);
        let n = ivs.len() as int;
        let i = n - 1;
        if prev.len() > 0 {
            let last = prev.len() - 1;
            let p = prev[last].1 as int;
            assert(run_ok(front, prev, last));
            assert(front[p] == ivs[p]);
            if coord_le(ivs[i].0, ivs[p].1) {
                let q = if coord_lt(ivs[p].1, ivs[i].1) {
                    i
                } else {
                    p
                };
                assert(r =~= prev.update(last, (prev[last].0, q as usize)));
                lemma_last_bound(ivs, prev, q);
                assert forall|k: int| 0 <= k < r.len() implies #[trigger] run_ok(ivs, r, k) by {
                    if k < last {
                        assert(run_ok(front, prev, k));
                        assert(run_ok(front, prev, k + 1));
                        lemma_run_ok_front(ivs, prev, r, k);
                    } else {
                        assert(run_limit(r, k, n) == n);
                    }
                }
            } else {
                assert(r =~= prev.push((i as usize, i as usize)));
                lemma_last_bound(ivs, prev, i);
                assert forall|k: int| 0 <= k < r.len() implies #[trigger] run_ok(ivs, r, k) by {
                    if k < last {
                        assert(run_ok(front, prev, k));
                        assert(run_ok(front, prev, k + 1));
                        lemma_run_ok_front(ivs, prev, r, k);
                    } else if k == last {
                        assert(run_limit(r, k, n) == i);
                        assert(run_limit(prev, k, i) == i);
                        assert forall|j: int| 0 <= j < i implies #[trigger] en(ivs, j) <= en(ivs, p) by {
                            assert(en(front, j) <= en(front, p));
                            assert(front[j] == ivs[j]);
                        }
                    } else {
                        assert(run_limit(r, k, n) == n);
                    }
                }
            }
        } else {
            assert(r =~= seq![(i as usize, i as usize)]);
            assert(run_limit(r, 0, n) == n);
            assert(run_ok(ivs, r, 0));
        }
    }
}

/// For well-formed intervals in order of their starts, every gap between
/// runs is really empty: it has positive width, and every interval ends at
/// or before the gap opens or starts at or after it closes.
pub proof fn law_gaps_are_empty(ivs: Seq<(Option<i64>, Option<i64>)>, g: int, j: int)
    requires
        ivs.len() <= usize::MAX,
        well_formed(ivs),
        sorted_by_start(ivs),
        0 <= g < run_gaps_of(merged_runs(ivs)).len(),
        0 <= j < ivs.len(),
    ensures
        ({
            let gap = run_gaps_of(merged_runs(ivs))[g];
            &&& en(ivs, gap.0 as int) < st(ivs, gap.1 as int)
            &&& en(ivs, j) <= en(ivs, gap.0 as int) || st(ivs, gap.1 as int) <= st(ivs, j)
        }),
{
    lemma_runs_cover(ivs);
    let r = merged_runs(ivs);
    assert(run_ok(ivs, r, g));
    assert(run_ok(ivs, r, g + 1));
    if j >= r[g + 1].0 {
        assert(st(ivs, r[g + 1].0 as int) <= st(ivs, j));
    }
}

/// Some interval at a position in `lo..j` ends at or after the start of
/// interval `j`.
spec fn reaches(ivs: Seq<(Option<i64>, Option<i64>)>, lo: int, j: int) -> bool {
    exists|i: int| #![trigger ivs[i]] lo <= i < j && coord_le(ivs[j].0, ivs[i].1)
}

/// The shape of the merge: runs are consecutive ranges of positions from 0
/// whose first positions increase, each holds its end interval, and every
/// later member of a run starts at or before the end of an earlier member.
spec fn runs_join(ivs: Seq<(Option<i64>, Option<i64>)>, runs: Seq<(usize, usize)>) -> bool {
    let n = ivs.len() as int;
    &&& runs.len() > 0 ==> runs[0].0 == 0
    &&& forall|k: int|
        0 <= k < runs.len() ==> (#[trigger] runs[k]).0 <= runs[k].1 < run_limit(runs, k, n) <= n
    &&& forall|k: int, l: int|
        0 <= k < l < runs.len() ==> (#[trigger] runs[k]).0 < (#[trigger] runs[l]).0
    &&& forall|k: int, j: int|
        0 <= k < runs.len() && (#[trigger] runs[k]).0 < j < run_limit(runs, k, n) ==> #[trigger] reaches(
            ivs,
            runs[k].0 as int,
            j,
        )
}

proof fn lemma_reaches_front(ivs: Seq<(Option<i64>, Option<i64>)>, lo: int, j: int)
    requires
        ivs.len() > 0,
        0 <= lo,
        0 <= j < ivs.len() - 1,
        reaches(ivs.drop_last(), lo, j),
    ensures
        reaches(ivs, lo, j),
{
    let front = ivs.drop_last();
    let i = choose|i: int| #![trigger front[i]] lo <= i < j && coord_le(front[j].0, front[i].1);
    assert(front[i] == ivs[i]);
    assert(front[j] == ivs[j]);
}

#[verifier::rlimit(30)]
proof fn lemma_runs_join(ivs: Seq<(Option<i64>, Option<i64>)>)
    requires
        ivs.len() <= usize::MAX,
    ensures
        runs_join(ivs, merged_runs(ivs)),
    decreases ivs.len(),
{
    if ivs.len() > 0 {
        let front = ivs.drop_last();
        lemma_runs_join(front);
        let prev = merged_runs(front);
        let r = merged_runs(ivs);
        let n = ivs.len() as int;
        let i = n - 1;
        assert forall|k: int, j: int|
            0 <= k < prev.len() && (#[trigger] prev[k]).0 < j < run_limit(prev, k, i) implies #[trigger] reaches(
            ivs,
            prev[k].0 as int,
            j,
        ) by {
            assert(reaches(front, prev[k].0 as int, j));
            lemma_reaches_front(ivs, prev[k].0 as int, j);
        }
        if prev.len() > 0 && coord_le(ivs[i].0, ivs[prev.last().1 as int].1) {
            let last = prev.len() - 1;
            let p = prev[last].1 as int;
            assert(prev[last] == prev.last());
            let q = if coord_lt(ivs[p].1, ivs[i].1) {
                i
            } else {
                p
            };
            assert(r =~= prev.update(last, (prev[last].0, q as usize)));
            assert(reaches(ivs, prev[last].0 as int, i)) by {
                assert(prev[last].0 <= p < i);
            }
        } else {
            assert(r =~= prev.push((i as usize, i as usize)));
        }
    }
}

/// `(a, b)` is a gap of the intervals: a non-empty span from the end of
/// some interval to the start of some interval that no interval reaches
/// into (every interval ends at or before `a` or starts at or after `b`).
/// Such a span is maximal: its ends are interval ends and starts.
pub open spec fn is_gap(ivs: Seq<(Option<i64>, Option<i64>)>, a: int, b: int) -> bool {
    &&& a < b
    &&& exists|j: int| 0 <= j < ivs.len() && #[trigger] en(ivs, j) == a
    &&& exists|k: int| 0 <= k < ivs.len() && #[trigger] st(ivs, k) == b
    &&& forall|j: int| 0 <= j < ivs.len() ==> #[trigger] en(ivs, j) <= a || b <= st(ivs, j)
}

/// `gaps` lists exactly the gaps of the intervals, in ascending order.
pub open spec fn gaps_exactly(ivs: Seq<(Option<i64>, Option<i64>)>, gaps: Seq<(int, int)>) -> bool {
    &&& forall|g: int| 0 <= g < gaps.len() ==> is_gap(ivs, (#[trigger] gaps[g]).0, gaps[g].1)
    &&& forall|g: int, h: int|
        0 <= g < h < gaps.len() ==> (#[trigger] gaps[g]).1 <= (#[trigger] gaps[h]).0
    &&& forall|a: int, b: int|
        #[trigger] is_gap(ivs, a, b) ==> exists|g: int| 0 <= g < gaps.len() && #[trigger] gaps[g] == (a, b)
}

/// The coordinates of gaps given by positions: from the end of the first
/// interval to the start of the second.
pub open spec fn gap_coords(ivs: Seq<(Option<i64>, Option<i64>)>, gaps: Seq<(usize, usize)>) -> Seq<(int, int)> {
    Seq::new(gaps.len(), |g: int| (en(ivs, gaps[g].0 as int), st(ivs, gaps[g].1 as int)))
}

proof fn lemma_first_at_least(ivs: Seq<(Option<i64>, Option<i64>)>, b: int, hi: int) -> (q: int)
    requires
        sorted_by_start(ivs),
        0 <= hi < ivs.len(),
        b <= st(ivs, hi),
    ensures
        0 <= q <= hi,
        b <= st(ivs, q),
        forall|p: int| 0 <= p < q ==> #[trigger] st(ivs, p) < b,
    decreases hi,
{
    if hi > 0 && b <= st(ivs, hi - 1) {
        lemma_first_at_least(ivs, b, hi - 1)
    } else {
        assert forall|p: int| 0 <= p < hi implies #[trigger] st(ivs, p) < b by {
            assert(st(ivs, p) <= st(ivs, hi - 1));
        }
        hi
    }
}

proof fn lemma_run_of(ivs: Seq<(Option<i64>, Option<i64>)>, runs: Seq<(usize, usize)>, q: int, k: int) -> (r: int)
    requires
        runs_join(ivs, runs),
        0 <= k < runs.len(),
        0 <= q < run_limit(runs, k, ivs.len() as int),
    ensures
        0 <= r <= k,
        runs[r].0 <= q < run_limit(runs, r, ivs.len() as int),
    decreases k,
{
    if runs[k].0 <= q {
        k
    } else {
        lemma_run_of(ivs, runs, q, k - 1)
    }
}

/// For well-formed intervals in order of their starts, the merge yields
/// exactly their gaps, in ascending order.
proof fn lemma_sorted_gaps_exact(ivs: Seq<(Option<i64>, Option<i64>)>)
    requires
        ivs.len() <= usize::MAX,
        well_formed(ivs),
        sorted_by_start(ivs),
    ensures
        gaps_exactly(ivs, gap_coords(ivs, run_gaps_of(merged_runs(ivs)))),
{
    lemma_runs_cover(ivs);
    lemma_runs_join(ivs);
    let r = merged_runs(ivs);
    let gaps = run_gaps_of(r);
    let gv = gap_coords(ivs, gaps);
    let n = ivs.len() as int;
    assert forall|g: int| 0 <= g < gv.len() implies is_gap(ivs, (#[trigger] gv[g]).0, gv[g].1) by {
        assert(run_ok(ivs, r, g));
        assert(run_ok(ivs, r, g + 1));
        let a = gv[g].0;
        let b = gv[g].1;
        assert(en(ivs, r[g].1 as int) == a);
        assert(st(ivs, r[g + 1].0 as int) == b);
        assert forall|j: int| 0 <= j < n implies #[trigger] en(ivs, j) <= a || b <= st(ivs, j) by {
            if j >= r[g + 1].0 {
                assert(st(ivs, r[g + 1].0 as int) <= st(ivs, j));
            }
        }
    }
    assert forall|g: int, h: int| 0 <= g < h < gv.len() implies (#[trigger] gv[g]).1 <= (#[trigger] gv[h]).0 by {
        assert(run_ok(ivs, r, h));
        if g + 1 < h {
            assert(r[g + 1].0 < r[h].0);
        }
        let f = r[g + 1].0 as int;
        assert(en(ivs, f) <= en(ivs, r[h].1 as int));
    }
    assert forall|a: int, b: int| #[trigger] is_gap(ivs, a, b) implies exists|g: int|
        0 <= g < gv.len() && #[trigger] gv[g] == (a, b) by {
        let j = choose|j: int| 0 <= j < ivs.len() && #[trigger] en(ivs, j) == a;
        let kk = choose|k: int| 0 <= k < ivs.len() && #[trigger] st(ivs, k) == b;
        let q = lemma_first_at_least(ivs, b, kk);
        assert(r.len() > 0);
        let rq = lemma_run_of(ivs, r, q, r.len() - 1);
        // every position before q ends at or before a
        assert forall|p: int| 0 <= p < q implies #[trigger] en(ivs, p) <= a by {
            assert(st(ivs, p) < b);
        }
        if r[rq].0 < q {
            assert(reaches(ivs, r[rq].0 as int, q));
            let i = choose|i: int| #![trigger ivs[i]] r[rq].0 <= i < q && coord_le(ivs[q].0, ivs[i].1);
            assert(en(ivs, i) <= a);
            assert(false);
        }
        // j lies before q
        assert(st(ivs, j) <= en(ivs, j));
        if j >= q {
            assert(st(ivs, q) <= st(ivs, j));
        }
        assert(rq > 0);
        assert(run_ok(ivs, r, rq - 1));
        assert(run_limit(r, rq - 1, n) == q);
        assert(st(ivs, q) <= st(ivs, kk));
        assert(en(ivs, r[rq - 1].1 as int) <= a);
        assert(gv[rq - 1] == (a, b));
    }
}

proof fn lemma_gaps_ascending(ivs: Seq<(Option<i64>, Option<i64>)>, g: Seq<(int, int)>, i: int, k: int)
    requires
        gaps_exactly(ivs, g),
        0 <= i < k < g.len(),
    ensures
        g[i].0 < g[k].0,
        g[i] != g[k],
{
    assert(is_gap(ivs, g[i].0, g[i].1));
    assert(g[i].1 <= g[k].0);
}

proof fn lemma_gaps_prefix(ivs: Seq<(Option<i64>, Option<i64>)>, g1: Seq<(int, int)>, g2: Seq<(int, int)>, k: int)
    requires
        gaps_exactly(ivs, g1),
        gaps_exactly(ivs, g2),
        0 <= k <= g1.len(),
        k <= g2.len(),
    ensures
        forall|i: int| 0 <= i < k ==> g1[i] == g2[i],
    decreases k,
{
    if k > 0 {
        lemma_gaps_prefix(ivs, g1, g2, k - 1);
        let c = k - 1;
        assert(is_gap(ivs, g1[c].0, g1[c].1));
        let m = choose|m: int| 0 <= m < g2.len() && #[trigger] g2[m] == (g1[c].0, g1[c].1);
        if m < c {
            lemma_gaps_ascending(ivs, g1, m, c);
            assert(g1[m] == g2[m]);
        } else if m > c {
            assert(is_gap(ivs, g2[c].0, g2[c].1));
            let m2 = choose|m2: int| 0 <= m2 < g1.len() && #[trigger] g1[m2] == (g2[c].0, g2[c].1);
            lemma_gaps_ascending(ivs, g2, c, m);
            if m2 >= c {
                if m2 > c {
                    lemma_gaps_ascending(ivs, g1, c, m2);
                }
            } else {
                lemma_gaps_ascending(ivs, g2, m2, c);
                assert(g1[m2] == g2[m2]);
            }
        }
    }
}

proof fn lemma_gaps_longer(ivs: Seq<(Option<i64>, Option<i64>)>, g1: Seq<(int, int)>, g2: Seq<(int, int)>)
    requires
        gaps_exactly(ivs, g1),
        gaps_exactly(ivs, g2),
        forall|i: int| 0 <= i < g2.len() ==> g1[i] == g2[i],
    ensures
        g1.len() <= g2.len(),
{
    if g1.len() > g2.len() {
        let c = g2.len() as int;
        assert(is_gap(ivs, g1[c].0, g1[c].1));
        let m = choose|m: int| 0 <= m < g2.len() && #[trigger] g2[m] == (g1[c].0, g1[c].1);
        lemma_gaps_ascending(ivs, g1, m, c);
        assert(g1[m] == g2[m]);
    }
}

/// The gaps of a set of intervals are determined: two sequences that both
/// list exactly the gaps in ascending order are equal.
pub proof fn law_gaps_determined(ivs: Seq<(Option<i64>, Option<i64>)>, g1: Seq<(int, int)>, g2: Seq<(int, int)>)
    requires
        gaps_exactly(ivs, g1),
        gaps_exactly(ivs, g2),
    ensures
        g1 == g2,
{
    let k = if g1.len() <= g2.len() {
        g1.len() as int
    } else {
        g2.len() as int
    };
    lemma_gaps_prefix(ivs, g1, g2, k);
    if g1.len() <= g2.len() {
        lemma_gaps_longer(ivs, g2, g1);
    } else {
        lemma_gaps_longer(ivs, g1, g2);
    }
    assert(g1 =~= g2);
}

proof fn lemma_is_gap_transfer(s1: Seq<(Option<i64>, Option<i64>)>, s2: Seq<(Option<i64>, Option<i64>)>, a: int, b: int)
    requires
        forall|x: (Option<i64>, Option<i64>)| s1.contains(x) ==> #[trigger] s2.contains(x),
        forall|x: (Option<i64>, Option<i64>)| s2.contains(x) ==> #[trigger] s1.contains(x),
        is_gap(s1, a, b),
    ensures
        is_gap(s2, a, b),
{
    let j = choose|j: int| 0 <= j < s1.len() && #[trigger] en(s1, j) == a;
    let k = choose|k: int| 0 <= k < s1.len() && #[trigger] st(s1, k) == b;
    assert(s1.contains(s1[j]));
    assert(s2.contains(s1[j]));
    let j2 = choose|j2: int| 0 <= j2 < s2.len() && s2[j2] == s1[j];
    assert(en(s2, j2) == a);
    assert(s1.contains(s1[k]));
    assert(s2.contains(s1[k]));
    let k2 = choose|k2: int| 0 <= k2 < s2.len() && s2[k2] == s1[k];
    assert(st(s2, k2) == b);
    assert forall|i: int| 0 <= i < s2.len() implies #[trigger] en(s2, i) <= a || b <= st(s2, i) by {
        assert(s2.contains(s2[i]));
        assert(s1.contains(s2[i]));
        let i1 = choose|i1: int| 0 <= i1 < s1.len() && s1[i1] == s2[i];
        assert(en(s1, i1) <= a || b <= st(s1, i1));
    }
}

/// Intervals that are the same up to order have the same gaps.
proof fn lemma_gaps_exactly_transfer(
    s1: Seq<(Option<i64>, Option<i64>)>,
    s2: Seq<(Option<i64>, Option<i64>)>,
    g: Seq<(int, int)>,
)
    requires
        forall|x: (Option<i64>, Option<i64>)| s1.contains(x) ==> #[trigger] s2.contains(x),
        forall|x: (Option<i64>, Option<i64>)| s2.contains(x) ==> #[trigger] s1.contains(x),
        gaps_exactly(s1, g),
    ensures
        gaps_exactly(s2, g),
{
    assert forall|i: int| 0 <= i < g.len() implies is_gap(s2, (#[trigger] g[i]).0, g[i].1) by {
        lemma_is_gap_transfer(s1, s2, g[i].0, g[i].1);
    }
    assert forall|a: int, b: int| #[trigger] is_gap(s2, a, b) implies exists|i: int|
        0 <= i < g.len() && #[trigger] g[i] == (a, b) by {
        lemma_is_gap_transfer(s2, s1, a, b);
    }
}

/// The gaps do not depend on the order in which the intervals come, nor on
/// repeats: for two lists that hold the same intervals, the sequences that
/// list exactly their gaps in ascending order are equal.
pub proof fn law_gaps_ignore_input_order(
    ivs1: Seq<(Option<i64>, Option<i64>)>,
    ivs2: Seq<(Option<i64>, Option<i64>)>,
    g1: Seq<(int, int)>,
    g2: Seq<(int, int)>,
)
    requires
        forall|x: (Option<i64>, Option<i64>)| ivs1.contains(x) <==> #[trigger] ivs2.contains(x),
        gaps_exactly(ivs1, g1),
        gaps_exactly(ivs2, g2),
    ensures
        g1 == g2,
{
    lemma_gaps_exactly_transfer(ivs1, ivs2, g1);
    law_gaps_determined(ivs2, g1, g2);
}

/// The sort key of an interval: its start (a start that is not a number
/// sorts as 0; it is only ever alone).
pub open spec fn start_keys(ivs: Seq<(Option<i64>, Option<i64>)>) -> Seq<(i64, i64)> {
    Seq::new(
        ivs.len(),
        |j: int|
            (
                match ivs[j].0 {
                    Some(x) => x,
                    None => 0,
                },
                0,
            ),
    )
}

/// `ivs` taken in the order `order`.
pub open spec fn permuted(ivs: Seq<(Option<i64>, Option<i64>)>, order: Seq<usize>) -> Seq<(Option<i64>, Option<i64>)> {
    Seq::new(order.len(), |p: int| ivs[order[p] as int])
}

/// The gaps of `ivs` as positions into `ivs`, when the intervals are taken
/// in the stable order `order` of their starts and merged.
pub open spec fn gaps_in_order(ivs: Seq<(Option<i64>, Option<i64>)>, order: Seq<usize>) -> Seq<(usize, usize)> {
    let g = run_gaps_of(merged_runs(permuted(ivs, order)));
    Seq::new(g.len(), |k: int| (order[g[k].0 as int], order[g[k].1 as int]))
}

/// The whitespace gaps between intervals given in any order: the intervals
/// are ordered by start (equal starts keep their input order), merged into
/// runs of overlapping or touching intervals, and each gap between
/// consecutive runs is returned as the positions in `ivs` of the interval
/// whose end opens it and the interval whose start closes it. For
/// well-formed intervals these are exactly the gaps, in ascending order;
/// their coordinates do not depend on the order of the input as long as no
/// reversed interval shares its start with another interval
/// (`law_interval_gaps_ignore_input_order`).
pub fn interval_gaps(ivs: &Vec<(Option<i64>, Option<i64>)>) -> (gaps: Vec<(usize, usize)>)
    requires
        ivs@.len() >= 2 ==> forall|j: int| 0 <= j < ivs@.len() ==> (#[trigger] ivs@[j]).0 is Some,
    ensures
        forall|g: int|
            0 <= g < gaps@.len() ==> (#[trigger] gaps@[g]).0 < ivs@.len() && gaps@[g].1 < ivs@.len(),
        exists|order: Seq<usize>|
            is_stable_order(start_keys(ivs@), order) && gaps@ == gaps_in_order(ivs@, order),
        well_formed(ivs@) ==> gaps_exactly(ivs@, gap_coords(ivs@, gaps@)),
{
    let n = ivs.len();
    let mut keys: Vec<(i64, i64)> = Vec::new();
    let mut j: usize = 0;
    while j < n
        invariant
            n == ivs@.len(),
            j <= n,
            keys@ == start_keys(ivs@).take(j as int),
        decreases n - j,
    {
        let x: i64 = match ivs[j].0 {
            Some(x) => x,
            None => 0,
        };
        keys.push((x, 0));
        j = j + 1;
        proof {
            assert(keys@ =~= start_keys(ivs@).take(j as int));
        }
    }
    proof {
        assert(keys@ =~= start_keys(ivs@));
    }
    let order = stable_order(&keys);
    let mut sorted: Vec<(Option<i64>, Option<i64>)> = Vec::new();
    let mut p: usize = 0;
    while p < n
        invariant
            n == ivs@.len(),
            order@.len() == n,
            forall|a: int| 0 <= a < n ==> #[trigger] order@[a] < n,
            p <= n,
            sorted@ == permuted(ivs@, order@).take(p as int),
        decreases n - p,
    {
        sorted.push(ivs[order[p]]);
        p = p + 1;
        proof {
            assert(sorted@ =~= permuted(ivs@, order@).take(p as int));
        }
    }
    proof {
        assert(sorted@ =~= permuted(ivs@, order@));
    }
    let rg = run_gaps(&sorted);
    proof {
        lemma_runs_in_range(sorted@);
    }
    let mut gaps: Vec<(usize, usize)> = Vec::new();
    let mut k: usize = 0;
    while k < rg.len()
        invariant
            n == ivs@.len(),
            order@.len() == n,
            sorted@.len() == n,
            rg@ == run_gaps_of(merged_runs(sorted@)),
            forall|q: int|
                0 <= q < merged_runs(sorted@).len() ==> (#[trigger] merged_runs(sorted@)[q]).0 < n
                    && merged_runs(sorted@)[q].1 < n,
            k <= rg@.len(),
            gaps@.len() == k,
            forall|q: int|
                0 <= q < k ==> #[trigger] gaps@[q] == (order@[rg@[q].0 as int], order@[rg@[q].1 as int]),
        decreases rg@.len() - k,
    {
        let g = rg[k];
        gaps.push((order[g.0], order[g.1]));
        k = k + 1;
    }
    proof {
        assert(gaps@ =~= gaps_in_order(ivs@, order@));
        if well_formed(ivs@) {
            let s = sorted@;
            let iv = ivs@;
            assert(well_formed(s));
            assert(sorted_by_start(s)) by {
                assert forall|a: int, b: int| 0 <= a <= b < s.len() implies #[trigger] st(s, a) <= #[trigger] st(s, b) by {
                    if a < b {
                        assert(sorts_before(keys@, order@[a] as int, order@[b] as int));
                    }
                }
            }
            lemma_sorted_gaps_exact(s);
            assert forall|x: (Option<i64>, Option<i64>)| s.contains(x) implies #[trigger] iv.contains(x) by {
                let q = choose|q: int| 0 <= q < s.len() && s[q] == x;
                assert(iv[order@[q] as int] == x);
            }
            assert forall|x: (Option<i64>, Option<i64>)| iv.contains(x) implies #[trigger] s.contains(x) by {
                let q = choose|q: int| 0 <= q < iv.len() && iv[q] == x;
                assert(order@.contains(q as usize));
                let a = choose|a: int| 0 <= a < order@.len() && order@[a] == q as usize;
                assert(s[a] == x);
            }
            let gv = gap_coords(s, rg@);
            assert(gap_coords(iv, gaps@) =~= gv);
            lemma_gaps_exactly_transfer(s, iv, gv);
        }
    }
    gaps
}


// ---------------------------------------------------------------------------
// Reversed intervals
// ---------------------------------------------------------------------------

/// Interval `iv` is reversed: it ends before it starts.
pub open spec fn reversed(iv: (Option<i64>, Option<i64>)) -> bool {
    coord_lt(iv.1, iv.0)
}

/// Every interval has numeric ends.
pub open spec fn numeric(ivs: Seq<(Option<i64>, Option<i64>)>) -> bool {
    forall|j: int| 0 <= j < ivs.len() ==> (#[trigger] ivs[j]).0 is Some && ivs[j].1 is Some
}

/// No reversed interval shares its start with another interval.
pub open spec fn reversed_starts_apart(ivs: Seq<(Option<i64>, Option<i64>)>) -> bool {
    forall|j: int, k: int|
        #![trigger ivs[j], ivs[k]]
        0 <= j < ivs.len() && 0 <= k < ivs.len() && j != k && reversed(ivs[j]) ==> st(ivs, j) != st(
            ivs,
            k,
        )
}

/// A reversed interval taken as the single point at its start.
spec fn fixed(iv: (Option<i64>, Option<i64>)) -> (Option<i64>, Option<i64>) {
    if reversed(iv) {
        (iv.0, iv.0)
    } else {
        iv
    }
}

spec fn fix_all(ivs: Seq<(Option<i64>, Option<i64>)>) -> Seq<(Option<i64>, Option<i64>)> {
    Seq::new(ivs.len(), |j: int| fixed(ivs[j]))
}

proof fn lemma_fix_ok(s: Seq<(Option<i64>, Option<i64>)>)
    requires
        numeric(s),
        sorted_by_start(s),
    ensures
        well_formed(fix_all(s)),
        sorted_by_start(fix_all(s)),
        forall|j: int| 0 <= j < s.len() ==> #[trigger] st(fix_all(s), j) == st(s, j),
{
    let f = fix_all(s);
    assert forall|j: int| 0 <= j < f.len() implies f[j].0 is Some && f[j].1 is Some && st(f, j) <= en(f, j) by {
        assert(s[j].0 is Some && s[j].1 is Some);
    }
    assert forall|a: int, b: int| 0 <= a <= b < f.len() implies #[trigger] st(f, a) <= #[trigger] st(f, b) by {
        assert(st(s, a) <= st(s, b));
    }
}

/// Merging does not see the difference between a reversed interval whose
/// start no other interval shares and the point at its start.
proof fn lemma_fix_runs(s: Seq<(Option<i64>, Option<i64>)>)
    requires
        s.len() <= usize::MAX,
        numeric(s),
        sorted_by_start(s),
        reversed_starts_apart(s),
    ensures
        merged_runs(fix_all(s)) == merged_runs(s),
    decreases s.len(),
{
    if s.len() > 0 {
        let front = s.drop_last();
        let f = fix_all(s);
        assert(f.drop_last() =~= fix_all(front));
        assert forall|j: int| 0 <= j < front.len() implies (#[trigger] front[j]).0 is Some && front[j].1 is Some by {
            assert(front[j] == s[j]);
        }
        assert forall|a: int, b: int| 0 <= a <= b < front.len() implies #[trigger] st(front, a) <= #[trigger] st(
            front,
            b,
        ) by {
            assert(front[a] == s[a]);
            assert(front[b] == s[b]);
            assert(st(s, a) <= st(s, b));
        }
        assert forall|j: int, k: int|
            #![trigger front[j], front[k]]
            0 <= j < front.len() && 0 <= k < front.len() && j != k && reversed(front[j]) implies st(front, j)
                != st(front, k) by {
            assert(front[j] == s[j]);
            assert(front[k] == s[k]);
            assert(reversed(s[j]));
        }
        lemma_fix_runs(front);
        lemma_runs_in_range(front);
        let prev = merged_runs(front);
        let i = s.len() - 1;
        assert(s[i].0 is Some && s[i].1 is Some);
        assert(f[i] == fixed(s[i]));
        if prev.len() > 0 {
            let p = prev.last().1 as int;
            assert(prev[prev.len() - 1] == prev.last());
            assert(f[p] == fixed(s[p]));
            assert(s[p].0 is Some && s[p].1 is Some);
            assert(st(s, p) <= st(s, i));
            if reversed(s[p]) {
                assert(st(s, p) != st(s, i));
            }
        }
    }
}

/// The end interval of a run, when it is not the run's first interval,
/// starts before it ends.
proof fn lemma_run_end_grows(ivs: Seq<(Option<i64>, Option<i64>)>)
    requires
        ivs.len() <= usize::MAX,
    ensures
        forall|k: int|
            0 <= k < merged_runs(ivs).len() ==> (#[trigger] merged_runs(ivs)[k]).0 == merged_runs(ivs)[k].1
                || coord_lt(ivs[merged_runs(ivs)[k].1 as int].0, ivs[merged_runs(ivs)[k].1 as int].1),
    decreases ivs.len(),
{
    if ivs.len() > 0 {
        let front = ivs.drop_last();
        lemma_run_end_grows(front);
        lemma_runs_in_range(front);
        let prev = merged_runs(front);
        let r = merged_runs(ivs);
        let i = ivs.len() - 1;
        if prev.len() > 0 && coord_le(ivs[i].0, ivs[prev.last().1 as int].1) {
            let last = prev.len() - 1;
            assert(prev[last] == prev.last());
        }
    }
}

/// When a reversed interval ends a run, no other interval's point or end
/// lies at its start.
proof fn lemma_reversed_run_end(s: Seq<(Option<i64>, Option<i64>)>, k: int)
    requires
        s.len() <= usize::MAX,
        numeric(s),
        sorted_by_start(s),
        reversed_starts_apart(s),
        0 <= k < merged_runs(s).len(),
        reversed(s[merged_runs(s)[k].1 as int]),
    ensures
        forall|j: int|
            0 <= j < s.len() && j != merged_runs(s)[k].1 ==> #[trigger] en(fix_all(s), j) != st(
                s,
                merged_runs(s)[k].1 as int,
            ),
{
    let f = fix_all(s);
    lemma_fix_ok(s);
    lemma_fix_runs(s);
    lemma_runs_cover(f);
    lemma_runs_join(f);
    lemma_run_end_grows(f);
    lemma_runs_in_range(s);
    let r = merged_runs(s);
    let o = r[k].1 as int;
    let a = st(s, o);
    assert(f[o] == (s[o].0, s[o].0));
    assert(r[k].0 == o);
    assert forall|j: int| 0 <= j < s.len() && j != o implies #[trigger] en(f, j) != a by {
        assert(s[j].0 is Some && s[j].1 is Some);
        assert(st(s, j) != a);
        if en(f, j) == a && !reversed(s[j]) {
            assert(f[j] == s[j]);
            if j > o {
                assert(st(s, o) <= st(s, j));
            }
            assert(j < o);
            assert(k > 0);
            assert(run_ok(f, r, k - 1));
            assert(run_limit(r, k - 1, f.len() as int) == o);
        }
    }
}

/// Intervals taken in a stable order of their starts are sorted by start,
/// hold the same intervals, and keep reversed starts apart.
proof fn lemma_permuted_sorted(ivs: Seq<(Option<i64>, Option<i64>)>, order: Seq<usize>)
    requires
        ivs.len() <= usize::MAX,
        numeric(ivs),
        is_stable_order(start_keys(ivs), order),
    ensures
        numeric(permuted(ivs, order)),
        sorted_by_start(permuted(ivs, order)),
        forall|x: (Option<i64>, Option<i64>)| permuted(ivs, order).contains(x) <==> #[trigger] ivs.contains(x),
        reversed_starts_apart(ivs) ==> reversed_starts_apart(permuted(ivs, order)),
{
    let s = permuted(ivs, order);
    let keys = start_keys(ivs);
    assert forall|j: int| 0 <= j < s.len() implies (#[trigger] s[j]).0 is Some && s[j].1 is Some by {
        assert(order[j] < ivs.len());
    }
    assert forall|a: int, b: int| 0 <= a <= b < s.len() implies #[trigger] st(s, a) <= #[trigger] st(s, b) by {
        if a < b {
            assert(sorts_before(keys, order[a] as int, order[b] as int));
        }
    }
    assert forall|x: (Option<i64>, Option<i64>)| s.contains(x) implies #[trigger] ivs.contains(x) by {
        let q = choose|q: int| 0 <= q < s.len() && s[q] == x;
        assert(ivs[order[q] as int] == x);
    }
    assert forall|x: (Option<i64>, Option<i64>)| ivs.contains(x) implies #[trigger] s.contains(x) by {
        let q = choose|q: int| 0 <= q < ivs.len() && ivs[q] == x;
        assert(order.contains(q as usize));
        let a = choose|a: int| 0 <= a < order.len() && order[a] == q as usize;
        assert(s[a] == x);
    }
    if reversed_starts_apart(ivs) {
        assert forall|j: int, k: int|
            #![trigger s[j], s[k]]
            0 <= j < s.len() && 0 <= k < s.len() && j != k && reversed(s[j]) implies st(s, j) != st(s, k) by {
            if j < k {
                assert(sorts_before(keys, order[j] as int, order[k] as int));
            } else {
                assert(sorts_before(keys, order[k] as int, order[j] as int));
            }
            assert(order[j] != order[k]);
            assert(s[j] == ivs[order[j] as int]);
            assert(s[k] == ivs[order[k] as int]);
        }
    }
}

proof fn lemma_gaps_in_order_coords(ivs: Seq<(Option<i64>, Option<i64>)>, order: Seq<usize>)
    requires
        is_stable_order(start_keys(ivs), order),
    ensures
        gap_coords(ivs, gaps_in_order(ivs, order)) == gap_coords(
            permuted(ivs, order),
            run_gaps_of(merged_runs(permuted(ivs, order))),
        ),
{
    let s = permuted(ivs, order);
    lemma_runs_in_range(s);
    let g = run_gaps_of(merged_runs(s));
    assert forall|k: int| 0 <= k < g.len() implies (#[trigger] g[k]).0 < s.len() && g[k].1 < s.len() by {
        assert(merged_runs(s)[k].1 < s.len());
        assert(merged_runs(s)[k + 1].0 < s.len());
    }
    assert(gap_coords(ivs, gaps_in_order(ivs, order)) =~= gap_coords(s, g));
}

/// The gaps that `interval_gaps` gives do not depend on the order in which
/// the intervals come, nor on repeats: two lists that hold the same
/// intervals, all with numeric ends and with no reversed interval sharing
/// its start with another interval, give gaps at the same coordinates.
pub proof fn law_interval_gaps_ignore_input_order(
    ivs1: Seq<(Option<i64>, Option<i64>)>,
    ivs2: Seq<(Option<i64>, Option<i64>)>,
    g1: Seq<(usize, usize)>,
    g2: Seq<(usize, usize)>,
)
    requires
        ivs1.len() <= usize::MAX,
        ivs2.len() <= usize::MAX,
        forall|x: (Option<i64>, Option<i64>)| ivs1.contains(x) <==> #[trigger] ivs2.contains(x),
        numeric(ivs1),
        numeric(ivs2),
        reversed_starts_apart(ivs1),
        reversed_starts_apart(ivs2),
        exists|order: Seq<usize>| is_stable_order(start_keys(ivs1), order) && g1 == gaps_in_order(ivs1, order),
        exists|order: Seq<usize>| is_stable_order(start_keys(ivs2), order) && g2 == gaps_in_order(ivs2, order),
    ensures
        gap_coords(ivs1, g1) == gap_coords(ivs2, g2),
{
    let o1 = choose|order: Seq<usize>| is_stable_order(start_keys(ivs1), order) && g1 == gaps_in_order(ivs1, order);
    let o2 = choose|order: Seq<usize>| is_stable_order(start_keys(ivs2), order) && g2 == gaps_in_order(ivs2, order);
    let s1 = permuted(ivs1, o1);
    let s2 = permuted(ivs2, o2);
    lemma_permuted_sorted(ivs1, o1);
    lemma_permuted_sorted(ivs2, o2);
    lemma_gaps_in_order_coords(ivs1, o1);
    lemma_gaps_in_order_coords(ivs2, o2);
    let f1 = fix_all(s1);
    let f2 = fix_all(s2);
    lemma_fix_ok(s1);
    lemma_fix_ok(s2);
    lemma_fix_runs(s1);
    lemma_fix_runs(s2);
    lemma_runs_in_range(s1);
    lemma_runs_in_range(s2);
    let r1 = merged_runs(s1);
    let r2 = merged_runs(s2);
    let h1 = run_gaps_of(r1);
    let h2 = run_gaps_of(r2);
    // with reversed intervals taken as points, the gaps agree
    lemma_sorted_gaps_exact(f1);
    lemma_sorted_gaps_exact(f2);
    assert forall|y: (Option<i64>, Option<i64>)| f1.contains(y) implies #[trigger] f2.contains(y) by {
        let q = choose|q: int| 0 <= q < f1.len() && f1[q] == y;
        assert(s1.contains(s1[q]));
        assert(ivs1.contains(s1[q]));
        assert(ivs2.contains(s1[q]));
        assert(s2.contains(s1[q]));
        let p = choose|p: int| 0 <= p < s2.len() && s2[p] == s1[q];
        assert(f2[p] == y);
    }
    assert forall|y: (Option<i64>, Option<i64>)| f2.contains(y) implies #[trigger] f1.contains(y) by {
        let q = choose|q: int| 0 <= q < f2.len() && f2[q] == y;
        assert(s2.contains(s2[q]));
        assert(ivs2.contains(s2[q]));
        assert(ivs1.contains(s2[q]));
        assert(s1.contains(s2[q]));
        let p = choose|p: int| 0 <= p < s1.len() && s1[p] == s2[q];
        assert(f1[p] == y);
    }
    lemma_gaps_exactly_transfer(f1, f2, gap_coords(f1, h1));
    law_gaps_determined(f2, gap_coords(f1, h1), gap_coords(f2, h2));
    assert(gap_coords(f1, h1) == gap_coords(f2, h2));
    // and the ends of reversed intervals come back in the same places
    assert forall|k: int| 0 <= k < h1.len() implies #[trigger] gap_coords(s1, h1)[k] == gap_coords(s2, h2)[k] by {
        assert(gap_coords(f1, h1)[k] == gap_coords(f2, h2)[k]);
        let a1 = r1[k].1 as int;
        let c1 = r1[k + 1].0 as int;
        let a2 = r2[k].1 as int;
        let c2 = r2[k + 1].0 as int;
        assert(h1[k] == (a1 as usize, c1 as usize));
        assert(h2[k] == (a2 as usize, c2 as usize));
        assert(st(f1, c1) == st(s1, c1));
        assert(st(f2, c2) == st(s2, c2));
        assert(en(f1, a1) == en(f2, a2));
        assert(s1[a1].0 is Some && s1[a1].1 is Some);
        assert(s2[a2].0 is Some && s2[a2].1 is Some);
        if reversed(s1[a1]) {
            lemma_reversed_run_end(s1, k);
            assert(s2.contains(s2[a2]));
            assert(ivs2.contains(s2[a2]));
            assert(ivs1.contains(s2[a2]));
            assert(s1.contains(s2[a2]));
            let j = choose|j: int| 0 <= j < s1.len() && s1[j] == s2[a2];
            assert(f1[j] == f2[a2]);
            assert(j == a1);
        } else if reversed(s2[a2]) {
            lemma_reversed_run_end(s2, k);
            assert(s1.contains(s1[a1]));
            assert(ivs1.contains(s1[a1]));
            assert(ivs2.contains(s1[a1]));
            assert(s2.contains(s1[a1]));
            let j = choose|j: int| 0 <= j < s2.len() && s2[j] == s1[a1];
            assert(f2[j] == f1[a1]);
            assert(j == a2);
        } else {
            assert(f1[a1] == s1[a1]);
            assert(f2[a2] == s2[a2]);
        }
    }
    assert(gap_coords(s1, h1) =~= gap_coords(s2, h2));
}

} // verus!
