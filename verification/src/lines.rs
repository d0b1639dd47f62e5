//! Character-to-line grouping: which consecutive characters form a line,
//! and in which direction the line runs.
use vstd::prelude::*;

verus! {

/// A line as a run of consecutive characters `start..end`, upright
/// (horizontal) or not (vertical).
pub struct LineSpan {
    pub start: usize,
    pub end: usize,
    pub upright: bool,
}

/// Whether the pair `pair` (horizontally aligned, vertically aligned)
/// continues a line of the given direction.
pub open spec fn continues(pair: (bool, bool), upright: bool) -> bool {
    if upright {
        pair.0
    } else {
        pair.1
    }
}

/// `span` is the line that starts at its `start`, for `n` characters whose
/// consecutive pairs are `align` (`align[k]` relates characters `k` and
/// `k + 1`):
/// - a line of one character is upright, and ends there because it is the
///   last character or its pair with the next one is aligned both ways or
///   neither way;
/// - a longer line opens on a pair aligned one way only, runs in that
///   direction, every later pair inside it continues that direction, and the
///   pair after it (if any) does not.
pub open spec fn span_ok(align: Seq<(bool, bool)>, n: int, span: LineSpan) -> bool {
    let a = span.start as int;
    let e = span.end as int;
    &&& 0 <= a < e <= n
    &&& e - a == 1 ==> span.upright && (e == n || align[a].0 == align[a].1)
    &&& e - a >= 2 ==> {
        &&& align[a].0 != align[a].1
        &&& span.upright == align[a].0
        &&& forall|j: int| a < j < e - 1 ==> continues(#[trigger] align[j], span.upright)
        &&& (e == n || !continues(align[e - 1], span.upright))
    }
}

/// `spans` cut `0..n` into consecutive lines, each as `span_ok` says.
pub open spec fn spans_ok(align: Seq<(bool, bool)>, n: int, spans: Seq<LineSpan>) -> bool {
    &&& (spans.len() == 0 <==> n == 0)
    &&& spans.len() > 0 ==> spans[0].start == 0 && spans.last().end == n
    &&& forall|k: int|
        0 <= k < spans.len() - 1 ==> (#[trigger] spans[k]).end == spans[k + 1].start
    &&& forall|k: int| 0 <= k < spans.len() ==> span_ok(align, n, #[trigger] spans[k])
}

/// Cuts `n` characters, given in reading order, into lines. `align[k]`
/// tells whether characters `k` and `k + 1` are aligned horizontally (same
/// row, close enough) and vertically (same column, close enough). A line
/// opens on a pair aligned one way only and grows while each next pair is
/// aligned its way; a character that opens no line stands alone as an
/// upright line.
pub fn line_spans(n: usize, align: &Vec<(bool, bool)>) -> (spans: Vec<LineSpan>)
    requires
        n == 0 ==> align@.len() == 0,
        n > 0 ==> align@.len() == n - 1,
    ensures
        spans_ok(align@, n as int, spans@),
{
    let mut spans: Vec<LineSpan> = Vec::new();
    // The open line: its first character and its direction.
    let mut open: Option<(usize, bool)> = None;
    // The last character seen, while no line holds it.
    let mut pending: Option<usize> = None;
    let mut k: usize = 0;
    while k < n
        invariant
            k <= n,
            n == 0 ==> align@.len() == 0,
            n > 0 ==> align@.len() == n - 1,
            k == 0 ==> spans@.len() == 0 && open is None && pending is None,
            k > 0 ==> (open is None <==> pending is Some),
            pending is Some ==> pending->0 == k - 1,
            open is Some ==> {
                let (st, up) = open->0;
                &&& st + 2 <= k
                &&& align@[st as int].0 != align@[st as int].1
                &&& up == align@[st as int].0
                &&& forall|j: int| st < j < k - 1 ==> continues(#[trigger] align@[j], up)
            },
            spans@.len() > 0 ==> spans@[0].start == 0,
            spans@.len() == 0 && k > 0 ==> (open is Some ==> (open->0).0 == 0) && (pending is Some
                ==> pending->0 == 0),
            spans@.len() > 0 ==> (open is Some ==> spans@.last().end == (open->0).0) && (
            pending is Some ==> spans@.last().end == pending->0),
            forall|q: int|
                0 <= q < spans@.len() - 1 ==> (#[trigger] spans@[q]).end == spans@[q + 1].start,
            forall|q: int| 0 <= q < spans@.len() ==> span_ok(align@, n as int, #[trigger] spans@[q]),
        decreases n - k,
    {
        if k > 0 {
            let (ha, va) = align[k - 1];
            let extends = match open {
                Some((_, up)) => {
                    if up {
                        ha
                    } else {
                        va
                    }
                },
                None => false,
            };
            if extends {
                pending = None;
            } else if let Some((st, up)) = open {
                let span = LineSpan { start: st, end: k, upright: up };
                proof {
                    assert(span_ok(align@, n as int, span));
                }
                spans.push(span);
                open = None;
                pending = Some(k);
            } else if va && !ha {
                let p = pending.unwrap();
                open = Some((p, false));
                pending = None;
            } else if ha && !va {
                let p = pending.unwrap();
                open = Some((p, true));
                pending = None;
            } else {
                let p = pending.unwrap();
                let span = LineSpan { start: p, end: k, upright: true };
                proof {
                    assert(span_ok(align@, n as int, span));
                }
                spans.push(span);
                pending = Some(k);
            }
        } else {
            pending = Some(k);
        }
        k = k + 1;
    }
    match open {
        Some((st, up)) => {
            let span = LineSpan { start: st, end: n, upright: up };
            proof {
                assert(span_ok(align@, n as int, span));
            }
            spans.push(span);
        },
        None => {
            if let Some(p) = pending {
                let span = LineSpan { start: p, end: p + 1, upright: true };
                proof {
                    assert(span_ok(align@, n as int, span));
                }
                spans.push(span);
            }
        },
    }
    spans
}

proof fn lemma_span_determined(align: Seq<(bool, bool)>, n: int, x: LineSpan, y: LineSpan)
    requires
        span_ok(align, n, x),
        span_ok(align, n, y),
        x.start == y.start,
    ensures
        x == y,
{
    let a = x.start as int;
    if x.end - a >= 2 && y.end - a >= 2 {
        if x.end < y.end {
            assert(continues(align[x.end - 1], y.upright));
        } else if y.end < x.end {
            assert(continues(align[y.end - 1], x.upright));
        }
    }
}

/// The cut of characters into lines is determined by the alignment of
/// consecutive pairs: two cuts that both meet `spans_ok` are the same.
pub proof fn law_spans_unique(align: Seq<(bool, bool)>, n: int, s1: Seq<LineSpan>, s2: Seq<LineSpan>)
    requires
        spans_ok(align, n, s1),
        spans_ok(align, n, s2),
    ensures
        s1 == s2,
{
    let m: int = if s1.len() < s2.len() {
        s1.len() as int
    } else {
        s2.len() as int
    };
    assert forall|k: int| 0 <= k < m implies s1[k] == s2[k] by {
        lemma_prefix_agrees(align, n, s1, s2, k);
    }
    if s1.len() < s2.len() {
        assert(s1[m - 1] == s2[m - 1]);
        assert(span_ok(align, n, s2[m]));
        assert(s2[m - 1].end == s2[m].start);
    } else if s2.len() < s1.len() {
        assert(s1[m - 1] == s2[m - 1]);
        assert(span_ok(align, n, s1[m]));
        assert(s1[m - 1].end == s1[m].start);
    }
    assert(s1 =~= s2);
}

proof fn lemma_prefix_agrees(
    align: Seq<(bool, bool)>,
    n: int,
    s1: Seq<LineSpan>,
    s2: Seq<LineSpan>,
    k: int,
)
    requires
        spans_ok(align, n, s1),
        spans_ok(align, n, s2),
        0 <= k < s1.len(),
        k < s2.len(),
    ensures
        s1[k] == s2[k],
    decreases k,
{
    if k > 0 {
        lemma_prefix_agrees(align, n, s1, s2, k - 1);
        assert(s1[k - 1].end == s1[k].start);
        assert(s2[k - 1].end == s2[k].start);
    }
    assert(span_ok(align, n, s1[k]));
    assert(span_ok(align, n, s2[k]));
    lemma_span_determined(align, n, s1[k], s2[k]);
}

} // verus!
