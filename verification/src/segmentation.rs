//! Region segmentation: the decisions of the recursive X-Y cut.
use vstd::prelude::*;
use crate::ordering::{
    count_false, count_set, count_true, lemma_count_true_bound, lemma_count_true_constant, runs, runs_ok,
};

verus! {

/// Direction of a region split: `Vertical` cuts side by side columns,
/// `Horizontal` cuts stacked bands.
#[derive(PartialEq, Eq, Structural, Clone, Copy, Debug)]
pub enum Orientation {
    Vertical,
    Horizontal,
}

/// Above this many bands, a full-width banding no longer looks like a
/// title, a body and a footer but like repeating in-flow structure.
pub const MAX_FORCED_BANDS: usize = 3;

/// `joins[j]` holds when lines `j` and `j + 1` have the same full-width
/// status.
pub open spec fn same_status(full: Seq<bool>) -> Seq<bool> {
    Seq::new((full.len() - 1) as nat, |j: int| full[j] == full[j + 1])
}

/// Whether the full-width split declines: no full-width line, no narrow
/// line, full-width lines in the majority, more than `MAX_FORCED_BANDS`
/// bands, or nothing but one-line bands (for `n` lines with
/// `changes` status changes between neighbours, there are `changes + 1`
/// bands).
pub open spec fn full_width_declines(full: Seq<bool>) -> bool {
    let n = full.len();
    let f = count_true(full);
    let changes = count_false(same_status(full));
    ||| f == 0
    ||| n - f == 0
    ||| f > n - f
    ||| changes + 1 > MAX_FORCED_BANDS
    ||| changes + 1 == n
}

/// Splits lines, listed top to bottom with their full-width status, into
/// bands of consecutive lines of one status. Declines (`None`) when every
/// line has the same status, when full-width lines are not a minority, when
/// there would be more than `MAX_FORCED_BANDS` bands, or when every band
/// would hold a single line.
pub fn full_width_bands(full: &Vec<bool>) -> (bands: Option<Vec<(usize, usize)>>)
    ensures
        bands is None <==> full_width_declines(full@),
        bands matches Some(b) ==> runs_ok(full@.len() as int, same_status(full@), b@),
        bands matches Some(b) ==> b@.len() == count_false(same_status(full@)) + 1,
{
    let n = full.len();
    let full_count = count_set(full);
    let narrow_count = n - full_count;
    if full_count == 0 || narrow_count == 0 || full_count > narrow_count {
        return None;
    }
    let mut joins: Vec<bool> = Vec::new();
    let mut j: usize = 0;
    while j + 1 < n
        invariant
            n == full@.len(),
            n >= 2,
            j + 1 <= n,
            joins@ == same_status(full@).take(j as int),
        decreases n - j,
    {
        joins.push(full[j] == full[j + 1]);
        j = j + 1;
        proof {
            assert(joins@ =~= same_status(full@).take(j as int));
        }
    }
    proof {
        assert(joins@ =~= same_status(full@));
    }
    let bands = runs(n, &joins);
    if bands.len() > MAX_FORCED_BANDS || bands.len() == n {
        return None;
    }
    Some(bands)
}

/// The forced full-width split declines exactly when no line is
/// full-width, every line is, full-width lines are the majority, the lines
/// fall into more than `MAX_FORCED_BANDS` runs of one full-width status, or
/// every run is a single line; so it never makes more than
/// `MAX_FORCED_BANDS` bands, nor a band for every line.
pub proof fn law_full_width_bands_bounded(full: Seq<bool>, bands: Option<Vec<(usize, usize)>>)
    requires
        bands is None <==> full_width_declines(full),
        bands matches Some(b) ==> runs_ok(full.len() as int, same_status(full), b@),
        bands matches Some(b) ==> b@.len() == count_false(same_status(full)) + 1,
    ensures
        bands is None <==> (count_true(full) == 0 || count_true(full) == full.len() || 2 * count_true(
            full,
        ) > full.len() || count_false(same_status(full)) + 1 > MAX_FORCED_BANDS || count_false(
            same_status(full),
        ) + 1 == full.len()),
        count_false(same_status(full)) + 1 > MAX_FORCED_BANDS ==> bands is None,
        bands matches Some(b) ==> b@.len() <= MAX_FORCED_BANDS && b@.len() < full.len(),
        (forall|i: int| 0 <= i < full.len() ==> #[trigger] full[i]) ==> bands is None,
        (forall|i: int| 0 <= i < full.len() ==> !#[trigger] full[i]) ==> bands is None,
{
    lemma_count_true_bound(same_status(full));
    if forall|i: int| 0 <= i < full.len() ==> #[trigger] full[i] {
        lemma_count_true_constant(full, true);
    }
    if forall|i: int| 0 <= i < full.len() ==> !#[trigger] full[i] {
        lemma_count_true_constant(full, false);
    }
}

/// What segmenting a region does first.
pub enum FirstCut {
    /// The region has at most one line: it stays a leaf.
    Leaf,
    /// The forced full-width split, into these bands of lines (positions in
    /// top-to-bottom order).
    Bands(Vec<(usize, usize)>),
    /// No full-width split: look for a whitespace cut.
    WhitespaceCut,
}

/// The first step of segmenting a region whose lines, top to bottom, have
/// the full-width status `full`: a region of at most one line is a leaf; the
/// forced full-width split comes before any whitespace cut, and a
/// whitespace cut is looked for only when the full-width split declines.
pub fn first_cut(full: &Vec<bool>) -> (c: FirstCut)
    ensures
        full@.len() <= 1 ==> c is Leaf,
        full@.len() > 1 && !full_width_declines(full@) ==> (c matches FirstCut::Bands(b) && runs_ok(
            full@.len() as int,
            same_status(full@),
            b@,
        )),
        full@.len() > 1 && full_width_declines(full@) ==> c is WhitespaceCut,
{
    if full.len() <= 1 {
        return FirstCut::Leaf;
    }
    match full_width_bands(full) {
        Some(bands) => FirstCut::Bands(bands),
        None => FirstCut::WhitespaceCut,
    }
}

/// The axis of a whitespace cut, given whether a column cut and a row cut
/// were found and whether the column gap is at least as wide as the row
/// gap: the wider gap wins, a tie goes to the columns, and with no cut the
/// region stays a leaf (`None`).
pub fn cut_orientation(has_column_cut: bool, has_row_cut: bool, column_not_narrower: bool) -> (o:
    Option<Orientation>)
    ensures
        o == (if has_column_cut && has_row_cut {
            Some(
                if column_not_narrower {
                    Orientation::Vertical
                } else {
                    Orientation::Horizontal
                },
            )
        } else if has_column_cut {
            Some(Orientation::Vertical)
        } else if has_row_cut {
            Some(Orientation::Horizontal)
        } else {
            None
        }),
{
    match (has_column_cut, has_row_cut) {
        (true, true) => {
            if column_not_narrower {
                Some(Orientation::Vertical)
            } else {
                Some(Orientation::Horizontal)
            }
        },
        (true, false) => Some(Orientation::Vertical),
        (false, true) => Some(Orientation::Horizontal),
        (false, false) => None,
    }
}

/// A node of the region tree: a leaf holds the lines of one region, a
/// split holds sub-regions in reading order (left to right for a vertical
/// split, top to bottom for a horizontal one). `B` is the box type, `L`
/// the line type.
#[derive(Debug, PartialEq)]
pub enum Region<B, L> {
    Leaf { bbox: B, lines: Vec<L> },
    Split { bbox: B, orientation: Orientation, children: Vec<Region<B, L>> },
}

/// The line lists of the leaves of `region`, in reading order: a split's
/// children one after the other.
pub open spec fn leaves<B, L>(region: Region<B, L>) -> Seq<Seq<L>>
    decreases region, 0nat,
{
    match region {
        Region::Leaf { lines, .. } => seq![lines@],
        Region::Split { children, .. } => {
            proof {
                assert(decreases_to!(region => children));
            }
            leaves_of(children@, children@.len())
        },
    }
}

/// The leaves of the first `k` of `children`, in order.
pub open spec fn leaves_of<B, L>(children: Seq<Region<B, L>>, k: nat) -> Seq<Seq<L>>
    decreases children, k,
{
    if k == 0 || k > children.len() {
        Seq::empty()
    } else {
        leaves_of(children, (k - 1) as nat) + leaves(children[k - 1])
    }
}

/// The line lists of a list of line lists.
pub open spec fn line_lists<L>(lists: Seq<Vec<L>>) -> Seq<Seq<L>> {
    lists.map_values(|v: Vec<L>| v@)
}

/// Takes the region tree apart into the line lists of its leaves, in
/// reading order: each leaf is one region whose lines merge into blocks
/// among themselves only.
pub fn leaf_lines<B, L>(region: Region<B, L>) -> (out: Vec<Vec<L>>)
    ensures
        line_lists(out@) == leaves(region),
    decreases region,
{
    let ghost whole = region;
    match region {
        Region::Leaf { lines, .. } => {
            let mut out: Vec<Vec<L>> = Vec::new();
            out.push(lines);
            proof {
                assert(line_lists(out@) =~= seq![out@[0]@]);
            }
            out
        },
        Region::Split { children, .. } => {
            let ghost all = children@;
            proof {
                assert(decreases_to!(whole => children));
            }
            let mut rest = children;
            let total = rest.len();
            let mut out: Vec<Vec<L>> = Vec::new();
            let mut k: usize = 0;
            while rest.len() > 0
                invariant
                    k <= all.len(),
                    all.len() == total,
                    whole == region,
                    rest@ == all.skip(k as int),
                    line_lists(out@) == leaves_of(all, k as nat),
                    whole matches Region::Split { children, .. } && children@ == all,
                decreases rest@.len(),
            {
                let child = rest.remove(0);
                proof {
                    assert(child == all[k as int]);
                    let cs = whole->children;
                    assert(decreases_to!(whole => cs));
                    assert(decreases_to!(cs => cs@));
                    assert(decreases_to!(cs@ => cs@[k as int]));
                    assert(decreases_to!(whole => child));
                }
                let mut sub = leaf_lines(child);
                let ghost before = out@;
                out.append(&mut sub);
                proof {
                    assert(line_lists(out@) =~= line_lists(before) + leaves(all[k as int]));
                    assert(rest@ =~= all.skip(k + 1));
                }
                k = k + 1;
            }
            proof {
                assert(all.skip(k as int).len() == 0);
            }
            out
        },
    }
}

/// The leaf line lists of each of `children`, in order.
pub open spec fn child_leaves<B, L>(children: Seq<Region<B, L>>) -> Seq<Seq<Seq<L>>> {
    Seq::new(children.len(), |i: int| leaves(children[i]))
}

proof fn lemma_leaves_of_flatten<B, L>(children: Seq<Region<B, L>>, k: nat)
    requires
        k <= children.len(),
    ensures
        leaves_of(children, k) == child_leaves(children.take(k as int)).flatten(),
    decreases k,
{
    if k > 0 {
        lemma_leaves_of_flatten(children, (k - 1) as nat);
        let front = child_leaves(children.take(k - 1));
        assert(child_leaves(children.take(k as int)) =~= front.push(leaves(children[k - 1])));
        front.lemma_flatten_push(leaves(children[k - 1]));
    } else {
        assert(child_leaves(children.take(0)) =~= Seq::empty());
    }
}

/// The leaves of a split are the leaves of its children concatenated in the
/// children's order, whatever the split's orientation and however many
/// children it has; a leaf is its own only leaf.
pub proof fn law_leaves_concatenate_children<B, L>(region: Region<B, L>)
    ensures
        match region {
            Region::Leaf { lines, .. } => leaves(region) == seq![lines@],
            Region::Split { children, .. } => leaves(region) == child_leaves(children@).flatten(),
        },
{
    match region {
        Region::Leaf { .. } => {},
        Region::Split { children, .. } => {
            lemma_leaves_of_flatten(children@, children@.len());
            assert(children@.take(children@.len() as int) =~= children@);
        },
    }
}

} // verus!
