//! Page skew estimation: which bands of characters are large enough to fit
//! a baseline angle to, and how many fitted bands make an estimate.
use vstd::prelude::*;

verus! {

/// Below this many characters a band's angle is not fitted.
pub const MIN_CHARS_FOR_BAND_FIT: usize = 4;

/// Below this many fitted band angles the page is taken as unskewed.
pub const MIN_BANDS_FOR_PAGE_ESTIMATE: usize = 3;

/// The band `b` (items `b.0..b.1`) holds enough characters to fit.
pub open spec fn fits(b: (usize, usize)) -> bool {
    b.0 + MIN_CHARS_FOR_BAND_FIT <= b.1
}

/// The bands, in their order, that hold at least
/// `MIN_CHARS_FOR_BAND_FIT` characters.
pub fn bands_to_fit(bands: &Vec<(usize, usize)>) -> (kept: Vec<(usize, usize)>)
    ensures
        kept@ == bands@.filter(|b: (usize, usize)| fits(b)),
{
    let mut kept: Vec<(usize, usize)> = Vec::new();
    let mut i: usize = 0;
    while i < bands.len()
        invariant
            i <= bands@.len(),
            kept@ == bands@.take(i as int).filter(|b: (usize, usize)| fits(b)),
        decreases bands@.len() - i,
    {
        let b = bands[i];
        proof {
            reveal_with_fuel(Seq::filter, 1);
            assert(bands@.take(i + 1).drop_last() =~= bands@.take(i as int));
            assert(bands@.take(i + 1).last() == b);
        }
        if b.0 <= b.1 && b.1 - b.0 >= MIN_CHARS_FOR_BAND_FIT {
            kept.push(b);
        }
        i = i + 1;
    }
    proof {
        assert(bands@.take(i as int) =~= bands@);
    }
    kept
}

/// The bands kept for fitting are exactly the bands of at least
/// `MIN_CHARS_FOR_BAND_FIT` characters: each kept band is one of the bands
/// and holds that many, and every band that holds that many is kept.
pub proof fn law_bands_to_fit_keep_large_bands(bands: Seq<(usize, usize)>, kept: Seq<(usize, usize)>)
    requires
        kept == bands.filter(|b: (usize, usize)| fits(b)),
    ensures
        forall|k: int|
            0 <= k < kept.len() ==> bands.contains(#[trigger] kept[k]) && kept[k].0 + MIN_CHARS_FOR_BAND_FIT
                <= kept[k].1,
        forall|i: int|
            0 <= i < bands.len() && (#[trigger] bands[i]).0 + MIN_CHARS_FOR_BAND_FIT <= bands[i].1
                ==> kept.contains(bands[i]),
{
    let pred = |b: (usize, usize)| fits(b);
    assert forall|k: int| 0 <= k < kept.len() implies bands.contains(#[trigger] kept[k]) && kept[k].0
        + MIN_CHARS_FOR_BAND_FIT <= kept[k].1 by {
        bands.lemma_filter_pred(pred, k);
        assert(kept.contains(kept[k]));
        bands.lemma_filter_contains_rev(pred, kept[k]);
    }
    assert forall|i: int|
        0 <= i < bands.len() && (#[trigger] bands[i]).0 + MIN_CHARS_FOR_BAND_FIT <= bands[i].1 implies kept.contains(
        bands[i],
    ) by {
        bands.lemma_filter_contains(pred, i);
    }
}

/// Whether `fitted` band angles are enough to estimate the page skew;
/// with fewer, the page is taken as unskewed.
pub fn skew_estimable(fitted: usize) -> (r: bool)
    ensures
        r == (fitted >= MIN_BANDS_FOR_PAGE_ESTIMATE),
{
    fitted >= MIN_BANDS_FOR_PAGE_ESTIMATE
}

} // verus!
