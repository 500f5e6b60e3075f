//! How the bins of a spectrum are grouped into bands.
//!
//! A band boundary enters here as a whole number, its threshold: the first
//! bin that does not lie below the boundary. The bands lie side by side.
//! Band `k` starts where the band before it ended, the first one at bin 0,
//! and ends just before its threshold, so every bin below the end of the
//! last band lies in exactly one band. A threshold that lies before the
//! start of its band leaves the band empty; one that lies beyond the bins
//! ends the band with the last bin.

use vstd::prelude::*;

verus! {

/// One band: the bins `start..end`, `end` not included.
#[derive(Debug, Clone, Copy, PartialEq, Eq, Structural)]
pub struct Band {
    pub start: usize,
    pub end: usize,
}

impl Band {
    /// The number of bins in the band; none where the band ends before it
    /// starts.
    pub open spec fn width(self) -> int {
        if self.end >= self.start {
            self.end - self.start
        } else {
            0
        }
    }

    /// The number of bins in the band.
    pub fn bins(&self) -> (n: usize)
        ensures
            n == self.width(),
    {
        if self.end >= self.start {
            self.end - self.start
        } else {
            0
        }
    }
}

/// The end of band `k` over the bins `0..n_bins`: its threshold, but not
/// before the end of the band below it and not beyond the bins.
pub open spec fn closing(thresholds: Seq<usize>, n_bins: int, k: int) -> int
    recommends
        k < thresholds.len(),
    decreases k + 1,
{
    if k < 0 {
        0
    } else {
        let below = closing(thresholds, n_bins, k - 1);
        if thresholds[k] <= below {
            below
        } else if thresholds[k] >= n_bins {
            n_bins
        } else {
            thresholds[k] as int
        }
    }
}

/// The first bin of band `k`: bin 0 for the first band, otherwise the bin
/// at which the band below it ended.
pub open spec fn opening(thresholds: Seq<usize>, n_bins: int, k: int) -> int
    recommends
        k <= thresholds.len(),
{
    closing(thresholds, n_bins, k - 1)
}

/// Each threshold lies above the one before it.
pub open spec fn strictly_increasing(thresholds: Seq<usize>) -> bool {
    forall|j: int, k: int| 0 <= j < k < thresholds.len() ==> thresholds[j] < thresholds[k]
}

/// No threshold lies below the one before it.
pub open spec fn rising(thresholds: Seq<usize>) -> bool {
    forall|j: int, k: int| 0 <= j <= k < thresholds.len() ==> thresholds[j] <= thresholds[k]
}

/// `bands` is the grouping of the bins `0..n_bins` under `thresholds`: one
/// band per threshold, lowest first, each from its first bin up to its end.
pub open spec fn is_layout(bands: Seq<Band>, thresholds: Seq<usize>, n_bins: int) -> bool {
    &&& bands.len() == thresholds.len()
    &&& forall|k: int|
        0 <= k < bands.len() ==> (#[trigger] bands[k]).start == opening(thresholds, n_bins, k)
            && bands[k].end == closing(thresholds, n_bins, k)
}

/// The ends of the bands never fall with the band index, and none lies
/// beyond the bins.
pub proof fn lemma_closing_rises(thresholds: Seq<usize>, n_bins: int, j: int, k: int)
    requires
        0 <= n_bins,
        j <= k < thresholds.len(),
    ensures
        0 <= closing(thresholds, n_bins, j) <= closing(thresholds, n_bins, k) <= n_bins,
    decreases k - j,
{
    lemma_closing_within(thresholds, n_bins, j);
    lemma_closing_within(thresholds, n_bins, k);
    if j < k {
        lemma_closing_rises(thresholds, n_bins, j, k - 1);
    }
}

proof fn lemma_closing_within(thresholds: Seq<usize>, n_bins: int, k: int)
    requires
        0 <= n_bins,
        k < thresholds.len(),
    ensures
        0 <= closing(thresholds, n_bins, k) <= n_bins,
    decreases k + 1,
{
    if k >= 0 {
        lemma_closing_within(thresholds, n_bins, k - 1);
    }
}

/// Where no threshold lies below the one before it, every band ends at its
/// own threshold, or with the last bin if the threshold lies beyond the
/// bins: band `k` holds the bins from threshold `k - 1` up to threshold `k`.
pub proof fn lemma_rising_thresholds_close_bands(thresholds: Seq<usize>, n_bins: int, k: int)
    requires
        rising(thresholds),
        0 <= n_bins,
        0 <= k < thresholds.len(),
    ensures
        closing(thresholds, n_bins, k) == (if thresholds[k] >= n_bins {
            n_bins
        } else {
            thresholds[k] as int
        }),
    decreases k,
{
    if k > 0 {
        lemma_rising_thresholds_close_bands(thresholds, n_bins, k - 1);
    } else {
        assert(closing(thresholds, n_bins, -1) == 0);
    }
}

/// Where each threshold lies above the one before it, the first above bin 0
/// and the last within the bins, no band is empty.
pub proof fn lemma_increasing_thresholds_fill_bands(thresholds: Seq<usize>, n_bins: int, k: int)
    requires
        strictly_increasing(thresholds),
        0 <= k < thresholds.len(),
        0 < thresholds[0],
        thresholds.last() <= n_bins,
    ensures
        opening(thresholds, n_bins, k) < closing(thresholds, n_bins, k),
        closing(thresholds, n_bins, k) == thresholds[k],
{
    assert(rising(thresholds));
    lemma_rising_thresholds_close_bands(thresholds, n_bins, k);
    if k > 0 {
        lemma_rising_thresholds_close_bands(thresholds, n_bins, k - 1);
    } else {
        assert(closing(thresholds, n_bins, -1) == 0);
    }
}

/// Every bin below the end of the last band lies in one band.
pub proof fn lemma_every_bin_has_a_band(thresholds: Seq<usize>, n_bins: int, upto: int, bin: int)
    requires
        0 <= n_bins,
        0 <= upto < thresholds.len(),
        0 <= bin < closing(thresholds, n_bins, upto),
    ensures
        exists|k: int|
            0 <= k <= upto && opening(thresholds, n_bins, k) <= bin < #[trigger] closing(
                thresholds,
                n_bins,
                k,
            ),
    decreases upto,
{
    if bin >= opening(thresholds, n_bins, upto) {
        assert(opening(thresholds, n_bins, upto) <= bin < closing(thresholds, n_bins, upto));
    } else {
        lemma_every_bin_has_a_band(thresholds, n_bins, upto - 1, bin);
    }
}

/// No bin lies in two bands.
pub proof fn lemma_bands_do_not_overlap(thresholds: Seq<usize>, n_bins: int, j: int, k: int, bin: int)
    requires
        0 <= n_bins,
        0 <= j < thresholds.len(),
        0 <= k < thresholds.len(),
        opening(thresholds, n_bins, j) <= bin < closing(thresholds, n_bins, j),
        opening(thresholds, n_bins, k) <= bin < closing(thresholds, n_bins, k),
    ensures
        j == k,
{
    if j < k {
        lemma_closing_rises(thresholds, n_bins, j, k - 1);
    }
    if k < j {
        lemma_closing_rises(thresholds, n_bins, k, j - 1);
    }
}

/// Tells whether each threshold lies above the one before it.
pub fn is_strictly_increasing(thresholds: &[usize]) -> (b: bool)
    ensures
        b == strictly_increasing(thresholds@),
{
    let n: usize = thresholds.len();
    let mut k: usize = 1;
    while k < n
        invariant
            n == thresholds@.len(),
            1 <= k,
            forall|a: int, b: int| 0 <= a < b < k && b < n ==> thresholds@[a] < thresholds@[b],
        decreases n - k,
    {
        if thresholds[k - 1] >= thresholds[k] {
            return false;
        }
        assert forall|a: int, b: int| 0 <= a < b < k + 1 && b < n implies thresholds@[a]
            < thresholds@[b] by {
            if b == k && a < k - 1 {
                assert(thresholds@[a] < thresholds@[k - 1]);
            }
        }
        k = k + 1;
    }
    true
}

/// Groups the bins `0..n_bins` into bands, one per threshold, lowest first.
///
/// Band `k` runs from the end of band `k - 1`, or from bin 0, up to its
/// threshold. The bands lie side by side in ascending order and leave out no
/// bin below the end of the last one.
pub fn band_layout(thresholds: &[usize], n_bins: usize) -> (bands: Vec<Band>)
    ensures
        is_layout(bands@, thresholds@, n_bins as int),
        bands@.len() == thresholds@.len(),
        forall|k: int|
            0 <= k < bands@.len() ==> (#[trigger] bands@[k]).start <= bands@[k].end && bands@[k].end
                <= n_bins,
        bands@.len() > 0 ==> bands@[0].start == 0,
        forall|k: int| 0 < k < bands@.len() ==> (#[trigger] bands@[k]).start == bands@[k - 1].end,
        forall|j: int, k: int|
            0 <= j < k < bands@.len() ==> (#[trigger] bands@[j]).end <= (#[trigger] bands@[k]).start,
{
    let n: usize = thresholds.len();
    let mut bands: Vec<Band> = Vec::new();
    let mut start: usize = 0;
    let mut k: usize = 0;
    while k < n
        invariant
            n == thresholds@.len(),
            k <= n,
            bands@.len() == k,
            start == opening(thresholds@, n_bins as int, k as int),
            start <= n_bins,
            forall|i: int|
                0 <= i < k ==> (#[trigger] bands@[i]).start == opening(thresholds@, n_bins as int, i)
                    && bands@[i].end == closing(thresholds@, n_bins as int, i),
        decreases n - k,
    {
        let threshold: usize = thresholds[k];
        let close: usize = if threshold <= start {
            start
        } else if threshold >= n_bins {
            n_bins
        } else {
            threshold
        };
        bands.push(Band { start, end: close });
        start = close;
        k = k + 1;
    }
    proof {
        lemma_layout_is_ordered(bands@, thresholds@, n_bins as int);
    }
    bands
}

/// The bands of a layout lie side by side in ascending order within the
/// bins: the first starts at bin 0 and each of the others where the band
/// below it ended.
pub proof fn lemma_layout_is_ordered(bands: Seq<Band>, thresholds: Seq<usize>, n_bins: int)
    requires
        0 <= n_bins,
        is_layout(bands, thresholds, n_bins),
    ensures
        forall|k: int|
            0 <= k < bands.len() ==> (#[trigger] bands[k]).start <= bands[k].end && bands[k].end
                <= n_bins,
        bands.len() > 0 ==> bands[0].start == 0,
        forall|k: int| 0 < k < bands.len() ==> (#[trigger] bands[k]).start == bands[k - 1].end,
        forall|j: int, k: int|
            0 <= j < k < bands.len() ==> (#[trigger] bands[j]).end <= (#[trigger] bands[k]).start,
{
    assert forall|k: int| 0 <= k < bands.len() implies (#[trigger] bands[k]).start <= bands[k].end
        && bands[k].end <= n_bins by {
        lemma_closing_rises(thresholds, n_bins, k - 1, k);
    }
    assert forall|j: int, k: int| 0 <= j < k < bands.len() implies (#[trigger] bands[j]).end <= (
    #[trigger] bands[k]).start by {
        lemma_closing_rises(thresholds, n_bins, j, k - 1);
    }
}

} // verus!
