//! The analyser: it owns the rolling window, takes in the chunks that the
//! tap gives out, and decides everything about a spectrum that can be
//! decided in whole numbers: whether the window can be analysed at all, by
//! which range its samples are to be normalised, and which bins make up
//! which band. The transform and the arithmetic on magnitudes are the
//! caller's.

use crate::bands::{
    band_layout, is_layout, lemma_increasing_thresholds_fill_bands,
    lemma_rising_thresholds_close_bands, Band,
};
use crate::boundaries::{
    band_thresholds, lemma_threshold_lies_within, threshold, thresholds, DISTINCT_BANDS,
    HIGHEST_BOUNDARY,
};
use crate::error::MusicAnalizerError;
use crate::window::{is_highest, is_lowest, slid, RollingWindow};
use std::collections::VecDeque;
use vstd::prelude::*;

verus! {

/// Number of samples the analyser's window holds; also the length of the
/// transform that is run over it.
pub const FFT_BUFFER_SIZE: usize = 65536;

/// Number of bins at the low end of the spectrum that are grouped into bands.
pub const SPECTRUM_BINS: usize = 24000;

/// What an analysis is to do with the window: normalise every sample by
/// `max - min`, transform, take the mean of the magnitudes of each band over
/// its bins, and scale the bands against `max`.
pub struct FrequencyPlan {
    pub min: i16,
    pub max: i16,
    pub n_bins: usize,
    pub bands: Vec<Band>,
}

/// All samples are the same: silence, or any other constant signal.
pub open spec fn constant(samples: Seq<i16>) -> bool {
    forall|i: int, j: int|
        0 <= i < samples.len() && 0 <= j < samples.len() ==> samples[i] == samples[j]
}

/// Why a window cannot be analysed, if it cannot: it holds no sample, or its
/// samples span no range.
pub open spec fn refusal(samples: Seq<i16>) -> Option<MusicAnalizerError> {
    if samples.len() == 0 {
        Some(MusicAnalizerError::EmptyBufferError)
    } else if constant(samples) {
        Some(MusicAnalizerError::MaxMinZeroError)
    } else {
        None
    }
}

/// The number of bins that are grouped for a window of `len` samples: the
/// first `SPECTRUM_BINS`, or all there are if the window is shorter.
pub open spec fn scanned_bins(len: nat) -> nat {
    if len < SPECTRUM_BINS {
        len
    } else {
        SPECTRUM_BINS as nat
    }
}

/// A window of nothing but silence is refused for its range, however long it
/// is.
pub proof fn lemma_silence_is_refused(samples: Seq<i16>)
    requires
        samples.len() > 0,
        forall|i: int| 0 <= i < samples.len() ==> samples[i] == 0,
    ensures
        refusal(samples) == Some(MusicAnalizerError::MaxMinZeroError),
{
}

/// A window that is not refused has a lowest sample strictly below its
/// highest.
pub proof fn lemma_range_is_open(samples: Seq<i16>, lowest: i16, highest: i16)
    requires
        is_lowest(samples, lowest),
        is_highest(samples, highest),
    ensures
        lowest <= highest,
        lowest == highest <==> constant(samples),
{
    let at_low = choose|i: int| 0 <= i < samples.len() && samples[i] == lowest;
    let at_high = choose|i: int| 0 <= i < samples.len() && samples[i] == highest;
    assert(samples[at_low] <= samples[at_high]);
    if constant(samples) {
        assert(samples[at_low] == samples[at_high]);
    }
}

/// The state of the analysis side: the rolling window of the latest samples.
pub struct MusicAnalizer {
    points_buffer: RollingWindow,
}

impl View for MusicAnalizer {
    type V = Seq<i16>;

    /// The samples in the window, oldest first.
    closed spec fn view(&self) -> Seq<i16> {
        self.points_buffer@
    }
}

impl MusicAnalizer {
    /// The window is exactly as long as it was made.
    pub closed spec fn wf(&self) -> bool {
        self.points_buffer.wf()
    }

    /// The length the window was made with.
    pub closed spec fn spec_capacity(&self) -> nat {
        self.points_buffer.spec_capacity()
    }

    /// An analyser whose window holds `FFT_BUFFER_SIZE` samples of silence.
    pub fn new() -> (analizer: MusicAnalizer)
        ensures
            analizer.wf(),
            analizer.spec_capacity() == FFT_BUFFER_SIZE,
            analizer@ == Seq::new(FFT_BUFFER_SIZE as nat, |i: int| 0i16),
    {
        MusicAnalizer { points_buffer: RollingWindow::new(FFT_BUFFER_SIZE) }
    }

    /// An analyser whose window holds `capacity` samples of silence.
    pub fn with_capacity(capacity: usize) -> (analizer: MusicAnalizer)
        ensures
            analizer.wf(),
            analizer.spec_capacity() == capacity,
            analizer@ == Seq::new(capacity as nat, |i: int| 0i16),
    {
        MusicAnalizer { points_buffer: RollingWindow::new(capacity) }
    }

    /// Takes in one chunk from the tap: the window slides forward by the
    /// length of the chunk and stays as long as it was.
    pub fn push_chunk(&mut self, chunk: &[i16])
        requires
            old(self).wf(),
        ensures
            final(self).wf(),
            final(self).spec_capacity() == old(self).spec_capacity(),
            final(self)@.len() == old(self).spec_capacity(),
            final(self)@ == slid(old(self)@, chunk@),
    {
        self.points_buffer.push_chunk(chunk);
    }

    /// A copy of the window as it stands, oldest sample first.
    pub fn get_fft_buffer(&self) -> (copy: VecDeque<i16>)
        ensures
            copy@ == self@,
    {
        self.points_buffer.snapshot()
    }

    /// Plans the analysis of the window into `n_freq` bands.
    ///
    /// An empty window is refused with `EmptyBufferError`, a window whose
    /// samples are all the same with `MaxMinZeroError`. Any other window
    /// gets a plan: its lowest and highest sample, the number of bins that
    /// are scanned, and exactly `n_freq` bands over those bins, in ascending
    /// order and side by side, each ending at the threshold of its boundary.
    /// A window shorter than the last boundary cuts the bands off where it
    /// ends. Over a window that is not, none of up to 128 bands is empty.
    /// Either the whole plan is returned or none of it.
    pub fn get_frequencies(&self, n_freq: usize) -> (planned: Result<
        FrequencyPlan,
        MusicAnalizerError,
    >)
        ensures
            self@.len() == 0 ==> planned == Err::<FrequencyPlan, MusicAnalizerError>(
                MusicAnalizerError::EmptyBufferError,
            ),
            self@.len() > 0 && (forall|i: int| 0 <= i < self@.len() ==> self@[i] == 0) ==> planned
                == Err::<FrequencyPlan, MusicAnalizerError>(MusicAnalizerError::MaxMinZeroError),
            match planned {
                Err(e) => refusal(self@) == Some(e),
                Ok(plan) => {
                    &&& refusal(self@) is None
                    &&& is_lowest(self@, plan.min)
                    &&& is_highest(self@, plan.max)
                    &&& plan.min < plan.max
                    &&& plan.n_bins == scanned_bins(self@.len())
                    &&& plan.bands@.len() == n_freq
                    &&& is_layout(plan.bands@, thresholds(n_freq as nat), plan.n_bins as int)
                    &&& forall|k: int|
                        0 <= k < n_freq ==> (#[trigger] plan.bands@[k]).start <= plan.bands@[k].end
                            && plan.bands@[k].end <= plan.n_bins
                    &&& n_freq > 0 ==> plan.bands@[0].start == 0
                    &&& forall|k: int|
                        0 < k < n_freq ==> (#[trigger] plan.bands@[k]).start == plan.bands@[k
                            - 1].end
                    &&& self@.len() >= HIGHEST_BOUNDARY ==> forall|k: int|
                        0 <= k < n_freq ==> (#[trigger] plan.bands@[k]).end == threshold(
                            n_freq as nat,
                            k as nat,
                        )
                    &&& self@.len() >= HIGHEST_BOUNDARY && n_freq <= DISTINCT_BANDS
                        ==> forall|k: int|
                        0 <= k < n_freq ==> (#[trigger] plan.bands@[k]).start < plan.bands@[k].end
                },
            },
    {
        let len: usize = self.points_buffer.len();
        match self.points_buffer.extremes() {
            None => Err(MusicAnalizerError::EmptyBufferError),
            Some((min, max)) => {
                proof {
                    lemma_range_is_open(self@, min, max);
                }
                if max == min {
                    return Err(MusicAnalizerError::MaxMinZeroError);
                }
                let n_bins: usize = if len < SPECTRUM_BINS { len } else { SPECTRUM_BINS };
                let wanted: Vec<usize> = band_thresholds(n_freq);
                let bands: Vec<Band> = band_layout(wanted.as_slice(), n_bins);
                proof {
                    if len >= HIGHEST_BOUNDARY {
                        assert forall|k: int| 0 <= k < n_freq implies (#[trigger] bands@[k]).end
                            == threshold(n_freq as nat, k as nat) by {
                            lemma_threshold_lies_within(n_freq as nat, k as nat);
                            lemma_rising_thresholds_close_bands(wanted@, n_bins as int, k);
                        }
                        if n_freq <= DISTINCT_BANDS {
                            assert forall|k: int| 0 <= k < n_freq implies (#[trigger] bands@[k]).start
                                < bands@[k].end by {
                                lemma_increasing_thresholds_fill_bands(wanted@, n_bins as int, k);
                            }
                        }
                    }
                }
                Ok(FrequencyPlan { min, max, n_bins, bands })
            },
        }
    }
}

} // verus!
