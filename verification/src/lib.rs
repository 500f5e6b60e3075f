//! Verified core of a live music visualiser: the rolling sample window, the
//! chunking tap on the decoded stream, and the discrete half of the
//! frequency-band analysis.

pub mod analyzer;
pub mod bands;
pub mod boundaries;
pub mod error;
pub mod natural;
pub mod tap;
pub mod window;

pub use analyzer::{FrequencyPlan, MusicAnalizer, FFT_BUFFER_SIZE, SPECTRUM_BINS};
pub use bands::{band_layout, is_strictly_increasing, Band};
pub use boundaries::{band_thresholds, power_of, DISTINCT_BANDS, HIGHEST_BOUNDARY};
pub use error::{ErrorSource, MusicAnalizerError};
pub use natural::Natural;
pub use tap::{SendingSource, TapStep, SENDING_BUFFER_SIZE};
pub use window::RollingWindow;
