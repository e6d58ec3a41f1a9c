use vstd::prelude::*;

verus! {

/// Downsampling ratio between the decoded sample rate and the analysis rate.
pub const DSP_RATIO: u32 = 4;

/// Number of samples in one analysis frame (and FFT bins per frame).
pub const FREQ_BIN_SIZE: usize = 1024;

/// Distance in samples between the starts of two consecutive frames.
pub const HOP_SIZE: usize = FREQ_BIN_SIZE / 32;

/// Number of target peaks paired with every anchor peak.
pub const TARGET_ZONE_SIZE: usize = 5;

/// What an address stands for in a fingerprint: the time of the anchor
/// peak in milliseconds and the song the anchor belongs to.
#[derive(Clone, Copy, Debug, PartialEq, Eq, Structural)]
pub struct Couple {
    pub anchor_time_ms: u32,
    pub song_id: u32,
}

/// The quantized description of an anchor peak and one of its target peaks:
/// the frequency bins of both peaks, their distance in milliseconds and the
/// anchor time in milliseconds.
#[derive(Clone, Copy, Debug, PartialEq, Eq, Structural)]
pub struct PeakPair {
    pub anchor_bin: u32,
    pub target_bin: u32,
    pub delta_ms: u32,
    pub anchor_time_ms: u32,
}

/// A range `min..max` of frequency bins of a frame.
#[derive(Clone, Copy, Debug, PartialEq, Eq, Structural)]
pub struct Band {
    pub min: usize,
    pub max: usize,
}

/// The logarithmic frequency bands in which peaks are searched.
pub open spec fn spec_bands() -> Seq<Band> {
    seq![
        Band { min: 0, max: 10 },
        Band { min: 10, max: 20 },
        Band { min: 20, max: 40 },
        Band { min: 40, max: 80 },
        Band { min: 80, max: 160 },
        Band { min: 160, max: 320 },
        Band { min: 320, max: 512 },
    ]
}

/// The logarithmic frequency bands in which peaks are searched: sub-bass,
/// bass, low mids, mids, upper mids, presence and brilliance.
pub fn bands() -> (bands: [Band; 7])
    ensures
        bands@ == spec_bands(),
{
    let bands = [
        Band { min: 0, max: 10 },
        Band { min: 10, max: 20 },
        Band { min: 20, max: 40 },
        Band { min: 40, max: 80 },
        Band { min: 80, max: 160 },
        Band { min: 160, max: 320 },
        Band { min: 320, max: 512 },
    ];
    assert(bands@ == spec_bands());
    bands
}

/// A song of the index that shares addresses with a sample: the file it was
/// read from (an index into the list of indexed files), how many couples of
/// its hits agree in time, and its earliest matching anchor time.
#[derive(Clone, Copy, Debug, PartialEq, Eq, Structural)]
pub struct Match {
    pub file_index: usize,
    pub score: u64,
    pub timestamp: u32,
}

} // verus!
