use vstd::prelude::*;

use crate::models::{bands, spec_bands, Band};

verus! {

/// The strongest magnitude of a run of bins and its position, the last
/// position when several bins are equally strong; `(0, 0)` for no bins.
/// Magnitudes are order keys: a larger key is a stronger bin.
pub open spec fn strongest(magnitudes: Seq<u64>) -> (u64, int)
    decreases magnitudes.len(),
{
    if magnitudes.len() == 0 {
        (0, 0)
    } else {
        let (best, at) = strongest(magnitudes.drop_last());
        if magnitudes.last() >= best {
            (magnitudes.last(), magnitudes.len() - 1)
        } else {
            (best, at)
        }
    }
}

/// The strongest bin of a non-empty run is a bin of the run, no bin is
/// stronger, and every later bin is weaker.
pub proof fn lemma_strongest(magnitudes: Seq<u64>)
    requires
        magnitudes.len() > 0,
    ensures
        0 <= strongest(magnitudes).1 < magnitudes.len(),
        strongest(magnitudes).0 == magnitudes[strongest(magnitudes).1],
        forall|j: int| 0 <= j < magnitudes.len() ==> #[trigger] magnitudes[j] <= strongest(magnitudes).0,
        forall|j: int|
            strongest(magnitudes).1 < j < magnitudes.len() ==> #[trigger] magnitudes[j] < strongest(magnitudes).0,
    decreases magnitudes.len(),
{
    if magnitudes.len() > 1 {
        let prefix = magnitudes.drop_last();
        lemma_strongest(prefix);
        assert(forall|j: int| 0 <= j < prefix.len() ==> prefix[j] == #[trigger] magnitudes[j]);
    } else {
        assert(strongest(magnitudes.drop_last()) == (0u64, 0int));
    }
}

/// Finds the strongest bin of a band of a frame: its magnitude and its
/// position counted from the start of the band.
pub fn strongest_bin(magnitudes: &[u64], band: Band) -> (found: (u64, usize))
    requires
        band.min <= band.max <= magnitudes.len(),
    ensures
        found.0 == strongest(magnitudes@.subrange(band.min as int, band.max as int)).0,
        found.1 == strongest(magnitudes@.subrange(band.min as int, band.max as int)).1,
{
    let mut best: u64 = 0;
    let mut at: usize = 0;
    let mut j: usize = band.min;
    while j < band.max
        invariant
            band.min <= j <= band.max <= magnitudes.len(),
            best == strongest(magnitudes@.subrange(band.min as int, j as int)).0,
            at == strongest(magnitudes@.subrange(band.min as int, j as int)).1,
        decreases band.max - j,
    {
        assert(magnitudes@.subrange(band.min as int, j + 1).drop_last() == magnitudes@.subrange(band.min as int, j as int));
        if magnitudes[j] >= best {
            best = magnitudes[j];
            at = j - band.min;
        }
        j = j + 1;
    }
    (best, at)
}

/// The peaks of a frame, band after band: the strongest bin of each band,
/// as its magnitude and its position in the frame, when it is above zero.
pub open spec fn band_peaks(magnitudes: Seq<u64>, bands: Seq<Band>) -> Seq<(u64, usize)>
    decreases bands.len(),
{
    if bands.len() == 0 {
        Seq::empty()
    } else {
        let rest = band_peaks(magnitudes, bands.drop_last());
        let band = bands.last();
        let (best, at) = strongest(magnitudes.subrange(band.min as int, band.max as int));
        if best > 0 {
            rest.push((best, (band.min + at) as usize))
        } else {
            rest
        }
    }
}

/// `entry` is the strongest bin of `band` in a frame: a position of the band
/// and its magnitude, no bin of the band stronger and every later bin of the
/// band weaker (so the last of equally strong bins).
pub open spec fn is_band_maximum(magnitudes: Seq<u64>, band: Band, entry: (u64, usize)) -> bool {
    &&& band.min <= entry.1 < band.max
    &&& entry.0 == magnitudes[entry.1 as int]
    &&& forall|j: int| band.min <= j < band.max ==> #[trigger] magnitudes[j] <= entry.0
    &&& forall|j: int| entry.1 < j < band.max ==> #[trigger] magnitudes[j] < entry.0
}

/// A band of a frame holds a bin above zero.
pub open spec fn band_is_live(magnitudes: Seq<u64>, band: Band) -> bool {
    exists|j: int| band.min <= j < band.max && #[trigger] magnitudes[j] > 0
}

/// Where the first `k` bands end: no bin of them lies at or past it.
pub open spec fn bands_end(k: int) -> int {
    if k <= 0 {
        0
    } else {
        spec_bands()[k - 1].max as int
    }
}

/// The peaks of the first `k` bands of a frame: each is the strongest bin of
/// one of those bands and above zero, every band with a bin above zero has
/// its strongest bin among them, and they come in increasing bin order.
proof fn lemma_band_peaks_prefix(magnitudes: Seq<u64>, k: int)
    requires
        magnitudes.len() >= 512,
        0 <= k <= 7,
    ensures
        forall|e: int|
            0 <= e < band_peaks(magnitudes, spec_bands().take(k)).len() ==> {
                let entry = #[trigger] band_peaks(magnitudes, spec_bands().take(k))[e];
                &&& entry.0 > 0
                &&& entry.1 < bands_end(k)
                &&& exists|b: int| 0 <= b < k && is_band_maximum(magnitudes, #[trigger] spec_bands()[b], entry)
            },
        forall|b: int|
            0 <= b < k && band_is_live(magnitudes, #[trigger] spec_bands()[b]) ==> exists|e: int|
                0 <= e < band_peaks(magnitudes, spec_bands().take(k)).len() && is_band_maximum(
                    magnitudes,
                    spec_bands()[b],
                    #[trigger] band_peaks(magnitudes, spec_bands().take(k))[e],
                ),
        forall|e1: int, e2: int|
            0 <= e1 < e2 < band_peaks(magnitudes, spec_bands().take(k)).len() ==> (#[trigger] band_peaks(
                magnitudes,
                spec_bands().take(k),
            )[e1]).1 < (#[trigger] band_peaks(magnitudes, spec_bands().take(k))[e2]).1,
    decreases k,
{
    if k > 0 {
        lemma_band_peaks_prefix(magnitudes, k - 1);
        let bands = spec_bands().take(k);
        assert(bands.drop_last() == spec_bands().take(k - 1));
        assert(bands.last() == spec_bands()[k - 1]);
        let before = band_peaks(magnitudes, spec_bands().take(k - 1));
        let after = band_peaks(magnitudes, bands);
        let band = spec_bands()[k - 1];
        let run = magnitudes.subrange(band.min as int, band.max as int);
        lemma_strongest(run);
        let (best, at) = strongest(run);
        assert(bands_end(k - 1) <= band.min);
        assert forall|j: int| band.min <= j < band.max implies #[trigger] magnitudes[j] == run[j - band.min] by {}
        if best > 0 {
            assert(after == before.push((best, (band.min + at) as usize)));
            let entry = (best, (band.min + at) as usize);
            assert(is_band_maximum(magnitudes, band, entry)) by {
                assert forall|j: int| band.min <= j < band.max implies #[trigger] magnitudes[j] <= entry.0 by {
                    assert(run[j - band.min] <= best);
                }
                assert forall|j: int| entry.1 < j < band.max implies #[trigger] magnitudes[j] < entry.0 by {
                    assert(run[j - band.min] < best);
                }
            }
            assert forall|e: int| 0 <= e < after.len() implies {
                let entry = #[trigger] after[e];
                &&& entry.0 > 0
                &&& entry.1 < bands_end(k)
                &&& exists|b: int| 0 <= b < k && is_band_maximum(magnitudes, #[trigger] spec_bands()[b], entry)
            } by {
                if e < before.len() {
                    assert(after[e] == before[e]);
                    let b = choose|b: int| 0 <= b < k - 1 && is_band_maximum(magnitudes, #[trigger] spec_bands()[b], before[e]);
                    assert(is_band_maximum(magnitudes, spec_bands()[b], after[e]));
                } else {
                    assert(after[e] == entry);
                    assert(is_band_maximum(magnitudes, spec_bands()[k - 1], after[e]));
                }
            }
            assert forall|b: int| 0 <= b < k && band_is_live(magnitudes, #[trigger] spec_bands()[b]) implies exists|e: int|
                0 <= e < after.len() && is_band_maximum(magnitudes, spec_bands()[b], #[trigger] after[e]) by {
                if b < k - 1 {
                    let e = choose|e: int| 0 <= e < before.len() && is_band_maximum(magnitudes, spec_bands()[b], #[trigger] before[e]);
                    assert(after[e] == before[e]);
                } else {
                    assert(after[before.len() as int] == entry);
                }
            }
            assert forall|e1: int, e2: int| 0 <= e1 < e2 < after.len() implies (#[trigger] after[e1]).1 < (#[trigger] after[e2]).1 by {
                assert(after[e1] == before[e1]);
                if e2 < before.len() {
                    assert(after[e2] == before[e2]);
                } else {
                    assert(after[e2] == entry);
                }
            }
        } else {
            assert(after == before);
            assert forall|e: int| 0 <= e < after.len() implies {
                let entry = #[trigger] after[e];
                &&& entry.0 > 0
                &&& entry.1 < bands_end(k)
                &&& exists|b: int| 0 <= b < k && is_band_maximum(magnitudes, #[trigger] spec_bands()[b], entry)
            } by {
                let b = choose|b: int| 0 <= b < k - 1 && is_band_maximum(magnitudes, #[trigger] spec_bands()[b], before[e]);
                assert(is_band_maximum(magnitudes, spec_bands()[b], after[e]));
            }
            assert forall|b: int| 0 <= b < k && band_is_live(magnitudes, #[trigger] spec_bands()[b]) implies exists|e: int|
                0 <= e < after.len() && is_band_maximum(magnitudes, spec_bands()[b], #[trigger] after[e]) by {
                if b == k - 1 {
                    let j = choose|j: int| band.min <= j < band.max && #[trigger] magnitudes[j] > 0;
                    assert(run[j - band.min] <= best);
                    assert(false);
                }
            }
        }
    }
}

/// The strongest bins of the bands of a frame are exactly one per band with
/// a bin above zero: each entry is the strongest bin of a band and above
/// zero, every such band has its strongest bin listed, and the entries come
/// in increasing bin order (so no band is listed twice).
pub proof fn lemma_band_peaks_complete(magnitudes: Seq<u64>)
    requires
        magnitudes.len() >= 512,
    ensures
        forall|e: int|
            0 <= e < band_peaks(magnitudes, spec_bands()).len() ==> (#[trigger] band_peaks(magnitudes, spec_bands())[e]).0
                > 0 && exists|b: int|
                0 <= b < 7 && is_band_maximum(
                    magnitudes,
                    #[trigger] spec_bands()[b],
                    band_peaks(magnitudes, spec_bands())[e],
                ),
        forall|b: int|
            0 <= b < 7 && band_is_live(magnitudes, #[trigger] spec_bands()[b]) ==> exists|e: int|
                0 <= e < band_peaks(magnitudes, spec_bands()).len() && is_band_maximum(
                    magnitudes,
                    spec_bands()[b],
                    #[trigger] band_peaks(magnitudes, spec_bands())[e],
                ),
        forall|e1: int, e2: int|
            0 <= e1 < e2 < band_peaks(magnitudes, spec_bands()).len() ==> (#[trigger] band_peaks(
                magnitudes,
                spec_bands(),
            )[e1]).1 < (#[trigger] band_peaks(magnitudes, spec_bands())[e2]).1,
{
    lemma_band_peaks_prefix(magnitudes, 7);
    assert(spec_bands().take(7) == spec_bands());
}

/// Finds the strongest bin of every frequency band of a frame.
pub fn band_maxima(magnitudes: &[u64]) -> (maxima: Vec<(u64, usize)>)
    requires
        magnitudes.len() >= 512,
    ensures
        maxima@ == band_peaks(magnitudes@, spec_bands()),
        forall|e: int|
            0 <= e < maxima.len() ==> (#[trigger] maxima[e]).0 > 0 && exists|b: int|
                0 <= b < 7 && is_band_maximum(magnitudes@, #[trigger] spec_bands()[b], maxima[e]),
        forall|b: int|
            0 <= b < 7 && band_is_live(magnitudes@, #[trigger] spec_bands()[b]) ==> exists|e: int|
                0 <= e < maxima.len() && is_band_maximum(magnitudes@, spec_bands()[b], #[trigger] maxima[e]),
        forall|e1: int, e2: int| 0 <= e1 < e2 < maxima.len() ==> (#[trigger] maxima[e1]).1 < (#[trigger] maxima[e2]).1,
{
    let all = bands();
    let mut maxima: Vec<(u64, usize)> = Vec::new();
    let mut k: usize = 0;
    while k < 7
        invariant
            k <= 7,
            all@ == spec_bands(),
            magnitudes.len() >= 512,
            maxima@ == band_peaks(magnitudes@, spec_bands().take(k as int)),
        decreases 7 - k,
    {
        let band = all[k];
        assert(spec_bands().take(k + 1).drop_last() == spec_bands().take(k as int));
        let (best, at) = strongest_bin(magnitudes, band);
        if best > 0 {
            proof {
                if band.max > band.min {
                    lemma_strongest(magnitudes@.subrange(band.min as int, band.max as int));
                }
            }
            maxima.push((best, band.min + at));
        }
        k = k + 1;
    }
    assert(spec_bands().take(7) == spec_bands());
    proof {
        lemma_band_peaks_complete(magnitudes@);
    }
    maxima
}

} // verus!
