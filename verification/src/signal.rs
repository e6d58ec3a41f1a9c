use vstd::prelude::*;

use crate::models::{FREQ_BIN_SIZE, HOP_SIZE};

verus! {

/// Why a signal cannot be downsampled.
#[derive(Clone, Copy, Debug, PartialEq, Eq, Structural)]
pub enum SignalError {
    /// The downsampling factor is below one.
    InvalidFactor,
}

/// The sum of a run of samples.
pub open spec fn sample_sum(samples: Seq<i16>) -> int
    decreases samples.len(),
{
    if samples.len() == 0 {
        0
    } else {
        sample_sum(samples.drop_last()) + samples.last()
    }
}

/// Integer division rounding toward zero.
pub open spec fn div_toward_zero(a: int, b: int) -> int {
    if a >= 0 {
        a / b
    } else {
        -((-a) / b)
    }
}

/// The mean of a non-empty run of samples, rounded toward zero.
pub open spec fn mean_toward_zero(samples: Seq<i16>) -> int {
    div_toward_zero(sample_sum(samples), samples.len() as int)
}

/// The `k`-th block of `factor` samples (the last block may be shorter).
pub open spec fn block(samples: Seq<i16>, factor: int, k: int) -> Seq<i16> {
    let start = k * factor;
    let end = if (k + 1) * factor < samples.len() {
        (k + 1) * factor
    } else {
        samples.len() as int
    };
    samples.subrange(start, end)
}

proof fn lemma_sum_bounds(samples: Seq<i16>)
    ensures
        -32768 * samples.len() <= sample_sum(samples) <= 32767 * samples.len(),
    decreases samples.len(),
{
    if samples.len() > 0 {
        lemma_sum_bounds(samples.drop_last());
    }
}

/// The mean of a block rounded toward zero, as an `i16`.
fn block_mean(samples: &[i16], start: usize, end: usize) -> (mean: i16)
    requires
        start < end <= samples.len(),
    ensures
        mean == mean_toward_zero(samples@.subrange(start as int, end as int)),
{
    let mut sum: i128 = 0;
    let mut m: usize = start;
    while m < end
        invariant
            start <= m <= end <= samples.len(),
            sum == sample_sum(samples@.subrange(start as int, m as int)),
            -32768 * (m - start) <= sum <= 32767 * (m - start),
        decreases end - m,
    {
        assert(samples@.subrange(start as int, m + 1).drop_last() == samples@.subrange(start as int, m as int));
        sum = sum + samples[m] as i128;
        m = m + 1;
    }
    let count: u128 = (end - start) as u128;
    let magnitude: u128 = if sum >= 0 { sum as u128 } else { (-sum) as u128 };
    let quotient: u128 = magnitude / count;
    proof {
        let n = count as int;
        if sum >= 0 {
            vstd::arithmetic::div_mod::lemma_div_is_ordered(magnitude as int, 32767 * n, n);
            vstd::arithmetic::div_mod::lemma_div_multiples_vanish(32767, n);
            assert(quotient <= 32767);
        } else {
            vstd::arithmetic::div_mod::lemma_div_is_ordered(magnitude as int, 32768 * n, n);
            vstd::arithmetic::div_mod::lemma_div_multiples_vanish(32768, n);
            assert(quotient <= 32768);
        }
    }
    if sum >= 0 {
        quotient as i16
    } else {
        (0 - (quotient as i32)) as i16
    }
}

/// How many blocks of `factor` samples a signal of `len` samples makes, the
/// last block possibly shorter.
pub open spec fn block_count(len: int, factor: int) -> int {
    (len + factor - 1) / factor
}

/// A signal downsampled by `factor`: every block of `factor` samples
/// replaced by its mean rounded toward zero.
pub open spec fn down_sampled(samples: Seq<i16>, factor: int) -> Seq<i16> {
    Seq::new(
        block_count(samples.len() as int, factor) as nat,
        |k: int| mean_toward_zero(block(samples, factor, k)) as i16,
    )
}

proof fn lemma_block_count(len: int, factor: int, n: int)
    requires
        factor >= 1,
        n >= 0,
        len >= 0,
        n * factor >= len,
        n > 0 ==> (n - 1) * factor < len,
    ensures
        n == block_count(len, factor),
{
    assert(n == (len + factor - 1) / factor) by (nonlinear_arith)
        requires
            factor >= 1,
            n >= 0,
            len >= 0,
            n * factor >= len,
            n > 0 ==> (n - 1) * factor < len,
    {
        let q = (len + factor - 1) / factor;
        let r = (len + factor - 1) % factor;
        assert(len + factor - 1 == q * factor + r && 0 <= r < factor);
        if n > 0 {
            assert(n * factor <= len + factor - 1);
        } else {
            assert(len == 0);
        }
    }
}

/// Downsampling by a factor of one keeps every sample as it is.
pub proof fn lemma_unit_factor(samples: Seq<i16>)
    ensures
        down_sampled(samples, 1) == samples,
{
    assert forall|k: int| 0 <= k < samples.len() implies #[trigger] down_sampled(samples, 1)[k] == samples[k] by {
        let one = block(samples, 1, k);
        assert(one == seq![samples[k]]);
        assert(one.drop_last() == Seq::<i16>::empty());
        assert(sample_sum(one.drop_last()) == 0);
        assert(one.last() == samples[k]);
        assert(sample_sum(one) == samples[k]);
    }
    assert(down_sampled(samples, 1) =~= samples);
}

/// The sum of a run of samples, folded from the left.
pub open spec fn folded_sum(samples: Seq<i16>) -> int {
    samples.fold_left(0int, |acc: int, x: i16| acc + x)
}

/// `q` is `total / n` rounded toward zero: `q * n <= total < (q + 1) * n`
/// for a total of zero or more, `(q - 1) * n < total <= q * n` below zero.
pub open spec fn rounds_toward_zero(q: int, total: int, n: int) -> bool {
    &&& total >= 0 ==> q * n <= total < (q + 1) * n
    &&& total < 0 ==> (q - 1) * n < total <= q * n
}

/// The samples of the `k`-th block of `factor` samples of a signal, the last
/// block cut short at the end of the signal.
pub open spec fn block_samples(samples: Seq<i16>, factor: int, k: int) -> Seq<i16> {
    samples.subrange(
        k * factor,
        if (k + 1) * factor < samples.len() {
            (k + 1) * factor
        } else {
            samples.len() as int
        },
    )
}

proof fn lemma_folded_sum(samples: Seq<i16>)
    ensures
        folded_sum(samples) == sample_sum(samples),
    decreases samples.len(),
{
    if samples.len() > 0 {
        lemma_folded_sum(samples.drop_last());
    }
}

proof fn lemma_mean_rounds(samples: Seq<i16>)
    requires
        samples.len() > 0,
    ensures
        -32768 <= mean_toward_zero(samples) <= 32767,
        rounds_toward_zero(mean_toward_zero(samples), folded_sum(samples), samples.len() as int),
{
    lemma_folded_sum(samples);
    lemma_sum_bounds(samples);
    let total = sample_sum(samples);
    let n = samples.len() as int;
    if total >= 0 {
        let q = total / n;
        assert(q * n <= total < (q + 1) * n && q <= 32767) by (nonlinear_arith)
            requires
                n > 0,
                total >= 0,
                total <= 32767 * n,
                q == total / n,
        {
            assert(total == n * q + total % n);
        }
    } else {
        let p = (-total) / n;
        assert(p * n <= -total < (p + 1) * n && p <= 32768) by (nonlinear_arith)
            requires
                n > 0,
                -total > 0,
                -total <= 32768 * n,
                p == (-total) / n,
        {
            assert(-total == n * p + (-total) % n);
        }
        assert((-p - 1) * n < total <= -p * n) by (nonlinear_arith)
            requires
                p * n <= -total < (p + 1) * n,
        ;
    }
}

proof fn lemma_block_count_bounds(len: int, factor: int)
    requires
        factor >= 1,
        len >= 0,
    ensures
        block_count(len, factor) >= 0,
        block_count(len, factor) * factor >= len,
        block_count(len, factor) > 0 ==> (block_count(len, factor) - 1) * factor < len,
{
    let n = block_count(len, factor);
    assert(n * factor >= len && (n > 0 ==> (n - 1) * factor < len) && n >= 0) by (nonlinear_arith)
        requires
            factor >= 1,
            len >= 0,
            n == (len + factor - 1) / factor,
    {
        let r = (len + factor - 1) % factor;
        assert(len + factor - 1 == factor * n + r && 0 <= r < factor);
    }
}

proof fn lemma_block_rounds(samples: Seq<i16>, factor: int, k: int)
    requires
        factor >= 1,
        0 <= k < down_sampled(samples, factor).len(),
    ensures
        block_samples(samples, factor, k).len() > 0,
        rounds_toward_zero(
            down_sampled(samples, factor)[k] as int,
            folded_sum(block_samples(samples, factor, k)),
            block_samples(samples, factor, k).len() as int,
        ),
{
    let len = samples.len() as int;
    let n = block_count(len, factor);
    lemma_block_count_bounds(len, factor);
    assert(k * factor < len && k * factor >= 0 && (k + 1) * factor > k * factor) by (nonlinear_arith)
        requires
            0 <= k < n,
            n > 0 ==> (n - 1) * factor < len,
            factor >= 1,
    {
        assert(k * factor <= (n - 1) * factor);
    }
    let b = block_samples(samples, factor, k);
    assert(b == block(samples, factor, k));
    lemma_mean_rounds(b);
}

/// Every sample of a downsampled signal is the sum of its block divided by
/// the block's length and rounded toward zero; there is one block per
/// `factor` samples, the last one possibly shorter.
pub proof fn lemma_down_sampled_means(samples: Seq<i16>, factor: int)
    requires
        factor >= 1,
    ensures
        down_sampled(samples, factor).len() * factor >= samples.len(),
        down_sampled(samples, factor).len() > 0 ==> (down_sampled(samples, factor).len() - 1) * factor
            < samples.len(),
        forall|k: int|
            0 <= k < down_sampled(samples, factor).len() ==> (#[trigger] block_samples(samples, factor, k)).len() > 0,
        forall|k: int|
            0 <= k < down_sampled(samples, factor).len() ==> rounds_toward_zero(
                #[trigger] down_sampled(samples, factor)[k] as int,
                folded_sum(block_samples(samples, factor, k)),
                block_samples(samples, factor, k).len() as int,
            ),
{
    lemma_block_count_bounds(samples.len() as int, factor);
    assert forall|k: int| 0 <= k < down_sampled(samples, factor).len() implies (#[trigger] block_samples(
        samples,
        factor,
        k,
    )).len() > 0 by {
        lemma_block_rounds(samples, factor, k);
    }
    assert forall|k: int| 0 <= k < down_sampled(samples, factor).len() implies rounds_toward_zero(
        #[trigger] down_sampled(samples, factor)[k] as int,
        folded_sum(block_samples(samples, factor, k)),
        block_samples(samples, factor, k).len() as int,
    ) by {
        lemma_block_rounds(samples, factor, k);
    }
}

/// Averages every block of `factor` samples into one sample.
pub fn down_sample_i16(samples: &[i16], factor: usize) -> (result: Result<Vec<i16>, SignalError>)
    ensures
        factor == 0 ==> result == Err::<Vec<i16>, SignalError>(SignalError::InvalidFactor),
        factor > 0 ==> (result matches Ok(out) && out@ == down_sampled(samples@, factor as int)),
        factor > 0 ==> (result matches Ok(out) && {
            &&& out.len() * factor >= samples.len()
            &&& out.len() > 0 ==> (out.len() - 1) * factor < samples.len()
            &&& forall|k: int|
                0 <= k < out.len() ==> (#[trigger] block_samples(samples@, factor as int, k)).len() > 0
            &&& forall|k: int|
                0 <= k < out.len() ==> rounds_toward_zero(
                    #[trigger] out[k] as int,
                    folded_sum(block_samples(samples@, factor as int, k)),
                    block_samples(samples@, factor as int, k).len() as int,
                )
        }),
{
    if factor < 1 {
        return Err(SignalError::InvalidFactor);
    }
    let mut out: Vec<i16> = Vec::new();
    let mut start: usize = 0;
    assert(out.len() * factor == 0) by (nonlinear_arith)
        requires
            out.len() == 0,
    ;
    while start < samples.len()
        invariant
            factor >= 1,
            start <= samples.len(),
            start == out.len() * factor || (start == samples.len() && out.len() * factor >= samples.len()),
            out.len() > 0 ==> (out.len() - 1) * factor < samples.len(),
            forall|k: int|
                0 <= k < out.len() ==> #[trigger] out[k] == mean_toward_zero(block(samples@, factor as int, k)),
        decreases samples.len() - start,
    {
        let end: usize = if samples.len() - start > factor { start + factor } else { samples.len() };
        let ghost k = out.len() as int;
        assert(start == k * factor);
        assert((k + 1) * factor == k * factor + factor) by (nonlinear_arith);
        assert(block(samples@, factor as int, k) == samples@.subrange(start as int, end as int));
        let mean: i16 = block_mean(samples, start, end);
        out.push(mean);
        assert((out.len() - 1) * factor < samples.len());
        start = end;
    }
    proof {
        lemma_block_count(samples.len() as int, factor as int, out.len() as int);
    }
    assert(out@ =~= down_sampled(samples@, factor as int));
    proof {
        lemma_down_sampled_means(samples@, factor as int);
    }
    Ok(out)
}

/// Number of samples between the starts of two frames that the frame count
/// is based on.
pub open spec fn frame_stride() -> int {
    FREQ_BIN_SIZE - HOP_SIZE
}

/// A signal cut into frames of `FREQ_BIN_SIZE` samples starting every
/// `HOP_SIZE` samples, zero past the end of the signal; one frame per
/// `FREQ_BIN_SIZE - HOP_SIZE` samples.
pub open spec fn framed(samples: Seq<i16>) -> Seq<Seq<i16>> {
    Seq::new(
        (samples.len() as int / frame_stride()) as nat,
        |w: int|
            Seq::new(
                FREQ_BIN_SIZE as nat,
                |k: int|
                    if w * HOP_SIZE + k < samples.len() {
                        samples[w * HOP_SIZE + k]
                    } else {
                        0i16
                    },
            ),
    )
}

/// The contents of a list of frames.
pub open spec fn frame_views(frames: Seq<Vec<i16>>) -> Seq<Seq<i16>> {
    frames.map_values(|frame: Vec<i16>| frame@)
}

/// Cuts a signal into frames of `FREQ_BIN_SIZE` samples starting every
/// `HOP_SIZE` samples, padding the end of a frame with zeros past the end of
/// the signal. There is one frame per `FREQ_BIN_SIZE - HOP_SIZE` samples.
pub fn frame_samples(samples: &[i16]) -> (frames: Vec<Vec<i16>>)
    ensures
        frame_views(frames@) == framed(samples@),
        frames.len() == samples.len() as int / frame_stride(),
        forall|w: int| 0 <= w < frames.len() ==> (#[trigger] frames[w]).len() == FREQ_BIN_SIZE,
        forall|w: int, k: int|
            0 <= w < frames.len() && 0 <= k < FREQ_BIN_SIZE ==> #[trigger] frames[w][k] == if w * HOP_SIZE + k
                < samples.len() {
                samples[w * HOP_SIZE + k]
            } else {
                0i16
            },
{
    let num_windows: usize = samples.len() / (FREQ_BIN_SIZE - HOP_SIZE);
    let mut frames: Vec<Vec<i16>> = Vec::new();
    let mut w: usize = 0;
    while w < num_windows
        invariant
            w <= num_windows,
            num_windows == samples.len() as int / frame_stride(),
            frames.len() == w,
            forall|v: int| 0 <= v < w ==> (#[trigger] frames[v]).len() == FREQ_BIN_SIZE,
            forall|v: int, k: int|
                0 <= v < w && 0 <= k < FREQ_BIN_SIZE ==> #[trigger] frames[v][k] == if v * HOP_SIZE + k
                    < samples.len() {
                    samples[v * HOP_SIZE + k]
                } else {
                    0i16
                },
        decreases num_windows - w,
    {
        assert(w * HOP_SIZE < samples.len()) by (nonlinear_arith)
            requires
                w < num_windows,
                num_windows == samples.len() / 992,
        {
            assert(num_windows * 992 <= samples.len());
        }
        let start: usize = w * HOP_SIZE;
        let end: usize = if samples.len() - start > FREQ_BIN_SIZE { start + FREQ_BIN_SIZE } else { samples.len() };
        let mut frame: Vec<i16> = Vec::new();
        let mut k: usize = 0;
        while k < FREQ_BIN_SIZE
            invariant
                start == w * HOP_SIZE,
                start < samples.len(),
                end == if samples.len() - start > FREQ_BIN_SIZE { start + FREQ_BIN_SIZE } else { samples.len() as int },
                k <= FREQ_BIN_SIZE,
                frame.len() == k,
                forall|i: int| 0 <= i < k ==> #[trigger] frame[i] == if start + i < samples.len() {
                    samples[start + i]
                } else {
                    0i16
                },
            decreases FREQ_BIN_SIZE - k,
        {
            if k < end - start {
                frame.push(samples[start + k]);
            } else {
                frame.push(0);
            }
            k = k + 1;
        }
        frames.push(frame);
        w = w + 1;
    }
    assert forall|v: int| 0 <= v < frames.len() implies #[trigger] frame_views(frames@)[v] == framed(samples@)[v] by {
        assert(frame_views(frames@)[v] =~= framed(samples@)[v]);
    }
    assert(frame_views(frames@) =~= framed(samples@));
    frames
}

/// Downsamples a (low-pass filtered) signal by `factor` and cuts the result
/// into frames.
pub fn spectogram_frames(smoothed: &[i16], factor: usize) -> (result: Result<Vec<Vec<i16>>, SignalError>)
    ensures
        factor == 0 ==> result == Err::<Vec<Vec<i16>>, SignalError>(SignalError::InvalidFactor),
        factor > 0 ==> (result matches Ok(frames) && frame_views(frames@) == framed(
            down_sampled(smoothed@, factor as int),
        )),
{
    let down = down_sample_i16(smoothed, factor)?;
    Ok(frame_samples(down.as_slice()))
}

} // verus!
