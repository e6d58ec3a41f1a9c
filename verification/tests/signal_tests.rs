use audio_fingerprint::models::{bands, Band, FREQ_BIN_SIZE, HOP_SIZE};
use audio_fingerprint::peaks::{band_maxima, strongest_bin};
use audio_fingerprint::signal::{down_sample_i16, frame_samples, spectogram_frames, SignalError};

#[test]
fn down_sampling_averages_blocks_toward_zero() {
    assert_eq!(down_sample_i16(&[1, 2, 3, 4, 5], 2), Ok(vec![1, 3, 5]));
    assert_eq!(down_sample_i16(&[-3, -4], 2), Ok(vec![-3]));
    assert_eq!(down_sample_i16(&[-32768, -32768, 32767], 2), Ok(vec![-32768, 32767]));
    assert_eq!(down_sample_i16(&[], 4), Ok(vec![]));
}

#[test]
fn down_sampling_by_zero_is_refused() {
    assert_eq!(down_sample_i16(&[1, 2], 0), Err(SignalError::InvalidFactor));
}

#[test]
fn down_sampling_by_one_keeps_the_signal() {
    let signal = [5i16, -7, 32767, -32768, 0];
    assert_eq!(down_sample_i16(&signal, 1), Ok(signal.to_vec()));
}

#[test]
fn down_sampling_block_count_rounds_up() {
    let signal = vec![8i16; 10];
    assert_eq!(down_sample_i16(&signal, 4).unwrap().len(), 3);
    assert_eq!(down_sample_i16(&signal, 5).unwrap().len(), 2);
    assert_eq!(down_sample_i16(&signal, 100).unwrap(), vec![8]);
}

#[test]
fn frames_start_every_hop_and_are_zero_padded() {
    let signal: Vec<i16> = (0..1984).map(|i| (i % 1000) as i16).collect();
    let frames = frame_samples(&signal);
    assert_eq!(frames.len(), 1984 / (FREQ_BIN_SIZE - HOP_SIZE));
    assert_eq!(frames.len(), 2);
    assert!(frames.iter().all(|f| f.len() == FREQ_BIN_SIZE));
    assert_eq!(frames[0][..], signal[0..1024]);
    assert_eq!(frames[1][..], signal[32..1056]);

    let short: Vec<i16> = vec![3; 992];
    let frames = frame_samples(&short);
    assert_eq!(frames.len(), 1);
    assert!(frames[0][..992].iter().all(|&x| x == 3));
    assert!(frames[0][992..].iter().all(|&x| x == 0));
    assert!(frame_samples(&vec![1; 991]).is_empty());
}

#[test]
fn spectogram_frames_downsample_then_cut() {
    let signal: Vec<i16> = (0..4000).map(|i| (i / 4) as i16).collect();
    let frames = spectogram_frames(&signal, 4).unwrap();
    assert_eq!(frames.len(), 1);
    assert_eq!(frames[0][0], 0);
    assert_eq!(frames[0][999], 999);
    assert_eq!(frames[0][1000], 0);
    assert_eq!(spectogram_frames(&signal, 0), Err(SignalError::InvalidFactor));
}

#[test]
fn strongest_bin_takes_the_last_of_equal_maxima() {
    let mags = [1u64, 5, 5, 2];
    assert_eq!(strongest_bin(&mags, Band { min: 0, max: 4 }), (5, 2));
    assert_eq!(strongest_bin(&mags, Band { min: 3, max: 4 }), (2, 0));
    assert_eq!(strongest_bin(&mags, Band { min: 2, max: 2 }), (0, 0));
    assert_eq!(strongest_bin(&[0, 0, 0], Band { min: 0, max: 3 }), (0, 2));
}

#[test]
fn bands_cover_the_analysed_bins() {
    let all = bands();
    assert_eq!(all[0], Band { min: 0, max: 10 });
    assert_eq!(all[6], Band { min: 320, max: 512 });
    for w in all.windows(2) {
        assert_eq!(w[0].max, w[1].min);
    }
}

#[test]
fn band_maxima_keep_positive_peaks_in_band_order() {
    let mut mags = vec![0u64; 1024];
    mags[3] = 7;
    mags[15] = 2;
    mags[16] = 2;
    mags[500] = 9;
    let maxima = band_maxima(&mags);
    assert_eq!(maxima, vec![(7, 3), (2, 16), (9, 500)]);
}

