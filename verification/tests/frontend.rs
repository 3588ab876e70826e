use fireredvad::audio::{check_wav_spec, SampleEncoding, WavSpecError};
use fireredvad::cmvn::{check_cmvn_dims, check_feature_dim, CmvnError};
use fireredvad::fbank::{num_frames, FRAME_LENGTH_SAMPLES, FRAME_SHIFT_SAMPLES};
use fireredvad::model::{lookahead_taps, lookback_taps};
use fireredvad::vad::chunk_ranges;

#[test]
fn frame_count_of_signals() {
    assert_eq!(FRAME_LENGTH_SAMPLES, 400);
    assert_eq!(FRAME_SHIFT_SAMPLES, 160);
    assert_eq!(num_frames(0), 0);
    assert_eq!(num_frames(399), 0);
    assert_eq!(num_frames(400), 1);
    assert_eq!(num_frames(559), 1);
    assert_eq!(num_frames(560), 2);
    assert_eq!(num_frames(16_000), 98);
}

#[test]
fn chunks_tile_the_frames() {
    assert_eq!(chunk_ranges(10, 4), vec![(0, 4), (4, 8), (8, 10)]);
    assert_eq!(chunk_ranges(8, 4), vec![(0, 4), (4, 8)]);
    assert_eq!(chunk_ranges(3, 4), vec![(0, 3)]);
    assert_eq!(chunk_ranges(0, 4), vec![(0, 0)]);
    assert_eq!(chunk_ranges(3, 0), vec![(0, 1), (1, 2), (2, 3)]);
}

#[test]
fn lookahead_uses_future_frames_only() {
    // Order 2, stride 1, over 4 frames: frame t reads t + 1 and t + 2.
    assert_eq!(lookahead_taps(0, 4, 2, 1), vec![(0, 1), (1, 2)]);
    assert_eq!(lookahead_taps(1, 4, 2, 1), vec![(0, 2), (1, 3)]);
    assert_eq!(lookahead_taps(2, 4, 2, 1), vec![(0, 3)]);
    assert_eq!(lookahead_taps(3, 4, 2, 1), vec![]);
    assert_eq!(lookahead_taps(usize::MAX - 1, usize::MAX, 3, usize::MAX), vec![]);
}

#[test]
fn lookback_reads_past_frames_up_to_current() {
    // Order 3, stride 2: tap k reads t - (2 - k) * 2.
    assert_eq!(lookback_taps(5, 3, 2), vec![(0, 1), (1, 3), (2, 5)]);
    assert_eq!(lookback_taps(2, 3, 2), vec![(1, 0), (2, 2)]);
    assert_eq!(lookback_taps(0, 1, 1), vec![(0, 0)]);
    assert_eq!(lookback_taps(1, 3, usize::MAX), vec![(2, 1)]);
}

#[test]
fn wav_headers_are_checked() {
    assert_eq!(check_wav_spec(0, false, 16), Err(WavSpecError::ZeroChannels));
    assert_eq!(check_wav_spec(2, false, 16), Ok(SampleEncoding::Pcm16));
    assert_eq!(check_wav_spec(1, true, 32), Ok(SampleEncoding::Float32));
    assert_eq!(check_wav_spec(1, false, 24), Err(WavSpecError::UnsupportedFormat));
    assert_eq!(check_wav_spec(1, true, 64), Err(WavSpecError::UnsupportedFormat));
}

#[test]
fn cmvn_dimensions_are_checked() {
    assert_eq!(check_cmvn_dims(80, 80, 80), Ok(()));
    assert_eq!(check_cmvn_dims(80, 79, 80), Err(CmvnError::DimensionMismatch));
    assert_eq!(check_cmvn_dims(80, 80, 81), Err(CmvnError::DimensionMismatch));
    assert_eq!(check_feature_dim(80, 80), Ok(()));
    assert_eq!(check_feature_dim(40, 80), Err(CmvnError::FeatureDimensionMismatch));
}
