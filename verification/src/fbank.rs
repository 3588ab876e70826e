use vstd::prelude::*;

verus! {

/// Sample rate the model works at, in Hz.
pub const SAMPLE_RATE: usize = 16000;

/// Samples in one 25 ms analysis frame.
pub const FRAME_LENGTH_SAMPLES: usize = 400;

/// Samples between the starts of consecutive frames (10 ms).
pub const FRAME_SHIFT_SAMPLES: usize = 160;

/// Number of whole analysis frames in a signal of `wav_len` samples: frame
/// `t` covers samples `t * FRAME_SHIFT_SAMPLES .. t * FRAME_SHIFT_SAMPLES +
/// FRAME_LENGTH_SAMPLES`.
pub fn num_frames(wav_len: usize) -> (n: usize)
    ensures
        n == if wav_len < FRAME_LENGTH_SAMPLES {
            0
        } else {
            1 + (wav_len - FRAME_LENGTH_SAMPLES) / FRAME_SHIFT_SAMPLES as int
        },
        n > 0 ==> (n - 1) * FRAME_SHIFT_SAMPLES + FRAME_LENGTH_SAMPLES <= wav_len,
        n * FRAME_SHIFT_SAMPLES + FRAME_LENGTH_SAMPLES > wav_len,
{
    if wav_len < FRAME_LENGTH_SAMPLES {
        0
    } else {
        let n: usize = 1 + (wav_len - FRAME_LENGTH_SAMPLES) / FRAME_SHIFT_SAMPLES;
        assert((n - 1) * 160 <= wav_len - 400 < n * 160) by (nonlinear_arith)
            requires
                n == 1 + (wav_len - 400) / 160,
                wav_len >= 400,
        ;
        n
    }
}

} // verus!
