use vstd::prelude::*;

verus! {

/// Sample encodings of WAV input that the front end decodes.
#[derive(Debug, Clone, Copy, PartialEq, Eq, Structural)]
pub enum SampleEncoding {
    /// 16-bit signed integer PCM.
    Pcm16,
    /// 32-bit IEEE float.
    Float32,
}

/// Why a WAV header is refused.
#[derive(Debug, Clone, Copy, PartialEq, Eq, Structural)]
pub enum WavSpecError {
    ZeroChannels,
    UnsupportedFormat,
}

/// Checks a WAV header: at least one channel, and either 16-bit integer or
/// 32-bit float samples.
pub fn check_wav_spec(channels: u16, is_float: bool, bits_per_sample: u16) -> (r: Result<
    SampleEncoding,
    WavSpecError,
>)
    ensures
        channels == 0 ==> r == Err::<SampleEncoding, WavSpecError>(WavSpecError::ZeroChannels),
        channels > 0 && !is_float && bits_per_sample == 16 ==> r == Ok::<
            SampleEncoding,
            WavSpecError,
        >(SampleEncoding::Pcm16),
        channels > 0 && is_float && bits_per_sample == 32 ==> r == Ok::<
            SampleEncoding,
            WavSpecError,
        >(SampleEncoding::Float32),
        channels > 0 && !(!is_float && bits_per_sample == 16) && !(is_float && bits_per_sample
            == 32) ==> r == Err::<SampleEncoding, WavSpecError>(WavSpecError::UnsupportedFormat),
{
    if channels == 0 {
        Err(WavSpecError::ZeroChannels)
    } else if !is_float && bits_per_sample == 16 {
        Ok(SampleEncoding::Pcm16)
    } else if is_float && bits_per_sample == 32 {
        Ok(SampleEncoding::Float32)
    } else {
        Err(WavSpecError::UnsupportedFormat)
    }
}

} // verus!
