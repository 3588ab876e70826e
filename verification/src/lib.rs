//! Decision logic of a frame-level voice-activity detector: the
//! post-processing that turns per-frame speech decisions into speech
//! segments, and the integer rules of the front end (framing, chunking of
//! inference, memory taps, input checks).

pub mod audio;
pub mod cmvn;
pub mod fbank;
pub mod model;
pub mod postprocess;
pub mod vad;

pub use postprocess::VadConfig;
