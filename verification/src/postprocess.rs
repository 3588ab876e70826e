//! Post-processing of frame decisions into speech segments.

pub mod config;
pub mod pipeline;
pub mod refine;
pub mod runs;
pub mod split;
pub mod state_machine;

pub use config::{funasr_offline_schedule, VadConfig};
pub use pipeline::process_probs;
pub use refine::{extend_speech_segments, fix_smooth_window_start, merge_short_silence_segments};
pub use runs::{decision_to_segment, speech_runs, FRAME_LENGTH_MS, FRAME_SHIFT_MS};
pub use split::{find_split_points, split_long_speech_segments};
pub use state_machine::{smooth_preds_with_state_machine, VadState};
