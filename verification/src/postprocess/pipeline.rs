use vstd::prelude::*;

use crate::postprocess::config::VadConfig;
use crate::postprocess::runs::{is_run_of, lemma_speech_runs, speech_runs_spec};
use crate::postprocess::refine::{
    fills_gap, interior_silence, is_onset, lemma_merge_binary, near_speech, before_onset,
    extend_speech_segments, extended_speech, fix_smooth_window_start, fixed_window_start,
    merge_short_silence_segments, merged_short_silence,
};
use crate::postprocess::split::{has_break, lemma_split_ceiling, lemma_split_identity_when_short, split_long_segments, split_long_speech_segments};
use crate::postprocess::state_machine::{is_binary, lemma_sm_congruent, lemma_speech_follows_onset, lemma_speech_needs_min_frames, sm_bypassed, speech_onset, stable_speech, lemma_smoothed_shape, smooth_preds_with_state_machine, smoothed_decisions};

verus! {

/// Frame decisions after the whole post-processing chain: state machine,
/// onset correction for the smoothing delay, merging of short silences,
/// extension of speech, and splitting of over-long speech.
pub open spec fn processed_decisions(bin: Seq<i32>, keys: Seq<u32>, cfg: VadConfig) -> Seq<i32> {
    if bin.len() == 0 {
        Seq::empty()
    } else {
        let a = smoothed_decisions(bin, cfg);
        let b = fixed_window_start(a, cfg.smooth_window_size as int);
        let c = merged_short_silence(b, cfg.merge_silence_frame as int);
        let e = extended_speech(c, cfg.extend_speech_frame as int);
        split_long_segments(e, keys, cfg.max_speech_frame as int)
    }
}

/// Post-processes thresholded frame decisions (`binary_preds`, 1 for speech)
/// into final frame decisions; `prob_keys` orders the frames as their speech
/// probabilities do and picks the frames where long speech is split.
pub fn process_probs(binary_preds: &[i32], prob_keys: &[u32], cfg: &VadConfig) -> (out: Vec<i32>)
    requires
        binary_preds@.len() == prob_keys@.len(),
    ensures
        out@ == processed_decisions(binary_preds@, prob_keys@, *cfg),
{
    if binary_preds.len() == 0 {
        return Vec::new();
    }
    let decisions = smooth_preds_with_state_machine(binary_preds, cfg);
    proof {
        lemma_smoothed_shape(binary_preds@, *cfg);
    }
    let fixed = fix_smooth_window_start(decisions.as_slice(), cfg.smooth_window_size);
    let merged = merge_short_silence_segments(fixed.as_slice(), cfg.merge_silence_frame);
    let extended = extend_speech_segments(merged.as_slice(), cfg.extend_speech_frame);
    split_long_speech_segments(extended.as_slice(), prob_keys, cfg.max_speech_frame)
}

/// The post-processing keeps one decision per frame; from decisions made of
/// 0 and 1 it makes decisions made of 0 and 1; and no speech stretch in its
/// result is longer than `max_speech_frame` frames.
pub proof fn lemma_processed_laws(bin: Seq<i32>, keys: Seq<u32>, cfg: VadConfig)
    requires
        bin.len() == keys.len(),
    ensures
        processed_decisions(bin, keys, cfg).len() == bin.len(),
        is_binary(bin) ==> is_binary(processed_decisions(bin, keys, cfg)),
        forall|i: int|
            0 <= i && i + cfg.max_speech_frame + 1 <= bin.len() ==> #[trigger] has_break(
                processed_decisions(bin, keys, cfg),
                i,
                cfg.max_speech_frame as int,
            ),
{
    if bin.len() > 0 {
        lemma_smoothed_shape(bin, cfg);
        let a = smoothed_decisions(bin, cfg);
        let b = fixed_window_start(a, cfg.smooth_window_size as int);
        let c = merged_short_silence(b, cfg.merge_silence_frame as int);
        let e = extended_speech(c, cfg.extend_speech_frame as int);
        let out = split_long_segments(e, keys, cfg.max_speech_frame as int);
        assert(e.len() == bin.len());
        lemma_split_ceiling(e, keys, cfg.max_speech_frame as int);
        if is_binary(bin) {
            assert(is_binary(a));
            assert(is_binary(b));
            assert(is_binary(c));
            assert(is_binary(e));
            assert(is_binary(out));
        }
    }
}

/// No speech segment of the result is longer than `max_speech_frame`
/// frames: thresholded decisions are split into segments that respect the
/// maximum length.
pub proof fn lemma_segments_respect_max_length(bin: Seq<i32>, keys: Seq<u32>, cfg: VadConfig)
    requires
        bin.len() == keys.len(),
        is_binary(bin),
    ensures
        forall|j: int|
            0 <= j < speech_runs_spec(processed_decisions(bin, keys, cfg)).len() ==> (
            #[trigger] speech_runs_spec(processed_decisions(bin, keys, cfg))[j]).1 - speech_runs_spec(
                processed_decisions(bin, keys, cfg),
            )[j].0 <= cfg.max_speech_frame,
{
    let out = processed_decisions(bin, keys, cfg);
    let max = cfg.max_speech_frame as int;
    lemma_processed_laws(bin, keys, cfg);
    lemma_speech_runs(out);
    let r = speech_runs_spec(out);
    assert forall|j: int| 0 <= j < r.len() implies (#[trigger] r[j]).1 - r[j].0 <= max by {
        let s = r[j].0;
        let e = r[j].1;
        assert(is_run_of(out, s, e, out.len() as int));
        if e - s > max {
            assert(has_break(out, s, max));
            let k = choose|k: int| s <= k <= s + max && #[trigger] out[k] != 1;
            assert(out[k] != 0);
            assert(out[k] == 0 || out[k] == 1);
        }
    }
}

/// The state machine comes first: when the raw decisions never hold speech
/// for more than `min_speech_frame` consecutive frames, the result holds no
/// speech at all, whatever the window, merging and extension.
pub proof fn lemma_no_stable_speech_no_output(bin: Seq<i32>, keys: Seq<u32>, cfg: VadConfig)
    requires
        bin.len() == keys.len(),
        !sm_bypassed(cfg),
        forall|t: int|
            0 <= t && t + cfg.min_speech_frame < bin.len() ==> !#[trigger] stable_speech(
                bin,
                t,
                cfg.min_speech_frame as int,
            ),
    ensures
        forall|k: int| 0 <= k < bin.len() ==> #[trigger] processed_decisions(bin, keys, cfg)[k] == 0,
{
    if bin.len() > 0 {
        lemma_smoothed_shape(bin, cfg);
        lemma_speech_needs_min_frames(bin, cfg);
        let a = smoothed_decisions(bin, cfg);
        assert forall|k: int| 0 <= k < a.len() implies #[trigger] a[k] == 0 by {
            if a[k] != 0 {
                assert(a[k] == 1);
                lemma_speech_follows_onset(a, k);
                let t = choose|t: int| t <= k && #[trigger] speech_onset(a, t);
                assert(t + cfg.min_speech_frame < bin.len());
            }
        }
        let b = fixed_window_start(a, cfg.smooth_window_size as int);
        assert forall|u: int, k: int| !#[trigger] before_onset(a, cfg.smooth_window_size as int, u, k) by {
            if is_onset(a, u) {
                assert(a[u] == 0);
            }
        }
        assert(b =~= a);
        let c = merged_short_silence(b, cfg.merge_silence_frame as int);
        assert forall|u: int, k: int| !#[trigger] fills_gap(b, cfg.merge_silence_frame as int, u, k) by {
            if is_onset(b, u) {
                assert(b[u] == 0);
            }
        }
        assert(c =~= b);
        let e = extended_speech(c, cfg.extend_speech_frame as int);
        assert forall|t: int, k: int| !#[trigger] near_speech(c, cfg.extend_speech_frame as int, t, k) by {
            if 0 <= t < c.len() {
                assert(c[t] == 0);
            }
        }
        assert forall|k: int| 0 <= k < e.len() implies #[trigger] e[k] == 0 by {}
        let out = split_long_segments(e, keys, cfg.max_speech_frame as int);
        assert forall|k: int| 0 <= k < out.len() implies #[trigger] out[k] == 0 by {
            assert(e[k] == 0);
        }
    }
}

/// Configurations that agree except, possibly, on their extension.
pub open spec fn same_but_extension(c1: VadConfig, c2: VadConfig) -> bool {
    &&& c1.smooth_window_size == c2.smooth_window_size
    &&& c1.min_speech_frame == c2.min_speech_frame
    &&& c1.max_speech_frame == c2.max_speech_frame
    &&& c1.min_silence_frame == c2.min_silence_frame
    &&& c1.merge_silence_frame == c2.merge_silence_frame
    &&& c1.silence_schedule@ == c2.silence_schedule@
}

/// Extension comes last (when nothing needs splitting): a frame is speech
/// with extension `e` exactly when a frame within `e` of it is speech in the
/// result without extension. Merging thus sees the silences before they are
/// narrowed.
pub proof fn lemma_extension_applies_to_merged_result(
    bin: Seq<i32>,
    keys: Seq<u32>,
    c1: VadConfig,
    c2: VadConfig,
)
    requires
        bin.len() == keys.len(),
        same_but_extension(c1, c2),
        c2.extend_speech_frame == 0,
        c1.extend_speech_frame > 0,
        c1.max_speech_frame >= bin.len(),
    ensures
        forall|k: int|
            0 <= k < bin.len() ==> (#[trigger] processed_decisions(bin, keys, c1)[k] == 1 <==> exists|t: int|
                0 <= t < bin.len() && k - c1.extend_speech_frame <= t <= k + c1.extend_speech_frame
                    && processed_decisions(bin, keys, c2)[t] == 1),
{
    if bin.len() > 0 {
        lemma_sm_congruent(c1, c2, bin);
        lemma_smoothed_shape(bin, c1);
        let a = smoothed_decisions(bin, c1);
        let b = fixed_window_start(a, c1.smooth_window_size as int);
        let m = merged_short_silence(b, c1.merge_silence_frame as int);
        let e = extended_speech(m, c1.extend_speech_frame as int);
        assert(m.len() == bin.len());
        lemma_split_identity_when_short(e, keys, c1.max_speech_frame as int);
        lemma_split_identity_when_short(m, keys, c1.max_speech_frame as int);
        assert(processed_decisions(bin, keys, c2) == m);
        assert(processed_decisions(bin, keys, c1) == e);
        let x = c1.extend_speech_frame as int;
        assert forall|k: int| 0 <= k < bin.len() implies (#[trigger] processed_decisions(bin, keys, c1)[k]
            == 1 <==> exists|t: int|
            0 <= t < bin.len() && k - x <= t <= k + x && processed_decisions(bin, keys, c2)[t] == 1) by {
            if exists|t: int| 0 <= t < bin.len() && k - x <= t <= k + x && m[t] == 1 {
                let t = choose|t: int| 0 <= t < bin.len() && k - x <= t <= k + x && m[t] == 1;
                assert(near_speech(m, x, t, k));
            }
            if e[k] == 1 {
                let t = choose|t: int| #[trigger] near_speech(m, x, t, k);
                assert(0 <= t < bin.len() && k - x <= t <= k + x && m[t] == 1);
            }
        }
    }
}

/// Configurations that agree except, possibly, on merging.
pub open spec fn same_but_merging(c1: VadConfig, c2: VadConfig) -> bool {
    &&& c1.smooth_window_size == c2.smooth_window_size
    &&& c1.min_speech_frame == c2.min_speech_frame
    &&& c1.max_speech_frame == c2.max_speech_frame
    &&& c1.min_silence_frame == c2.min_silence_frame
    &&& c1.extend_speech_frame == c2.extend_speech_frame
    &&& c1.silence_schedule@ == c2.silence_schedule@
}

/// Merging acts on the onset-corrected decisions (without extension or
/// splitting): a frame is speech with merging `m` exactly when it is speech
/// without merging or lies in a silence shorter than `m` frames between two
/// speech stretches of that result.
pub proof fn lemma_merging_fills_short_gaps_of_corrected_result(
    bin: Seq<i32>,
    keys: Seq<u32>,
    c1: VadConfig,
    c2: VadConfig,
)
    requires
        bin.len() == keys.len(),
        is_binary(bin),
        same_but_merging(c1, c2),
        c2.merge_silence_frame == 0,
        c1.merge_silence_frame > 0,
        c1.extend_speech_frame == 0,
        c1.max_speech_frame >= bin.len(),
    ensures
        forall|k: int|
            0 <= k < bin.len() ==> (#[trigger] processed_decisions(bin, keys, c1)[k] == 1 <==> (
            processed_decisions(bin, keys, c2)[k] == 1 || exists|s: int, t: int|
                interior_silence(processed_decisions(bin, keys, c2), s, t) && s <= k < t && t - s
                    < c1.merge_silence_frame)),
{
    if bin.len() > 0 {
        lemma_sm_congruent(c1, c2, bin);
        lemma_smoothed_shape(bin, c1);
        let a = smoothed_decisions(bin, c1);
        let b = fixed_window_start(a, c1.smooth_window_size as int);
        assert(is_binary(b)) by {
            assert forall|k: int| 0 <= k < b.len() implies #[trigger] b[k] == 0 || b[k] == 1 by {
                assert(a[k] == 0 || a[k] == 1);
            }
        }
        let m = merged_short_silence(b, c1.merge_silence_frame as int);
        lemma_split_identity_when_short(m, keys, c1.max_speech_frame as int);
        lemma_split_identity_when_short(b, keys, c1.max_speech_frame as int);
        assert(processed_decisions(bin, keys, c2) == b);
        assert(processed_decisions(bin, keys, c1) == m);
        lemma_merge_binary(b, c1.merge_silence_frame as int);
    }
}

} // verus!
