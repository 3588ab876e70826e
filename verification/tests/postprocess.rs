use fireredvad::postprocess::config::VadConfig;
use fireredvad::postprocess::{
    decision_to_segment, extend_speech_segments, find_split_points, fix_smooth_window_start,
    funasr_offline_schedule, merge_short_silence_segments, process_probs,
    smooth_preds_with_state_machine, speech_runs, split_long_speech_segments,
};

#[test]
fn state_machine_promotes_stable_speech() {
    let cfg = VadConfig {
        min_speech_frame: 3,
        min_silence_frame: 2,
        ..VadConfig::default()
    };
    let b = vec![0, 1, 1, 1, 1, 0, 0, 0];
    let d = smooth_preds_with_state_machine(&b, &cfg);
    assert_eq!(&d[..6], &[0, 1, 1, 1, 1, 1]);
}

#[test]
fn split_long_segments_clamps_end_index_to_probs_len() {
    // A trailing speech run must stay within the probabilities it is split by.
    let probs = vec![0.9f32.to_bits(); 11_304];
    let decisions = vec![1i32; probs.len()];
    let out = split_long_speech_segments(&decisions, &probs, 2_000);
    assert_eq!(out.len(), decisions.len());
}

#[test]
fn default_config_values() {
    let cfg = VadConfig::default();
    assert_eq!(cfg.smooth_window_size, 5);
    assert_eq!(cfg.min_speech_frame, 20);
    assert_eq!(cfg.max_speech_frame, 2000);
    assert_eq!(cfg.min_silence_frame, 20);
    assert_eq!(cfg.merge_silence_frame, 0);
    assert_eq!(cfg.extend_speech_frame, 0);
    assert!(cfg.silence_schedule.is_empty());
}

#[test]
fn state_machine_full_run_drops_speech_after_silence() {
    let cfg = VadConfig {
        min_speech_frame: 3,
        min_silence_frame: 2,
        ..VadConfig::default()
    };
    let d = smooth_preds_with_state_machine(&[0, 1, 1, 1, 1, 0, 0, 0], &cfg);
    assert_eq!(d, vec![0, 1, 1, 1, 1, 1, 1, 0]);
}

#[test]
fn state_machine_ignores_short_speech() {
    let cfg = VadConfig {
        min_speech_frame: 3,
        min_silence_frame: 2,
        ..VadConfig::default()
    };
    let d = smooth_preds_with_state_machine(&[0, 1, 1, 1, 0, 1, 1, 0], &cfg);
    assert_eq!(d, vec![0; 8]);
}

#[test]
fn state_machine_bypassed_without_minimums() {
    let cfg = VadConfig {
        min_speech_frame: 0,
        min_silence_frame: 0,
        ..VadConfig::default()
    };
    let b = vec![0, 1, 0, 1, 1, 0, 2];
    assert_eq!(smooth_preds_with_state_machine(&b, &cfg), b);
}

#[test]
fn dynamic_schedule_matches_documented_table() {
    let cfg = VadConfig::from_cli(5, 20, 2000, 20, 0, 0, true);
    assert_eq!(cfg.silence_schedule, funasr_offline_schedule());
    assert_eq!(cfg.silence_limit_for(0), 200);
    assert_eq!(cfg.silence_limit_for(500), 200);
    assert_eq!(cfg.silence_limit_for(501), 150);
    assert_eq!(cfg.silence_limit_for(1000), 150);
    assert_eq!(cfg.silence_limit_for(1500), 100);
    assert_eq!(cfg.silence_limit_for(3000), 80);
    assert_eq!(cfg.silence_limit_for(4500), 40);
    assert_eq!(cfg.silence_limit_for(4501), 10);
    assert_eq!(cfg.silence_limit_for(usize::MAX), 10);
    let fixed = VadConfig::from_cli(5, 20, 2000, 20, 0, 0, false);
    assert_eq!(fixed.silence_limit_for(4501), 20);
}

#[test]
fn dynamic_schedule_cuts_long_segment_on_short_pause() {
    // A segment of 600 frames is ended by a pause of 150 frames under the
    // schedule, which a fixed minimum of 200 frames would not end.
    let mut b = vec![1i32; 600];
    b.extend(vec![0i32; 160]);
    b.extend(vec![1i32; 5]);
    let dynamic = VadConfig::from_cli(1, 1, 2000, 200, 0, 0, true);
    let d = smooth_preds_with_state_machine(&b, &dynamic);
    assert_eq!(d[600 + 150], 0);
    assert_eq!(d[600 + 149], 1);
    let fixed = VadConfig::from_cli(1, 1, 2000, 200, 0, 0, false);
    let d = smooth_preds_with_state_machine(&b, &fixed);
    assert_eq!(d[600 + 159], 1);
}

#[test]
fn schedule_ignores_min_silence_frame() {
    let mut b = vec![1i32; 600];
    b.extend(vec![0i32; 160]);
    let a = smooth_preds_with_state_machine(&b, &VadConfig::from_cli(1, 1, 2000, 3, 0, 0, true));
    let c = smooth_preds_with_state_machine(&b, &VadConfig::from_cli(1, 1, 2000, 90, 0, 0, true));
    assert_eq!(a, c);
}

#[test]
fn from_cli_raises_zero_lengths() {
    let cfg = VadConfig::from_cli(0, 0, 0, 0, 7, 9, false);
    assert_eq!(cfg.smooth_window_size, 1);
    assert_eq!(cfg.min_speech_frame, 1);
    assert_eq!(cfg.max_speech_frame, 1);
    assert_eq!(cfg.min_silence_frame, 0);
    assert_eq!(cfg.merge_silence_frame, 7);
    assert_eq!(cfg.extend_speech_frame, 9);
    assert!(cfg.silence_schedule.is_empty());
}

#[test]
fn fix_window_start_marks_frames_before_onsets() {
    let out = fix_smooth_window_start(&[0, 0, 0, 0, 1, 1, 0, 0, 0, 1], 2);
    assert_eq!(out, vec![0, 0, 1, 1, 1, 1, 0, 1, 1, 1]);
    // Onsets near the start clip at frame 0.
    assert_eq!(fix_smooth_window_start(&[0, 1, 0], 5), vec![1, 1, 0]);
}

#[test]
fn merge_fills_only_short_interior_silence() {
    let out = merge_short_silence_segments(&[1, 1, 0, 0, 1, 0, 0, 0, 1, 0, 0], 3);
    assert_eq!(out, vec![1, 1, 1, 1, 1, 0, 0, 0, 1, 0, 0]);
    // Leading silence is never merged.
    assert_eq!(merge_short_silence_segments(&[0, 1, 1], 5), vec![0, 1, 1]);
    assert_eq!(merge_short_silence_segments(&[1, 0, 1], 0), vec![1, 0, 1]);
}

#[test]
fn extend_widens_speech_both_ways() {
    let out = extend_speech_segments(&[0, 0, 0, 1, 0, 0, 0, 0, 1], 1);
    assert_eq!(out, vec![0, 0, 1, 1, 1, 0, 0, 1, 1]);
    assert_eq!(extend_speech_segments(&[0, 1, 0, 0], usize::MAX), vec![1, 1, 1, 1]);
    assert_eq!(extend_speech_segments(&[0, 2, 1], 0), vec![0, 2, 1]);
}

#[test]
fn speech_runs_follow_ones_and_zeros() {
    assert_eq!(speech_runs(&[0, 1, 1, 0, 2, 1, 0, 1]), vec![(1, 3), (5, 6), (7, 8)]);
    assert_eq!(speech_runs(&[]), vec![]);
    assert_eq!(speech_runs(&[0, 0]), vec![]);
}

#[test]
fn segments_are_in_milliseconds() {
    let d = [0, 1, 1, 0, 0, 1, 1];
    assert_eq!(decision_to_segment(&d, Some(50)), vec![(10, 30), (50, 50)]);
    assert_eq!(decision_to_segment(&d, Some(100)), vec![(10, 30), (50, 95)]);
    assert_eq!(decision_to_segment(&[1, 1, 0], None), vec![(0, 20)]);
    assert_eq!(decision_to_segment(&[1, 1], None), vec![(0, 45)]);
}

#[test]
fn split_points_pick_low_probability_frames() {
    assert_eq!(find_split_points(&[5, 4, 3, 9, 1, 7, 6, 2, 8, 3], 4), vec![2, 6]);
    // The first of equal minima is taken.
    assert_eq!(find_split_points(&[1, 1, 1, 1, 1], 2), vec![1, 3]);
    assert_eq!(find_split_points(&[1, 2], 5), vec![]);
    // With no room left every frame splits.
    assert_eq!(find_split_points(&[3, 3], 0), vec![0, 1]);
}

#[test]
fn split_caps_speech_runs() {
    let d = [1, 1, 1, 1, 1, 1, 1, 1, 1, 1, 0];
    let p = [5, 4, 3, 9, 1, 7, 6, 2, 8, 3, 0];
    assert_eq!(
        split_long_speech_segments(&d, &p, 4),
        vec![1, 1, 0, 1, 1, 1, 0, 1, 1, 1, 0]
    );
}

#[test]
fn full_postprocess_chain() {
    let b = vec![
        0, 0, 1, 1, 1, 1, 1, 1, 0, 1, 1, 1, 1, 0, 0, 0, 0, 0, 1, 1, 1, 1, 1, 1, 1, 1, 0, 0, 0, 0,
    ];
    let p: Vec<u32> = vec![
        9, 8, 7, 6, 5, 4, 3, 2, 1, 0, 9, 8, 7, 6, 5, 4, 3, 2, 1, 0, 9, 8, 7, 6, 5, 4, 3, 2, 1, 0,
    ];
    let cfg = VadConfig {
        smooth_window_size: 2,
        min_speech_frame: 3,
        max_speech_frame: 5,
        min_silence_frame: 4,
        merge_silence_frame: 0,
        extend_speech_frame: 0,
        silence_schedule: Vec::new(),
    };
    assert_eq!(
        process_probs(&b, &p, &cfg),
        vec![
            1, 1, 1, 1, 0, 1, 1, 1, 1, 0, 1, 1, 1, 1, 0, 1, 1, 1, 1, 0, 1, 1, 1, 1, 0, 1, 1, 1, 1,
            1
        ]
    );
    let cfg = VadConfig {
        smooth_window_size: 1,
        min_speech_frame: 2,
        max_speech_frame: 100,
        min_silence_frame: 2,
        merge_silence_frame: 5,
        extend_speech_frame: 1,
        silence_schedule: Vec::new(),
    };
    let mut expected = vec![1; 29];
    expected.push(0);
    assert_eq!(process_probs(&b, &p, &cfg), expected);
    assert_eq!(process_probs(&[], &[], &cfg), Vec::<i32>::new());
}

#[test]
fn postprocess_never_leaves_speech_longer_than_max() {
    let b = vec![1i32; 50];
    let p: Vec<u32> = (0..50u32).map(|i| (i * 7) % 11).collect();
    let cfg = VadConfig {
        smooth_window_size: 1,
        min_speech_frame: 1,
        max_speech_frame: 6,
        min_silence_frame: 1,
        merge_silence_frame: 0,
        extend_speech_frame: 0,
        silence_schedule: Vec::new(),
    };
    let out = process_probs(&b, &p, &cfg);
    let mut run = 0;
    for v in out {
        run = if v == 1 { run + 1 } else { 0 };
        assert!(run <= 6);
    }
}

#[test]
fn split_trailing_run_reaches_end_of_last_frame() {
    // An open run ends 25 ms after its last frame start: two frames further.
    let d = [1, 1, 1, 1, 1];
    assert_eq!(
        split_long_speech_segments(&d, &[5, 4, 3, 9, 1, 7, 6], 3),
        vec![1, 1, 0, 1, 0]
    );
    assert_eq!(split_long_speech_segments(&d, &[5, 4, 3, 9, 1], 3), vec![1, 1, 0, 1, 1]);
    // Fewer keys than decisions clamp the searched window.
    assert_eq!(
        split_long_speech_segments(&[1, 1, 1, 1, 1, 1], &[3, 1, 2, 0], 1),
        vec![0, 0, 0, 1, 1, 1]
    );
}
