use vstd::prelude::*;

use crate::postprocess::config::{silence_limit, VadConfig};

verus! {

/// Phase of the speech/silence state machine.
#[derive(Debug, Clone, Copy, PartialEq, Eq, Structural)]
pub enum VadState {
    Silence,
    PossibleSpeech,
    Speech,
    PossibleSilence,
}

/// `out` with the frames `a..b` set to speech.
pub open spec fn fill_ones(out: Seq<i32>, a: int, b: int) -> Seq<i32> {
    Seq::new(out.len(), |i: int| if a <= i < b { 1i32 } else { out[i] })
}

/// Whether a frame in phase `st` is reported as speech.
pub open spec fn reports_speech(st: VadState) -> bool {
    st == VadState::Speech || st == VadState::PossibleSilence
}

/// One frame of the state machine: the machine is `(phase, start of the
/// candidate speech, start of the candidate silence, decisions so far)` and
/// frame `t` carries the raw decision `b`. Promotion to speech marks the whole
/// candidate stretch as speech.
pub open spec fn sm_step(
    cfg: VadConfig,
    b: i32,
    t: int,
    m: (VadState, int, int, Seq<i32>),
) -> (VadState, int, int, Seq<i32>) {
    let (st, ss, sl, out) = m;
    let next: (VadState, int, int, Seq<i32>) = match st {
        VadState::Silence => if b == 1 {
            (VadState::PossibleSpeech, t, sl, out)
        } else {
            m
        },
        VadState::PossibleSpeech => if b == 1 {
            if t - ss >= cfg.min_speech_frame {
                (VadState::Speech, ss, sl, fill_ones(out, ss, t))
            } else {
                m
            }
        } else {
            (VadState::Silence, ss, sl, out)
        },
        VadState::Speech => if b == 0 {
            (VadState::PossibleSilence, ss, t, out)
        } else {
            m
        },
        VadState::PossibleSilence => if b == 0 {
            if t - sl >= silence_limit(cfg, sl - ss) {
                (VadState::Silence, ss, sl, out)
            } else {
                m
            }
        } else {
            (VadState::Speech, ss, sl, out)
        },
    };
    (next.0, next.1, next.2, next.3.push(if reports_speech(next.0) { 1i32 } else { 0i32 }))
}

/// The machine after the first `n` frames of `bin`.
pub open spec fn sm_run(cfg: VadConfig, bin: Seq<i32>, n: nat) -> (VadState, int, int, Seq<i32>)
    decreases n,
{
    if n == 0 {
        (VadState::Silence, 0, 0, Seq::<i32>::empty())
    } else {
        sm_step(cfg, bin[n - 1], n - 1, sm_run(cfg, bin, (n - 1) as nat))
    }
}

/// Whether the configuration leaves the raw decisions untouched.
pub open spec fn sm_bypassed(cfg: VadConfig) -> bool {
    cfg.min_speech_frame == 0 && cfg.min_silence_frame == 0 && cfg.silence_schedule@.len() == 0
}

/// Decisions of the state machine over the whole of `bin`.
pub open spec fn smoothed_decisions(bin: Seq<i32>, cfg: VadConfig) -> Seq<i32> {
    if sm_bypassed(cfg) {
        bin
    } else {
        sm_run(cfg, bin, bin.len()).3
    }
}

/// Every decision is speech (1) or silence (0).
pub open spec fn is_binary(s: Seq<i32>) -> bool {
    forall|i: int| 0 <= i < s.len() ==> #[trigger] s[i] == 0 || s[i] == 1
}

proof fn lemma_sm_run_shape(cfg: VadConfig, bin: Seq<i32>, n: nat)
    requires
        n <= bin.len(),
    ensures
        sm_run(cfg, bin, n).3.len() == n,
        is_binary(sm_run(cfg, bin, n).3),
        0 <= sm_run(cfg, bin, n).1 <= n,
        0 <= sm_run(cfg, bin, n).2 <= n,
        sm_run(cfg, bin, n).0 == VadState::PossibleSilence ==> sm_run(cfg, bin, n).1
            <= sm_run(cfg, bin, n).2,
    decreases n,
{
    if n > 0 {
        lemma_sm_run_shape(cfg, bin, (n - 1) as nat);
    }
}

/// Every stage of the state machine keeps one decision per frame, and each
/// decision is speech (1) or silence (0).
pub proof fn lemma_smoothed_shape(bin: Seq<i32>, cfg: VadConfig)
    ensures
        smoothed_decisions(bin, cfg).len() == bin.len(),
        !sm_bypassed(cfg) || is_binary(bin) ==> is_binary(smoothed_decisions(bin, cfg)),
{
    lemma_sm_run_shape(cfg, bin, bin.len());
}

fn fill_ones_in_place(v: &mut Vec<i32>, a: usize, b: usize)
    requires
        a <= b <= old(v)@.len(),
    ensures
        final(v)@ == fill_ones(old(v)@, a as int, b as int),
{
    let mut i = a;
    while i < b
        invariant
            a <= i <= b,
            b <= v@.len(),
            v@ == fill_ones(old(v)@, a as int, i as int),
        decreases b - i,
    {
        v.set(i, 1);
        i = i + 1;
        assert(v@ =~= fill_ones(old(v)@, a as int, i as int));
    }
    assert(v@ =~= fill_ones(old(v)@, a as int, b as int));
}

/// Runs the four-phase state machine over raw speech decisions: speech is
/// accepted once it has lasted past `min_speech_frame` frames (and then
/// counts from its first frame), and is left once a pause lasts the silence
/// limit of the configuration.
pub fn smooth_preds_with_state_machine(binary_preds: &[i32], cfg: &VadConfig) -> (d: Vec<i32>)
    ensures
        d@ == smoothed_decisions(binary_preds@, *cfg),
{
    if cfg.min_speech_frame == 0 && cfg.min_silence_frame == 0 && cfg.silence_schedule.len() == 0 {
        return vstd::slice::slice_to_vec(binary_preds);
    }
    let n = binary_preds.len();
    let mut decisions: Vec<i32> = Vec::new();
    let mut state = VadState::Silence;
    let mut speech_start: usize = 0;
    let mut silence_start: usize = 0;
    let mut t: usize = 0;
    while t < n
        invariant
            n == binary_preds@.len(),
            t <= n,
            sm_run(*cfg, binary_preds@, t as nat) == (
                state,
                speech_start as int,
                silence_start as int,
                decisions@,
            ),
            decisions@.len() == t,
            speech_start <= t,
            silence_start <= t,
            state == VadState::PossibleSilence ==> speech_start <= silence_start,
        decreases n - t,
    {
        let is_speech = binary_preds[t];
        match state {
            VadState::Silence => {
                if is_speech == 1 {
                    state = VadState::PossibleSpeech;
                    speech_start = t;
                }
            },
            VadState::PossibleSpeech => {
                if is_speech == 1 {
                    if t - speech_start >= cfg.min_speech_frame {
                        state = VadState::Speech;
                        fill_ones_in_place(&mut decisions, speech_start, t);
                    }
                } else {
                    state = VadState::Silence;
                }
            },
            VadState::Speech => {
                if is_speech == 0 {
                    state = VadState::PossibleSilence;
                    silence_start = t;
                }
            },
            VadState::PossibleSilence => {
                if is_speech == 0 {
                    let limit = cfg.silence_limit_for(silence_start - speech_start);
                    if t - silence_start >= limit {
                        state = VadState::Silence;
                    }
                } else {
                    state = VadState::Speech;
                }
            },
        }
        let v: i32 = if state == VadState::Speech || state == VadState::PossibleSilence {
            1
        } else {
            0
        };
        decisions.push(v);
        t = t + 1;
    }
    decisions
}

/// Frame `t` is where a stretch of speech begins in `out`.
pub open spec fn speech_onset(out: Seq<i32>, t: int) -> bool {
    0 <= t < out.len() && out[t] == 1 && (t == 0 || out[t - 1] == 0)
}

/// The raw decisions hold speech on all frames `t..=t + min`.
pub open spec fn stable_speech(bin: Seq<i32>, t: int, min: int) -> bool {
    forall|k: int| t <= k <= t + min ==> #[trigger] bin[k] == 1
}

proof fn lemma_sm_onsets(cfg: VadConfig, bin: Seq<i32>, n: nat)
    requires
        n <= bin.len(),
    ensures
        ({
            let m = sm_run(cfg, bin, n);
            &&& m.3.len() == n
            &&& n > 0 ==> m.3[n - 1] == if reports_speech(m.0) {
                1i32
            } else {
                0i32
            }
            &&& m.0 == VadState::PossibleSpeech ==> 0 <= m.1 < n
            &&& m.0 == VadState::PossibleSpeech ==> forall|k: int|
                m.1 <= k < n ==> #[trigger] m.3[k] == 0
            &&& m.0 == VadState::PossibleSpeech ==> forall|k: int|
                m.1 <= k < n ==> #[trigger] bin[k] == 1
            &&& forall|t: int|
                #[trigger] speech_onset(m.3, t) ==> t + cfg.min_speech_frame < n && stable_speech(
                    bin,
                    t,
                    cfg.min_speech_frame as int,
                )
        }),
    decreases n,
{
    lemma_sm_run_shape(cfg, bin, n);
    if n > 0 {
        let t = n - 1;
        lemma_sm_onsets(cfg, bin, t as nat);
        lemma_sm_run_shape(cfg, bin, t as nat);
        let prev = sm_run(cfg, bin, t as nat);
        let cur = sm_run(cfg, bin, n);
        let b = bin[t];
        let promoted = prev.0 == VadState::PossibleSpeech && b == 1 && t - prev.1
            >= cfg.min_speech_frame;
        if promoted {
            let ss = prev.1;
            assert(0 <= ss < t);
            assert(cur.3 == fill_ones(prev.3, ss, t).push(1i32));
            assert forall|k: int| ss <= k <= t implies #[trigger] bin[k] == 1 by {
                if k < t {
                    assert(bin[k] == 1 && prev.3[k] == 0);
                }
            }
            assert forall|u: int| #[trigger] speech_onset(cur.3, u) implies u
                + cfg.min_speech_frame < n && stable_speech(
                bin,
                u,
                cfg.min_speech_frame as int,
            ) by {
                if u < ss {
                    assert(cur.3[u] == prev.3[u]);
                    if u > 0 {
                        assert(cur.3[u - 1] == prev.3[u - 1]);
                    }
                    assert(speech_onset(prev.3, u));
                } else if u > ss {
                    assert(cur.3[u - 1] == 1);
                }
            }
        } else {
            assert(cur.3 == prev.3.push(cur.3[t]));
            assert forall|u: int| #[trigger] speech_onset(cur.3, u) implies u
                + cfg.min_speech_frame < n && stable_speech(
                bin,
                u,
                cfg.min_speech_frame as int,
            ) by {
                if u < t {
                    assert(cur.3[u] == prev.3[u]);
                    if u > 0 {
                        assert(cur.3[u - 1] == prev.3[u - 1]);
                    }
                    assert(speech_onset(prev.3, u));
                } else {
                    if t > 0 {
                        assert(prev.3[t - 1] == cur.3[t - 1]);
                    }
                    assert(false);
                }
            }
            if cur.0 == VadState::PossibleSpeech {
                assert forall|k: int| cur.1 <= k < n implies #[trigger] cur.3[k] == 0 by {
                    if k < t {
                        assert(cur.3[k] == prev.3[k]);
                    }
                }
            }
        }
    }
}

/// Speech begins only where the raw decisions hold speech for more than
/// `min_speech_frame` consecutive frames, starting at that frame.
pub proof fn lemma_speech_needs_min_frames(bin: Seq<i32>, cfg: VadConfig)
    requires
        !sm_bypassed(cfg),
    ensures
        forall|t: int|
            #[trigger] speech_onset(smoothed_decisions(bin, cfg), t) ==> t + cfg.min_speech_frame
                < bin.len() && stable_speech(bin, t, cfg.min_speech_frame as int),
{
    lemma_sm_onsets(cfg, bin, bin.len());
}

proof fn lemma_sm_run_ignores_min_silence(c1: VadConfig, c2: VadConfig, bin: Seq<i32>, n: nat)
    requires
        c1.silence_schedule@.len() > 0,
        c1.silence_schedule@ == c2.silence_schedule@,
        c1.min_speech_frame == c2.min_speech_frame,
    ensures
        sm_run(c1, bin, n) == sm_run(c2, bin, n),
    decreases n,
{
    if n > 0 {
        lemma_sm_run_ignores_min_silence(c1, c2, bin, (n - 1) as nat);
        assert(forall|l: int| silence_limit(c1, l) == silence_limit(c2, l));
    }
}

/// With a silence schedule, the fixed `min_silence_frame` plays no part.
pub proof fn lemma_schedule_overrides_min_silence(bin: Seq<i32>, c1: VadConfig, c2: VadConfig)
    requires
        c1.silence_schedule@.len() > 0,
        c1.silence_schedule@ == c2.silence_schedule@,
        c1.min_speech_frame == c2.min_speech_frame,
    ensures
        smoothed_decisions(bin, c1) == smoothed_decisions(bin, c2),
{
    lemma_sm_run_ignores_min_silence(c1, c2, bin, bin.len());
}

/// Frame `t` is where a stretch of speech ends in `out`.
pub open spec fn speech_offset(out: Seq<i32>, t: int) -> bool {
    0 < t < out.len() && out[t - 1] == 1 && out[t] == 0
}

/// Speech `[ss, sl)` was followed by the pause `sl..=t` in the raw
/// decisions, and the pause lasted the silence limit of that speech.
pub open spec fn pause_ends_speech(
    cfg: VadConfig,
    bin: Seq<i32>,
    out: Seq<i32>,
    ss: int,
    sl: int,
    t: int,
) -> bool {
    &&& 0 <= ss < sl <= t
    &&& t - sl >= silence_limit(cfg, sl - ss)
    &&& forall|k: int| sl <= k <= t ==> #[trigger] bin[k] == 0
    &&& forall|k: int| ss <= k < sl ==> #[trigger] out[k] == 1
}

/// Speech ends at frame `t` only after a pause that lasted the silence limit
/// of the speech before it.
pub open spec fn offset_justified(cfg: VadConfig, bin: Seq<i32>, out: Seq<i32>, t: int) -> bool {
    exists|ss: int, sl: int| #[trigger] pause_ends_speech(cfg, bin, out, ss, sl, t)
}

proof fn lemma_sm_offsets(cfg: VadConfig, bin: Seq<i32>, n: nat)
    requires
        n <= bin.len(),
    ensures
        ({
            let m = sm_run(cfg, bin, n);
            &&& m.0 == VadState::Speech ==> 0 <= m.1 < n && forall|k: int|
                m.1 <= k < n ==> #[trigger] m.3[k] == 1
            &&& m.0 == VadState::PossibleSilence ==> 0 <= m.1 < m.2 < n && (forall|k: int|
                m.1 <= k < n ==> #[trigger] m.3[k] == 1) && (forall|k: int|
                m.2 <= k < n ==> #[trigger] bin[k] == 0)
            &&& forall|t: int| #[trigger]
                speech_offset(m.3, t) ==> offset_justified(cfg, bin, m.3, t)
        }),
    decreases n,
{
    lemma_sm_onsets(cfg, bin, n);
    if n > 0 {
        let t = n - 1;
        lemma_sm_offsets(cfg, bin, t as nat);
        lemma_sm_onsets(cfg, bin, t as nat);
        let prev = sm_run(cfg, bin, t as nat);
        let cur = sm_run(cfg, bin, n);
        let b = bin[t];
        let promoted = prev.0 == VadState::PossibleSpeech && b == 1 && t - prev.1
            >= cfg.min_speech_frame;
        let ss = prev.1;
        if promoted {
            assert(cur.3 == fill_ones(prev.3, ss, t).push(1i32));
        } else {
            assert(cur.3 == prev.3.push(cur.3[t]));
        }
        // Earlier speech frames stay speech.
        assert forall|k: int| 0 <= k < t && prev.3[k] == 1 implies #[trigger] cur.3[k] == 1 by {}
        assert forall|u: int| #[trigger] speech_offset(cur.3, u) implies offset_justified(
            cfg,
            bin,
            cur.3,
            u,
        ) by {
            if u < t {
                if promoted {
                    if u >= ss {
                        assert(cur.3[u] == 1);
                    }
                    assert(cur.3[u] == prev.3[u]);
                    if u - 1 >= ss {
                        assert(cur.3[u - 1] == 1);
                        assert(false);
                    }
                    assert(cur.3[u - 1] == prev.3[u - 1]);
                } else {
                    assert(cur.3[u] == prev.3[u] && cur.3[u - 1] == prev.3[u - 1]);
                }
                assert(speech_offset(prev.3, u));
                let (a, c) = choose|a: int, c: int| #[trigger] pause_ends_speech(
                    cfg,
                    bin,
                    prev.3,
                    a,
                    c,
                    u,
                );
                assert forall|k: int| a <= k < c implies #[trigger] cur.3[k] == 1 by {
                    assert(prev.3[k] == 1);
                }
                assert(pause_ends_speech(cfg, bin, cur.3, a, c, u));
            } else {
                assert(u == t);
                assert(!promoted);
                assert(prev.3[t - 1] == 1);
                assert(reports_speech(prev.0));
                assert(prev.0 == VadState::PossibleSilence);
                let sl = prev.2;
                assert forall|k: int| ss <= k < sl implies #[trigger] cur.3[k] == 1 by {
                    assert(prev.3[k] == 1);
                }
                assert forall|k: int| sl <= k <= t implies #[trigger] bin[k] == 0 by {}
                assert(pause_ends_speech(cfg, bin, cur.3, ss, sl, u));
            }
        }
        if cur.0 == VadState::Speech {
            assert forall|k: int| cur.1 <= k < n implies #[trigger] cur.3[k] == 1 by {
                if promoted {
                } else if k < t {
                    assert(prev.3[k] == 1);
                }
            }
        }
        if cur.0 == VadState::PossibleSilence {
            assert forall|k: int| cur.1 <= k < n implies #[trigger] cur.3[k] == 1 by {
                if k < t {
                    assert(prev.3[k] == 1);
                }
            }
            assert forall|k: int| cur.2 <= k < n implies #[trigger] bin[k] == 0 by {}
        }
    }
}

/// Speech is left only after a pause in the raw decisions that lasted the
/// silence limit of the speech before it (`min_silence_frame`, or the
/// schedule's length for that speech).
pub proof fn lemma_speech_ends_after_silence_limit(bin: Seq<i32>, cfg: VadConfig)
    requires
        !sm_bypassed(cfg),
    ensures
        forall|t: int|
            #[trigger] speech_offset(smoothed_decisions(bin, cfg), t) ==> offset_justified(
                cfg,
                bin,
                smoothed_decisions(bin, cfg),
                t,
            ),
{
    lemma_sm_offsets(cfg, bin, bin.len());
}

proof fn lemma_sm_segment_start(cfg: VadConfig, bin: Seq<i32>, n: nat)
    requires
        n <= bin.len(),
    ensures
        sm_run(cfg, bin, n).0 != VadState::Silence ==> (sm_run(cfg, bin, n).1 == 0 || sm_run(
            cfg,
            bin,
            n,
        ).3[sm_run(cfg, bin, n).1 - 1] == 0),
    decreases n,
{
    lemma_sm_onsets(cfg, bin, n);
    if n > 0 {
        let t = n - 1;
        lemma_sm_segment_start(cfg, bin, t as nat);
        lemma_sm_onsets(cfg, bin, t as nat);
        lemma_sm_run_shape(cfg, bin, t as nat);
        let prev = sm_run(cfg, bin, t as nat);
        let cur = sm_run(cfg, bin, n);
        let promoted = prev.0 == VadState::PossibleSpeech && bin[t] == 1 && t - prev.1
            >= cfg.min_speech_frame;
        if promoted {
            assert(cur.3 == fill_ones(prev.3, prev.1, t).push(1i32));
        } else {
            assert(cur.3 == prev.3.push(cur.3[t]));
        }
        if cur.0 != VadState::Silence && cur.1 > 0 {
            if prev.0 == VadState::Silence {
                assert(cur.1 == t);
                assert(prev.3[t - 1] == 0);
            } else {
                assert(cur.1 == prev.1);
            }
            assert(cur.3[cur.1 - 1] == prev.3[cur.1 - 1]);
        }
    }
}

proof fn lemma_sm_stable(cfg: VadConfig, bin: Seq<i32>, n: nat, m: nat)
    requires
        n <= m <= bin.len(),
    ensures
        forall|k: int|
            0 <= k < n && (sm_run(cfg, bin, n).0 != VadState::PossibleSpeech || k < sm_run(
                cfg,
                bin,
                n,
            ).1) ==> #[trigger] sm_run(cfg, bin, m).3[k] == sm_run(cfg, bin, n).3[k],
        sm_run(cfg, bin, m).0 == VadState::PossibleSpeech ==> sm_run(cfg, bin, m).1 >= if sm_run(
            cfg,
            bin,
            n,
        ).0 == VadState::PossibleSpeech {
            sm_run(cfg, bin, n).1
        } else {
            n as int
        },
    decreases m - n,
{
    lemma_sm_run_shape(cfg, bin, n);
    lemma_sm_onsets(cfg, bin, n);
    if m > n {
        let t = m - 1;
        lemma_sm_stable(cfg, bin, n, t as nat);
        lemma_sm_run_shape(cfg, bin, t as nat);
        let prev = sm_run(cfg, bin, t as nat);
        let cur = sm_run(cfg, bin, m);
        let promoted = prev.0 == VadState::PossibleSpeech && bin[t] == 1 && t - prev.1
            >= cfg.min_speech_frame;
        if promoted {
            assert(cur.3 == fill_ones(prev.3, prev.1, t).push(1i32));
        } else {
            assert(cur.3 == prev.3.push(cur.3[t]));
        }
    }
}

proof fn lemma_pause_run(cfg: VadConfig, bin: Seq<i32>, sl: nat, seg: int, n: nat)
    requires
        sl < n <= bin.len(),
        sm_run(cfg, bin, sl).0 == VadState::Speech,
        sm_run(cfg, bin, sl).1 == seg,
        forall|k: int| sl <= k < n ==> #[trigger] bin[k] == 0,
    ensures
        (n - 1 == sl || n - 1 - sl < silence_limit(cfg, sl - seg)) ==> sm_run(cfg, bin, n).0
            == VadState::PossibleSilence && sm_run(cfg, bin, n).1 == seg && sm_run(cfg, bin, n).2
            == sl,
        (n - 1 > sl && n - 1 - sl >= silence_limit(cfg, sl - seg)) ==> sm_run(cfg, bin, n).0
            == VadState::Silence,
    decreases n - sl,
{
    assert(bin[n - 1] == 0);
    if n > sl + 1 {
        lemma_pause_run(cfg, bin, sl, seg, (n - 1) as nat);
    }
}

/// With or without a schedule, a pause ends speech once it has lasted the
/// silence limit of the whole current speech segment: if speech output
/// starts at `seg` and runs up to the raw speech frame `sl - 1`, and the raw
/// decisions then hold silence on `sl..=t` with `t - sl` at least the
/// silence limit for a segment of `sl - seg` frames, frame `t` is silence.
/// The segment counts from its first speech frame, whatever shorter pauses
/// it survived.
pub proof fn lemma_pause_of_silence_limit_ends_speech(
    bin: Seq<i32>,
    cfg: VadConfig,
    seg: int,
    sl: int,
    t: int,
)
    requires
        !sm_bypassed(cfg),
        0 <= seg < sl < t < bin.len(),
        seg == 0 || smoothed_decisions(bin, cfg)[seg - 1] == 0,
        forall|k: int| seg <= k < sl ==> #[trigger] smoothed_decisions(bin, cfg)[k] == 1,
        bin[sl - 1] == 1,
        forall|k: int| sl <= k <= t ==> #[trigger] bin[k] == 0,
        t - sl >= silence_limit(cfg, sl - seg),
    ensures
        smoothed_decisions(bin, cfg)[t] == 0,
{
    let len = bin.len();
    let o = smoothed_decisions(bin, cfg);
    let sln = sl as nat;
    let m = sm_run(cfg, bin, sln);
    lemma_sm_onsets(cfg, bin, sln);
    lemma_sm_offsets(cfg, bin, sln);
    lemma_sm_segment_start(cfg, bin, sln);
    assert(o[sl - 1] == 1);
    assert(m.3[sl - 1] == if reports_speech(m.0) { 1i32 } else { 0i32 });
    if m.0 == VadState::PossibleSpeech {
        let next = sm_run(cfg, bin, (sl + 1) as nat);
        assert(bin[sl] == 0);
        assert(next.0 == VadState::Silence);
        assert(next.3 == m.3.push(next.3[sl]));
        lemma_sm_stable(cfg, bin, (sl + 1) as nat, len);
        assert(o[sl - 1] == next.3[sl - 1]);
        assert(false);
    }
    if m.0 == VadState::Silence {
        lemma_sm_stable(cfg, bin, sln, len);
        assert(o[sl - 1] == m.3[sl - 1]);
        assert(false);
    }
    assert(m.0 == VadState::Speech);
    let ss = m.1;
    lemma_sm_stable(cfg, bin, sln, len);
    assert(forall|k: int| 0 <= k < sl ==> #[trigger] o[k] == m.3[k]);
    if seg < ss {
        assert(o[ss - 1] == m.3[ss - 1]);
        assert(o[ss - 1] == 1);
        assert(false);
    }
    if seg > ss {
        assert(m.3[seg - 1] == 1);
        assert(o[seg - 1] == m.3[seg - 1]);
        assert(false);
    }
    lemma_pause_run(cfg, bin, sln, seg, (t + 1) as nat);
    let fin = sm_run(cfg, bin, (t + 1) as nat);
    assert(fin.0 == VadState::Silence);
    lemma_sm_onsets(cfg, bin, (t + 1) as nat);
    lemma_sm_stable(cfg, bin, (t + 1) as nat, len);
    assert(o[t] == fin.3[t]);
}

proof fn lemma_sm_congruent_upto(c1: VadConfig, c2: VadConfig, bin: Seq<i32>, n: nat)
    requires
        c1.min_speech_frame == c2.min_speech_frame,
        c1.min_silence_frame == c2.min_silence_frame,
        c1.silence_schedule@ == c2.silence_schedule@,
    ensures
        sm_run(c1, bin, n) == sm_run(c2, bin, n),
    decreases n,
{
    assert(forall|l: int| silence_limit(c1, l) == silence_limit(c2, l));
    if n > 0 {
        lemma_sm_congruent_upto(c1, c2, bin, (n - 1) as nat);
    }
}

/// The state machine depends on a configuration only through its minimum
/// speech length, minimum silence length and silence schedule.
pub proof fn lemma_sm_congruent(c1: VadConfig, c2: VadConfig, bin: Seq<i32>)
    requires
        c1.min_speech_frame == c2.min_speech_frame,
        c1.min_silence_frame == c2.min_silence_frame,
        c1.silence_schedule@ == c2.silence_schedule@,
    ensures
        smoothed_decisions(bin, c1) == smoothed_decisions(bin, c2),
{
    lemma_sm_congruent_upto(c1, c2, bin, bin.len());
}

/// In decisions made of 0 and 1, every speech frame follows a speech onset.
pub proof fn lemma_speech_follows_onset(s: Seq<i32>, k: int)
    requires
        is_binary(s),
        0 <= k < s.len(),
        s[k] == 1,
    ensures
        exists|t: int| t <= k && #[trigger] speech_onset(s, t),
    decreases k,
{
    if k == 0 || s[k - 1] == 0 {
        assert(speech_onset(s, k));
    } else {
        assert(s[k - 1] == 0 || s[k - 1] == 1);
        lemma_speech_follows_onset(s, k - 1);
        let t = choose|t: int| t <= k - 1 && #[trigger] speech_onset(s, t);
        assert(t <= k);
    }
}

} // verus!
