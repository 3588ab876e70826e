use vstd::prelude::*;

use crate::postprocess::state_machine::is_binary;

verus! {

/// Frame `t` is where speech begins after a non-speech frame.
pub open spec fn is_onset(d: Seq<i32>, t: int) -> bool {
    0 < t < d.len() && d[t - 1] == 0 && d[t] == 1
}

/// Frame `k` lies among the `w` frames just before onset `u`.
pub open spec fn before_onset(d: Seq<i32>, w: int, u: int, k: int) -> bool {
    is_onset(d, u) && k < u <= k + w
}

/// Decisions with the `w` frames before every onset turned into speech.
pub open spec fn fixed_window_start(d: Seq<i32>, w: int) -> Seq<i32> {
    Seq::new(
        d.len(),
        |k: int|
            if exists|u: int| #[trigger] before_onset(d, w, u, k) {
                1i32
            } else {
                d[k]
            },
    )
}

/// Silence that began at `s` and is still open after the frames before `i`
/// have been scanned: it opens where speech stops while no silence is open,
/// and closes at the next onset.
pub open spec fn merge_pending(d: Seq<i32>, i: int) -> Option<int>
    decreases i,
{
    if i <= 1 {
        None
    } else {
        let p = merge_pending(d, i - 1);
        let t = i - 1;
        if d[t - 1] == 1 && d[t] == 0 && p is None {
            Some(t)
        } else if d[t - 1] == 0 && d[t] == 1 {
            None
        } else {
            p
        }
    }
}

/// Frame `k` belongs to the open silence that onset `u` closes, and that
/// silence is shorter than `m` frames.
pub open spec fn fills_gap(d: Seq<i32>, m: int, u: int, k: int) -> bool {
    is_onset(d, u) && match merge_pending(d, u) {
        Some(s) => s <= k < u && u - s < m,
        None => false,
    }
}

/// Decisions with every silence shorter than `m` frames between two speech
/// stretches turned into speech.
pub open spec fn merged_short_silence(d: Seq<i32>, m: int) -> Seq<i32> {
    if m == 0 {
        d
    } else {
        Seq::new(
            d.len(),
            |k: int|
                if exists|u: int| #[trigger] fills_gap(d, m, u, k) {
                    1i32
                } else {
                    d[k]
                },
        )
    }
}

/// Frame `k` is within `e` frames of the speech frame `t`.
pub open spec fn near_speech(d: Seq<i32>, e: int, t: int, k: int) -> bool {
    0 <= t < d.len() && d[t] == 1 && t - e <= k <= t + e
}

/// Decisions where a frame is speech exactly when a speech frame lies
/// within `e` frames of it.
pub open spec fn extended_speech(d: Seq<i32>, e: int) -> Seq<i32> {
    if e == 0 {
        d
    } else {
        Seq::new(
            d.len(),
            |k: int|
                if exists|t: int| #[trigger] near_speech(d, e, t, k) {
                    1i32
                } else {
                    0i32
                },
        )
    }
}

fn copy_decisions(d: &[i32]) -> (out: Vec<i32>)
    ensures
        out@ == d@,
{
    vstd::slice::slice_to_vec(d)
}

fn zeros(n: usize) -> (out: Vec<i32>)
    ensures
        out@ == Seq::new(n as nat, |i: int| 0i32),
{
    let mut out: Vec<i32> = Vec::new();
    let mut i: usize = 0;
    while i < n
        invariant
            i <= n,
            out@ == Seq::new(i as nat, |j: int| 0i32),
        decreases n - i,
    {
        out.push(0);
        i = i + 1;
        assert(out@ =~= Seq::new(i as nat, |j: int| 0i32));
    }
    out
}

/// Smoothing delays every onset by up to `smooth_window_size` frames; this
/// marks the `smooth_window_size` frames before each onset as speech.
pub fn fix_smooth_window_start(decisions: &[i32], smooth_window_size: usize) -> (out: Vec<i32>)
    ensures
        out@ == fixed_window_start(decisions@, smooth_window_size as int),
{
    let d = decisions;
    let w = smooth_window_size;
    let n = d.len();
    let mut out = copy_decisions(d);
    let mut t: usize = 0;
    while t < n
        invariant
            n == d@.len(),
            t <= n,
            out@ == Seq::new(
                n as nat,
                |k: int|
                    if exists|u: int| u < t && #[trigger] before_onset(d@, w as int, u, k) {
                        1i32
                    } else {
                        d@[k]
                    },
            ),
        decreases n - t,
    {
        let ghost prev = out@;
        if t > 0 && d[t - 1] == 0 && d[t] == 1 {
            let start = if t >= w { t - w } else { 0 };
            let mut i = start;
            while i < t
                invariant
                    n == d@.len(),
                    start <= i <= t,
                    t < n,
                    out@.len() == n,
                    forall|k: int| 0 <= k < n ==> #[trigger] out@[k] == if start <= k < i {
                        1i32
                    } else {
                        prev[k]
                    },
                decreases t - i,
            {
                out.set(i, 1);
                i = i + 1;
            }
        }
        assert forall|k: int| 0 <= k < n implies #[trigger] out@[k] == (if exists|u: int|
            u < t + 1 && #[trigger] before_onset(d@, w as int, u, k) {
            1i32
        } else {
            d@[k]
        }) by {
            if before_onset(d@, w as int, t as int, k) {
                assert(exists|u: int| u < t + 1 && #[trigger] before_onset(d@, w as int, u, k));
            }
            if exists|u: int| u < t && #[trigger] before_onset(d@, w as int, u, k) {
                let u = choose|u: int| u < t && #[trigger] before_onset(d@, w as int, u, k);
                assert(u < t + 1 && before_onset(d@, w as int, u, k));
            }
        }
        t = t + 1;
        assert(out@ =~= Seq::new(
            n as nat,
            |k: int|
                if exists|u: int| u < t && #[trigger] before_onset(d@, w as int, u, k) {
                    1i32
                } else {
                    d@[k]
                },
        ));
    }
    assert(out@ =~= fixed_window_start(d@, w as int)) by {
        assert forall|k: int| 0 <= k < n implies out@[k] == fixed_window_start(d@, w as int)[k] by {
            if exists|u: int| #[trigger] before_onset(d@, w as int, u, k) {
                let u = choose|u: int| #[trigger] before_onset(d@, w as int, u, k);
                assert(u < t && before_onset(d@, w as int, u, k));
            }
        }
    }
    out
}

/// Turns every silence shorter than `merge_silence_frame` frames that lies
/// between two speech stretches into speech.
pub fn merge_short_silence_segments(decisions: &[i32], merge_silence_frame: usize) -> (out: Vec<i32>)
    ensures
        out@ == merged_short_silence(decisions@, merge_silence_frame as int),
{
    let d = decisions;
    let m = merge_silence_frame;
    if m == 0 {
        return copy_decisions(d);
    }
    let n = d.len();
    let mut out = copy_decisions(d);
    let mut silence_start: Option<usize> = None;
    let mut t: usize = 0;
    while t < n
        invariant
            n == d@.len(),
            t <= n,
            m > 0,
            t == 0 ==> silence_start is None,
            match silence_start {
                Some(s) => t > 0 && merge_pending(d@, t as int) == Some(s as int) && s < t,
                None => t == 0 || merge_pending(d@, t as int) is None,
            },
            out@ == Seq::new(
                n as nat,
                |k: int|
                    if exists|u: int| u < t && #[trigger] fills_gap(d@, m as int, u, k) {
                        1i32
                    } else {
                        d@[k]
                    },
            ),
        decreases n - t,
    {
        let ghost prev = out@;
        let ghost pend = silence_start;
        if t > 0 && d[t - 1] == 1 && d[t] == 0 && silence_start.is_none() {
            silence_start = Some(t);
        } else if t > 0 && d[t - 1] == 0 && d[t] == 1 {
            if let Some(s) = silence_start {
                let silence = t - s;
                if silence < m {
                    let mut i = s;
                    while i < t
                        invariant
                            n == d@.len(),
                            s <= i <= t,
                            t < n,
                            out@.len() == n,
                            forall|k: int| 0 <= k < n ==> #[trigger] out@[k] == if s <= k < i {
                                1i32
                            } else {
                                prev[k]
                            },
                        decreases t - i,
                    {
                        out.set(i, 1);
                        i = i + 1;
                    }
                }
            }
            silence_start = None;
        }
        assert(t > 0 ==> merge_pending(d@, t + 1) == if d@[t - 1] == 1 && d@[t as int] == 0
            && merge_pending(d@, t as int) is None {
            Some(t as int)
        } else if d@[t - 1] == 0 && d@[t as int] == 1 {
            None
        } else {
            merge_pending(d@, t as int)
        });
        assert forall|k: int| 0 <= k < n implies #[trigger] out@[k] == (if exists|u: int|
            u < t + 1 && #[trigger] fills_gap(d@, m as int, u, k) {
            1i32
        } else {
            d@[k]
        }) by {
            if fills_gap(d@, m as int, t as int, k) {
                assert(exists|u: int| u < t + 1 && #[trigger] fills_gap(d@, m as int, u, k));
            }
            if exists|u: int| u < t && #[trigger] fills_gap(d@, m as int, u, k) {
                let u = choose|u: int| u < t && #[trigger] fills_gap(d@, m as int, u, k);
                assert(u < t + 1 && fills_gap(d@, m as int, u, k));
            }
        }
        t = t + 1;
        assert(out@ =~= Seq::new(
            n as nat,
            |k: int|
                if exists|u: int| u < t && #[trigger] fills_gap(d@, m as int, u, k) {
                    1i32
                } else {
                    d@[k]
                },
        ));
    }
    assert(out@ =~= merged_short_silence(d@, m as int)) by {
        assert forall|k: int| 0 <= k < n implies out@[k] == merged_short_silence(d@, m as int)[k] by {
            if exists|u: int| #[trigger] fills_gap(d@, m as int, u, k) {
                let u = choose|u: int| #[trigger] fills_gap(d@, m as int, u, k);
                assert(u < t && fills_gap(d@, m as int, u, k));
            }
        }
    }
    out
}

/// Widens every speech frame by `extend_speech_frame` frames on both sides.
pub fn extend_speech_segments(decisions: &[i32], extend_speech_frame: usize) -> (out: Vec<i32>)
    ensures
        out@ == extended_speech(decisions@, extend_speech_frame as int),
{
    let d = decisions;
    let e = extend_speech_frame;
    if e == 0 {
        return copy_decisions(d);
    }
    let n = d.len();
    let mut out = zeros(n);
    let mut t: usize = 0;
    while t < n
        invariant
            n == d@.len(),
            t <= n,
            out@ == Seq::new(
                n as nat,
                |k: int|
                    if exists|u: int| u < t && #[trigger] near_speech(d@, e as int, u, k) {
                        1i32
                    } else {
                        0i32
                    },
            ),
        decreases n - t,
    {
        let ghost prev = out@;
        if d[t] == 1 {
            let start = if t >= e { t - e } else { 0 };
            let end = if e >= n - t { n } else { t + e + 1 };
            let mut i = start;
            while i < end
                invariant
                    n == d@.len(),
                    start <= i <= end,
                    end <= n,
                    out@.len() == n,
                    forall|k: int| 0 <= k < n ==> #[trigger] out@[k] == if start <= k < i {
                        1i32
                    } else {
                        prev[k]
                    },
                decreases end - i,
            {
                out.set(i, 1);
                i = i + 1;
            }
        }
        assert forall|k: int| 0 <= k < n implies #[trigger] out@[k] == (if exists|u: int|
            u < t + 1 && #[trigger] near_speech(d@, e as int, u, k) {
            1i32
        } else {
            0i32
        }) by {
            if near_speech(d@, e as int, t as int, k) {
                assert(exists|u: int| u < t + 1 && #[trigger] near_speech(d@, e as int, u, k));
            }
            if exists|u: int| u < t && #[trigger] near_speech(d@, e as int, u, k) {
                let u = choose|u: int| u < t && #[trigger] near_speech(d@, e as int, u, k);
                assert(u < t + 1 && near_speech(d@, e as int, u, k));
            }
        }
        t = t + 1;
        assert(out@ =~= Seq::new(
            n as nat,
            |k: int|
                if exists|u: int| u < t && #[trigger] near_speech(d@, e as int, u, k) {
                    1i32
                } else {
                    0i32
                },
        ));
    }
    assert(out@ =~= extended_speech(d@, e as int)) by {
        assert forall|k: int| 0 <= k < n implies out@[k] == extended_speech(d@, e as int)[k] by {
            if exists|u: int| #[trigger] near_speech(d@, e as int, u, k) {
                let u = choose|u: int| #[trigger] near_speech(d@, e as int, u, k);
                assert(u < t && near_speech(d@, e as int, u, k));
            }
        }
    }
    out
}

/// Frames `s..t` are non-speech, framed by speech at `s - 1` and at `t`.
pub open spec fn interior_silence(d: Seq<i32>, s: int, t: int) -> bool {
    &&& 0 < s < t < d.len()
    &&& d[s - 1] == 1
    &&& d[t] == 1
    &&& forall|j: int| s <= j < t ==> #[trigger] d[j] == 0
}

/// Frames `s..i` are non-speech and follow a speech frame.
pub open spec fn silence_after_speech(d: Seq<i32>, s: int, i: int) -> bool {
    0 < s < i && d[s - 1] == 1 && forall|j: int| s <= j < i ==> #[trigger] d[j] == 0
}

proof fn lemma_merge_pending_binary(d: Seq<i32>, i: int)
    requires
        is_binary(d),
        0 <= i <= d.len(),
    ensures
        forall|s: int| #[trigger] silence_after_speech(d, s, i) <==> merge_pending(d, i) == Some(s),
    decreases i,
{
    if i > 1 {
        lemma_merge_pending_binary(d, i - 1);
        let t = i - 1;
        assert(d[t] == 0 || d[t] == 1);
        assert(d[t - 1] == 0 || d[t - 1] == 1);
        if let Some(x) = merge_pending(d, t) {
            assert(silence_after_speech(d, x, t));
            assert(d[t - 1] == 0);
        }
        assert forall|s: int| #[trigger] silence_after_speech(d, s, i) <==> merge_pending(d, i) == Some(s) by {
            if silence_after_speech(d, s, i) {
                if s < t {
                    assert(d[t - 1] == 0);
                    assert(silence_after_speech(d, s, t));
                }
            }
            if merge_pending(d, i) == Some(s) && merge_pending(d, t) == Some(s) {
                assert(silence_after_speech(d, s, t));
            }
        }
    } else {
        assert forall|s: int| #[trigger] silence_after_speech(d, s, i) <==> merge_pending(d, i) == Some(s) by {}
    }
}

/// On decisions made of 0 and 1 merging turns a frame into speech exactly
/// when it is speech already or lies in a silence shorter than `m` frames
/// between two speech stretches.
pub proof fn lemma_merge_binary(d: Seq<i32>, m: int)
    requires
        is_binary(d),
        m > 0,
    ensures
        forall|k: int|
            0 <= k < d.len() ==> (#[trigger] merged_short_silence(d, m)[k] == 1 <==> (d[k] == 1
                || exists|s: int, t: int|
                interior_silence(d, s, t) && s <= k < t && t - s < m)),
{
    assert forall|k: int| 0 <= k < d.len() implies (#[trigger] merged_short_silence(d, m)[k] == 1
        <==> (d[k] == 1 || exists|s: int, t: int| interior_silence(d, s, t) && s <= k < t && t - s < m)) by {
        if exists|u: int| #[trigger] fills_gap(d, m, u, k) {
            let u = choose|u: int| #[trigger] fills_gap(d, m, u, k);
            lemma_merge_pending_binary(d, u);
            let s = merge_pending(d, u)->0;
            assert(silence_after_speech(d, s, u));
            assert(interior_silence(d, s, u) && s <= k < u && u - s < m);
        }
        if exists|s: int, t: int| interior_silence(d, s, t) && s <= k < t && t - s < m {
            let (s, t) = choose|s: int, t: int| interior_silence(d, s, t) && s <= k < t && t - s < m;
            lemma_merge_pending_binary(d, t);
            assert(d[t - 1] == 0);
            assert(silence_after_speech(d, s, t));
            assert(fills_gap(d, m, t, k));
        }
    }
}

/// Onset correction and merging only turn frames into speech; extension
/// keeps every speech frame of decisions made of 0 and 1.
pub proof fn lemma_refinements_only_add_speech(d: Seq<i32>, w: int, m: int, e: int)
    requires
        e >= 0,
    ensures
        fixed_window_start(d, w).len() == d.len(),
        merged_short_silence(d, m).len() == d.len(),
        extended_speech(d, e).len() == d.len(),
        forall|k: int|
            0 <= k < d.len() ==> #[trigger] fixed_window_start(d, w)[k] == 1
                || fixed_window_start(d, w)[k] == d[k],
        forall|k: int|
            0 <= k < d.len() ==> #[trigger] merged_short_silence(d, m)[k] == 1
                || merged_short_silence(d, m)[k] == d[k],
        forall|k: int|
            0 <= k < d.len() && d[k] == 1 ==> #[trigger] extended_speech(d, e)[k] == 1,
{
    assert forall|k: int| 0 <= k < d.len() && d[k] == 1 implies #[trigger] extended_speech(d, e)[k]
        == 1 by {
        if e > 0 {
            assert(near_speech(d, e, k, k));
        }
    }
}

} // verus!
