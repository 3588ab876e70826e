use vstd::prelude::*;

use crate::postprocess::runs::{in_run, runs_cover, runs_ordered, segment_ms, FRAME_SHIFT_MS, is_run_of, lemma_speech_runs, speech_runs, speech_runs_spec};

verus! {

/// Index of the first smallest key among `keys[lo..hi]` (`lo` when the
/// window is empty).
pub open spec fn window_argmin(keys: Seq<u32>, lo: int, hi: int) -> int
    decreases hi - lo,
{
    if hi <= lo + 1 {
        lo
    } else {
        let r = window_argmin(keys, lo, hi - 1);
        if keys[hi - 1] < keys[r] {
            hi - 1
        } else {
            r
        }
    }
}

/// The chosen split frame lies in its window, or is the window start when
/// the window is empty.
pub proof fn lemma_argmin_bounds(keys: Seq<u32>, lo: int, hi: int)
    ensures
        lo <= window_argmin(keys, lo, hi),
        lo < hi ==> window_argmin(keys, lo, hi) < hi,
        hi <= lo ==> window_argmin(keys, lo, hi) == lo,
    decreases hi - lo,
{
    if hi > lo + 1 {
        lemma_argmin_bounds(keys, lo, hi - 1);
    }
}

/// The chosen split frame is the first frame of smallest key in the window.
pub proof fn lemma_argmin_is_first_min(keys: Seq<u32>, lo: int, hi: int)
    requires
        0 <= lo < hi <= keys.len(),
    ensures
        lo <= window_argmin(keys, lo, hi) < hi,
        forall|j: int| lo <= j < hi ==> keys[window_argmin(keys, lo, hi)] <= #[trigger] keys[j],
        forall|j: int| lo <= j < window_argmin(keys, lo, hi) ==> keys[window_argmin(keys, lo, hi)]
            < #[trigger] keys[j],
    decreases hi - lo,
{
    if hi > lo + 1 {
        lemma_argmin_is_first_min(keys, lo, hi - 1);
    }
}

/// Split frames of `keys[start..]` for segments of at most `max` frames:
/// while more than `max` frames remain, split at the frame of smallest key
/// in the second half of the next `max` frames and go on after it.
pub open spec fn split_points_from(keys: Seq<u32>, start: int, max: int) -> Seq<int>
    decreases keys.len() - start,
{
    if start < 0 || max < 0 || keys.len() - start <= max {
        Seq::empty()
    } else {
        let ws = start + max / 2;
        let we = start + max;
        let p = window_argmin(keys, ws, we);
        proof {
            lemma_argmin_bounds(keys, ws, we);
        }
        seq![p].add(split_points_from(keys, p + 1, max))
    }
}

/// Some point of `pts` lies in the frames `i..=i + max`.
pub open spec fn hits_window(pts: Seq<int>, i: int, max: int) -> bool {
    exists|q: int| 0 <= q < pts.len() && i <= #[trigger] pts[q] <= i + max
}

/// Every window of `max + 1` frames of `keys[start..]` holds a split frame,
/// and every split frame lies in `keys[start..]`.
pub proof fn lemma_split_points_cover(keys: Seq<u32>, start: int, max: int)
    requires
        0 <= start <= keys.len(),
        max >= 0,
    ensures
        forall|q: int|
            0 <= q < split_points_from(keys, start, max).len() ==> start <= #[trigger] split_points_from(
                keys,
                start,
                max,
            )[q] < keys.len(),
        forall|i: int|
            start <= i && i + max + 1 <= keys.len() ==> #[trigger] hits_window(
                split_points_from(keys, start, max),
                i,
                max,
            ),
    decreases keys.len() - start,
{
    let pts = split_points_from(keys, start, max);
    if keys.len() - start > max {
        let ws = start + max / 2;
        let we = start + max;
        let p = window_argmin(keys, ws, we);
        lemma_argmin_bounds(keys, ws, we);
        lemma_split_points_cover(keys, p + 1, max);
        let rest = split_points_from(keys, p + 1, max);
        assert(pts == seq![p].add(rest));
        assert(pts[0] == p);
        assert forall|q: int| 0 <= q < pts.len() implies start <= #[trigger] pts[q] < keys.len() by {
            if q > 0 {
                assert(pts[q] == rest[q - 1]);
            }
        }
        assert forall|i: int| start <= i && i + max + 1 <= keys.len() implies #[trigger] hits_window(
            pts,
            i,
            max,
        ) by {
            if i <= p {
                assert(0 <= 0 < pts.len() && i <= pts[0] <= i + max);
            } else {
                assert(hits_window(rest, i, max));
                let q = choose|q: int| 0 <= q < rest.len() && i <= #[trigger] rest[q] <= i + max;
                assert(pts[q + 1] == rest[q]);
                assert(0 <= q + 1 < pts.len() && i <= pts[q + 1] <= i + max);
            }
        }
    }
}

/// Split frames for a speech run whose per-frame keys are `keys`.
pub fn find_split_points(probs: &[u32], max_speech_frame: usize) -> (points: Vec<usize>)
    ensures
        points@.len() == split_points_from(probs@, 0, max_speech_frame as int).len(),
        forall|q: int|
            0 <= q < points@.len() ==> points@[q] as int == split_points_from(
                probs@,
                0,
                max_speech_frame as int,
            )[q],
{
    let keys = probs;
    let max = max_speech_frame;
    let length = keys.len();
    let mut split_points: Vec<usize> = Vec::new();
    let mut start: usize = 0;
    let ghost all = split_points_from(keys@, 0, max as int);
    while start < length && length - start > max
        invariant
            length == keys@.len(),
            start <= length,
            all == split_points_from(keys@, 0, max as int),
            all.len() == split_points@.len() + split_points_from(keys@, start as int, max as int).len(),
            forall|q: int|
                0 <= q < split_points@.len() ==> split_points@[q] as int == #[trigger] all[q],
            forall|q: int|
                0 <= q < split_points_from(keys@, start as int, max as int).len() ==> all[q
                    + split_points@.len()] == #[trigger] split_points_from(
                    keys@,
                    start as int,
                    max as int,
                )[q],
        decreases length - start,
    {
        let ws = start + max / 2;
        let we = start + max;
        let mut min_idx = ws;
        proof {
            lemma_argmin_bounds(keys@, ws as int, we as int);
        }
        if ws < we {
            let mut min_v = keys[ws];
            let mut i = ws + 1;
            while i < we
                invariant
                    length == keys@.len(),
                    ws < i <= we,
                    we < length,
                    min_idx == window_argmin(keys@, ws as int, i as int),
                    ws <= min_idx < i,
                    min_v == keys@[min_idx as int],
                decreases we - i,
            {
                let v = keys[i];
                if v < min_v {
                    min_v = v;
                    min_idx = i;
                }
                i = i + 1;
            }
        }
        let ghost tail = split_points_from(keys@, start as int, max as int);
        let ghost rest = split_points_from(keys@, min_idx + 1, max as int);
        assert(min_idx as int == window_argmin(keys@, ws as int, we as int));
        assert(tail == seq![min_idx as int].add(rest));
        split_points.push(min_idx);
        start = min_idx + 1;
        assert forall|q: int| 0 <= q < split_points@.len() implies split_points@[q] as int
            == #[trigger] all[q] by {
            if q == split_points@.len() - 1 {
                assert(all[q] == tail[0]);
            }
        }
        assert forall|q: int|
            0 <= q < split_points_from(keys@, start as int, max as int).len() implies all[q
            + split_points@.len()] == #[trigger] split_points_from(keys@, start as int, max as int)[q] by {
            assert(tail[q + 1] == rest[q]);
        }
    }
    assert(split_points_from(keys@, start as int, max as int).len() == 0);
    split_points
}

/// Frames `[start, end)` searched for split frames of speech run `run` of
/// `n` decisions: the run's segment without a duration limit, brought back
/// to whole frames and clamped to the `p` keys. A run still open at the end
/// thus reaches the end of its last frame.
pub open spec fn split_window(run: (int, int), n: int, p: int) -> (int, int) {
    let seg = segment_ms(run, n, None);
    let s = seg.0 / FRAME_SHIFT_MS as int;
    let e = seg.1 / FRAME_SHIFT_MS as int;
    (if s < p {
        s
    } else {
        p
    }, if e < p {
        e
    } else {
        p
    })
}

/// Frame `k` is a split frame of run `j`: the run's window holds more than
/// `max` frames and `k` is one of the split frames chosen inside it.
pub open spec fn is_split_frame(d: Seq<i32>, keys: Seq<u32>, max: int, j: int, k: int) -> bool {
    let runs = speech_runs_spec(d);
    let w = split_window(runs[j], d.len() as int, keys.len() as int);
    &&& 0 <= j < runs.len()
    &&& w.1 - w.0 > max
    &&& split_points_from(keys.subrange(w.0, w.1), 0, max).contains(k - w.0)
}

/// Decisions with every split frame of every over-long speech run turned
/// into silence.
pub open spec fn split_long_segments(d: Seq<i32>, keys: Seq<u32>, max: int) -> Seq<i32> {
    Seq::new(
        d.len(),
        |k: int|
            if exists|j: int| #[trigger] is_split_frame(d, keys, max, j, k) {
                0i32
            } else {
                d[k]
            },
    )
}

/// Splits every speech run longer than `max_speech_frame` frames at frames
/// of low speech probability; `probs` orders the frames as their speech
/// probabilities do.
pub fn split_long_speech_segments(decisions: &[i32], probs: &[u32], max_speech_frame: usize) -> (out: Vec<i32>)
    ensures
        out@ == split_long_segments(decisions@, probs@, max_speech_frame as int),
{
    let d = decisions;
    let max = max_speech_frame;
    let n = d.len();
    let p = probs.len();
    let mut out = vstd::slice::slice_to_vec(d);
    let runs = speech_runs(d);
    let ghost sr = speech_runs_spec(d@);
    proof {
        lemma_speech_runs(d@);
    }
    let mut j: usize = 0;
    while j < runs.len()
        invariant
            n == d@.len(),
            p == probs@.len(),
            sr == speech_runs_spec(d@),
            runs@.len() == sr.len(),
            forall|i: int|
                0 <= i < runs@.len() ==> runs@[i].0 as int == sr[i].0 && runs@[i].1 as int
                    == sr[i].1,
            forall|i: int|
                0 <= i < sr.len() ==> is_run_of(d@, #[trigger] sr[i].0, sr[i].1, n as int),
            j <= runs@.len(),
            out@ == Seq::new(
                n as nat,
                |k: int|
                    if exists|jj: int| jj < j && #[trigger] is_split_frame(d@, probs@, max as int, jj, k) {
                        0i32
                    } else {
                        d@[k]
                    },
            ),
        decreases runs@.len() - j,
    {
        let ghost prev = out@;
        let (s, e) = runs[j];
        assert(is_run_of(d@, sr[j as int].0, sr[j as int].1, n as int));
        let start = if s < p { s } else { p };
        let end = if e == n {
            if p > n && p - n >= 2 {
                n + 2
            } else {
                p
            }
        } else if e < p {
            e
        } else {
            p
        };
        assert(split_window(sr[j as int], n as int, p as int) == (start as int, end as int)) by {
            assert((s as int * 10) / 10 == s);
            assert((e as int * 10) / 10 == e);
            assert((n as int * 10 + 25) / 10 == n + 2);
        }
        if end > start && end - start > max {
            let sub = vstd::slice::slice_subrange(probs, start, end);
            let points = find_split_points(sub, max);
            proof {
                lemma_split_points_cover(sub@, 0, max as int);
            }
            let ghost pts = split_points_from(sub@, 0, max as int);
            let mut i: usize = 0;
            while i < points.len()
                invariant
                    n == d@.len(),
                    start < end <= p,
                    sub@ == probs@.subrange(start as int, end as int),
                    sub@.len() == end - start,
                    prev.len() == n,
                    p == probs@.len(),
                    pts == split_points_from(sub@, 0, max as int),
                    points@.len() == pts.len(),
                    forall|q: int| 0 <= q < points@.len() ==> points@[q] as int == pts[q],
                    forall|q: int| 0 <= q < pts.len() ==> 0 <= #[trigger] pts[q] < sub@.len(),
                    i <= points@.len(),
                    out@.len() == n,
                    forall|k: int|
                        0 <= k < n ==> #[trigger] out@[k] == if exists|q: int|
                            0 <= q < i && #[trigger] pts[q] == k - start {
                            0i32
                        } else {
                            prev[k]
                        },
                decreases points@.len() - i,
            {
                assert(points@[i as int] as int == pts[i as int] && pts[i as int] < sub@.len());
                let idx = start + points[i];
                if idx < out.len() {
                    out.set(idx, 0);
                }
                i = i + 1;
                assert forall|k: int| 0 <= k < n implies #[trigger] out@[k] == if exists|q: int|
                    0 <= q < i && #[trigger] pts[q] == k - start {
                    0i32
                } else {
                    prev[k]
                } by {
                    if k == idx {
                        assert(0 <= i - 1 < i && pts[i - 1] == k - start);
                    } else if exists|q: int| 0 <= q < i && #[trigger] pts[q] == k - start {
                        let q = choose|q: int| 0 <= q < i && #[trigger] pts[q] == k - start;
                        assert(q != i - 1);
                    }
                }
            }
            assert forall|k: int| 0 <= k < n implies #[trigger] out@[k] == (if exists|jj: int|
                jj < j + 1 && #[trigger] is_split_frame(d@, probs@, max as int, jj, k) {
                0i32
            } else {
                d@[k]
            }) by {
                if is_split_frame(d@, probs@, max as int, j as int, k) {
                    assert(pts.contains(k - start));
                    let q = choose|q: int| 0 <= q < pts.len() && pts[q] == k - start;
                    assert(0 <= q < points@.len() && pts[q] == k - start);
                }
                if exists|q: int| 0 <= q < points@.len() && #[trigger] pts[q] == k - start {
                    let q = choose|q: int| 0 <= q < points@.len() && #[trigger] pts[q] == k - start;
                    assert(pts.contains(k - start));
                    assert(is_split_frame(d@, probs@, max as int, j as int, k));
                }
                if exists|jj: int| jj < j && #[trigger] is_split_frame(d@, probs@, max as int, jj, k) {
                    let jj = choose|jj: int| jj < j && #[trigger] is_split_frame(d@, probs@, max as int, jj, k);
                    assert(jj < j + 1);
                }
            }
        } else {
            assert forall|k: int| 0 <= k < n implies #[trigger] out@[k] == (if exists|jj: int|
                jj < j + 1 && #[trigger] is_split_frame(d@, probs@, max as int, jj, k) {
                0i32
            } else {
                d@[k]
            }) by {
                assert(!is_split_frame(d@, probs@, max as int, j as int, k));
                if exists|jj: int| jj < j && #[trigger] is_split_frame(d@, probs@, max as int, jj, k) {
                    let jj = choose|jj: int| jj < j && #[trigger] is_split_frame(d@, probs@, max as int, jj, k);
                    assert(jj < j + 1);
                }
            }
        }
        j = j + 1;
        assert(out@ =~= Seq::new(
            n as nat,
            |k: int|
                if exists|jj: int| jj < j && #[trigger] is_split_frame(d@, probs@, max as int, jj, k) {
                    0i32
                } else {
                    d@[k]
                },
        ));
    }
    assert(out@ =~= split_long_segments(d@, probs@, max as int)) by {
        assert forall|k: int| 0 <= k < n implies out@[k] == split_long_segments(d@, probs@, max as int)[k] by {
            if exists|jj: int| #[trigger] is_split_frame(d@, probs@, max as int, jj, k) {
                let jj = choose|jj: int| #[trigger] is_split_frame(d@, probs@, max as int, jj, k);
                assert(jj < j && is_split_frame(d@, probs@, max as int, jj, k));
            }
        }
    }
    out
}

/// Some frame among `i..=i + max` of `s` is not speech.
pub open spec fn has_break(s: Seq<i32>, i: int, max: int) -> bool {
    exists|k: int| i <= k <= i + max && #[trigger] s[k] != 1
}

/// `max_speech_frame` is a hard ceiling: after splitting, no stretch of
/// more than `max` consecutive frames is speech.
pub proof fn lemma_split_ceiling(d: Seq<i32>, keys: Seq<u32>, max: int)
    requires
        d.len() == keys.len(),
        max >= 0,
    ensures
        forall|i: int|
            0 <= i && i + max + 1 <= d.len() ==> #[trigger] has_break(
                split_long_segments(d, keys, max),
                i,
                max,
            ),
{
    lemma_speech_runs(d);
    let out = split_long_segments(d, keys, max);
    let sr = speech_runs_spec(d);
    assert forall|i: int| 0 <= i && i + max + 1 <= d.len() implies #[trigger] has_break(out, i, max) by {
        if !has_break(out, i, max) {
            assert(out[i] == 1);
            if exists|j: int| #[trigger] is_split_frame(d, keys, max, j, i) {
                let j = choose|j: int| #[trigger] is_split_frame(d, keys, max, j, i);
                assert(out[i] == 0);
            }
            assert(d[i] == 1);
            assert(runs_cover(d, sr, d.len() as int));
            let j = choose|j: int| #[trigger] in_run(sr, j, i);
            let s = sr[j].0;
            let e = sr[j].1;
            assert(is_run_of(d, s, e, d.len() as int));
            if e <= i + max {
                assert(out[e] == 1);
                if exists|jj: int| #[trigger] is_split_frame(d, keys, max, jj, e) {
                    let jj = choose|jj: int| #[trigger] is_split_frame(d, keys, max, jj, e);
                    assert(out[e] == 0);
                }
                assert(d[e] == 1);
                assert(false);
            }
            let sub = keys.subrange(s, e);
            lemma_split_points_cover(sub, 0, max);
            let pts = split_points_from(sub, 0, max);
            assert(hits_window(pts, i - s, max));
            let q = choose|q: int| 0 <= q < pts.len() && i - s <= #[trigger] pts[q] <= i - s + max;
            let k = s + pts[q];
            assert(pts.contains(k - s));
            assert(is_split_frame(d, keys, max, j, k));
            assert(out[k] == 0);
            assert(out[k] != 1);
        }
    }
}

/// Splitting only turns frames into silence.
pub proof fn lemma_split_only_removes_speech(d: Seq<i32>, keys: Seq<u32>, max: int)
    ensures
        split_long_segments(d, keys, max).len() == d.len(),
        forall|k: int|
            0 <= k < d.len() ==> #[trigger] split_long_segments(d, keys, max)[k] == 0
                || split_long_segments(d, keys, max)[k] == d[k],
{
}

/// Split point `p` is the first frame of smallest key in the second half of
/// the `max` frames that follow `b`, and those frames lie before the end.
pub open spec fn chosen_from_base(keys: Seq<u32>, max: int, b: int, p: int) -> bool {
    b + max < keys.len() && p == window_argmin(keys, b + max / 2, b + max)
}

/// Where the search for split point `i` of `keys[start..]` begins: at
/// `start` for the first, just after the previous point for the others.
pub open spec fn point_base(keys: Seq<u32>, start: int, max: int, i: int) -> int {
    if i == 0 {
        start
    } else {
        split_points_from(keys, start, max)[i - 1] + 1
    }
}

proof fn lemma_split_points_structure(keys: Seq<u32>, start: int, max: int)
    requires
        0 <= start <= keys.len(),
        max >= 0,
    ensures
        forall|i: int|
            0 <= i < split_points_from(keys, start, max).len() ==> #[trigger] chosen_from_base(
                keys,
                max,
                point_base(keys, start, max, i),
                split_points_from(keys, start, max)[i],
            ),
        forall|a: int, b: int|
            0 <= a < b < split_points_from(keys, start, max).len() ==> #[trigger] split_points_from(
                keys,
                start,
                max,
            )[a] < #[trigger] split_points_from(keys, start, max)[b],
    decreases keys.len() - start,
{
    let pts = split_points_from(keys, start, max);
    if keys.len() - start > max {
        let ws = start + max / 2;
        let we = start + max;
        let p = window_argmin(keys, ws, we);
        lemma_argmin_bounds(keys, ws, we);
        lemma_split_points_structure(keys, p + 1, max);
        lemma_split_points_cover(keys, p + 1, max);
        let rest = split_points_from(keys, p + 1, max);
        assert(pts == seq![p].add(rest));
        assert forall|i: int| 0 <= i < pts.len() implies #[trigger] chosen_from_base(
            keys,
            max,
            point_base(keys, start, max, i),
            pts[i],
        ) by {
            if i > 0 {
                assert(pts[i] == rest[i - 1]);
                assert(chosen_from_base(keys, max, point_base(keys, p + 1, max, i - 1), rest[i - 1]));
                if i > 1 {
                    assert(pts[i - 1] == rest[i - 2]);
                }
                assert(point_base(keys, start, max, i) == point_base(keys, p + 1, max, i - 1));
            }
        }
        assert forall|a: int, b: int| 0 <= a < b < pts.len() implies #[trigger] pts[a]
            < #[trigger] pts[b] by {
            assert(pts[b] == rest[b - 1]);
            if a > 0 {
                assert(pts[a] == rest[a - 1]);
            }
        }
    }
}

/// Frame `k`, turned into silence by splitting, was chosen from base `b`:
/// `b` starts a speech run or follows the previous split frame, nothing
/// between `b` and `k` was split, and `k` is the first frame of smallest
/// key among frames `b + max/2 .. b + max`, which lie within the frames.
pub open spec fn split_from_base(
    d: Seq<i32>,
    keys: Seq<u32>,
    out: Seq<i32>,
    max: int,
    b: int,
    k: int,
) -> bool {
    &&& 0 <= b <= k
    &&& (b == 0 || d[b - 1] != 1 || out[b - 1] != d[b - 1])
    &&& (forall|j: int| b <= j < k ==> #[trigger] out[j] == d[j] && d[j] != 0)
    &&& b + max < d.len()
    &&& b + max / 2 <= k
    &&& (k < b + max || (max == 0 && k == b))
    &&& (forall|j: int| b + max / 2 <= j < b + max ==> keys[k] <= #[trigger] keys[j])
    &&& (forall|j: int| b + max / 2 <= j < k ==> keys[k] < #[trigger] keys[j])
}

proof fn lemma_split_frame_in_run(d: Seq<i32>, keys: Seq<u32>, max: int, j: int, x: int)
    requires
        d.len() == keys.len(),
        max >= 0,
        is_split_frame(d, keys, max, j, x),
    ensures
        speech_runs_spec(d)[j].0 <= x < speech_runs_spec(d)[j].1,
        is_run_of(d, speech_runs_spec(d)[j].0, speech_runs_spec(d)[j].1, d.len() as int),
{
    lemma_speech_runs(d);
    let r = speech_runs_spec(d);
    let n = d.len() as int;
    assert(is_run_of(d, r[j].0, r[j].1, n));
    assert(split_window(r[j], n, n) == r[j]);
    let sub = keys.subrange(r[j].0, r[j].1);
    lemma_split_points_cover(sub, 0, max);
    let pts = split_points_from(sub, 0, max);
    let q = choose|q: int| 0 <= q < pts.len() && pts[q] == x - r[j].0;
    assert(0 <= pts[q] < sub.len());
}

#[verifier::rlimit(100)]
proof fn lemma_no_split_between(d: Seq<i32>, keys: Seq<u32>, max: int, j: int, i: int, x: int)
    requires
        d.len() == keys.len(),
        max >= 0,
        0 <= j < speech_runs_spec(d).len(),
        ({
            let r = speech_runs_spec(d)[j];
            let pts = split_points_from(keys.subrange(r.0, r.1), 0, max);
            &&& 0 <= i < pts.len()
            &&& r.0 + point_base(keys.subrange(r.0, r.1), 0, max, i) <= x < r.0 + pts[i]
        }),
    ensures
        forall|jj: int| !#[trigger] is_split_frame(d, keys, max, jj, x),
{
    lemma_speech_runs(d);
    let r = speech_runs_spec(d);
    let n = d.len() as int;
    let s = r[j].0;
    let sub = keys.subrange(s, r[j].1);
    lemma_split_points_structure(sub, 0, max);
    lemma_split_points_cover(sub, 0, max);
    let pts = split_points_from(sub, 0, max);
    assert(is_run_of(d, r[j].0, r[j].1, n));
    assert(split_window(r[j], n, n) == r[j]);
    assert(0 <= pts[i] < sub.len());
    if i > 0 {
        assert(pts[i - 1] < pts[i]);
        assert(point_base(sub, 0, max, i) == pts[i - 1] + 1);
    }
    assert forall|jj: int| !#[trigger] is_split_frame(d, keys, max, jj, x) by {
        if is_split_frame(d, keys, max, jj, x) {
            lemma_split_frame_in_run(d, keys, max, jj, x);
            if jj != j {
                if jj < j {
                    assert(r[jj].1 < r[j].0);
                } else {
                    assert(r[j].1 < r[jj].0);
                }
            } else {
                assert(split_window(r[jj], n, keys.len() as int) == (s, r[j].1));
                assert(pts.contains(x - s));
                let q = choose|q: int| 0 <= q < pts.len() && pts[q] == x - s;
                if q < i {
                    if q < i - 1 {
                        assert(pts[q] < pts[i - 1]);
                    }
                } else if q > i {
                    assert(pts[i] < pts[q]);
                }
            }
        }
    }
}

#[verifier::rlimit(100)]
proof fn lemma_split_frame_base(d: Seq<i32>, keys: Seq<u32>, max: int, k: int)
    requires
        d.len() == keys.len(),
        max >= 0,
        0 <= k < d.len(),
        split_long_segments(d, keys, max)[k] != d[k],
    ensures
        d[k] != 0,
        split_long_segments(d, keys, max)[k] == 0,
        exists|b: int| split_from_base(d, keys, split_long_segments(d, keys, max), max, b, k),
{
    lemma_speech_runs(d);
    let out = split_long_segments(d, keys, max);
    let r = speech_runs_spec(d);
    let n = d.len() as int;
    let j = choose|j: int| #[trigger] is_split_frame(d, keys, max, j, k);
    lemma_split_frame_in_run(d, keys, max, j, k);
    let s = r[j].0;
    let e = r[j].1;
    assert(split_window(r[j], n, n) == (s, e));
    let sub = keys.subrange(s, e);
    lemma_split_points_cover(sub, 0, max);
    lemma_split_points_structure(sub, 0, max);
    let pts = split_points_from(sub, 0, max);
    let i = choose|i: int| 0 <= i < pts.len() && pts[i] == k - s;
    let base = point_base(sub, 0, max, i);
    assert(chosen_from_base(sub, max, base, pts[i]));
    if i > 0 {
        assert(0 <= pts[i - 1] < sub.len());
        assert(pts[i - 1] < pts[i]);
    }
    let lo = base + max / 2;
    let hi = base + max;
    lemma_argmin_bounds(sub, lo, hi);
    let b = s + base;
    if i > 0 {
        assert(pts.contains(b - 1 - s));
        assert(is_split_frame(d, keys, max, j, b - 1));
        assert(out[b - 1] == 0);
        assert(d[b - 1] != 0);
    }
    assert forall|x: int| b <= x < k implies #[trigger] out[x] == d[x] && d[x] != 0 by {
        lemma_no_split_between(d, keys, max, j, i, x);
        assert(d[x] != 0);
    }
    if max > 0 {
        lemma_argmin_is_first_min(sub, lo, hi);
        assert(sub[k - s] == keys[k]);
        assert forall|x: int| b + max / 2 <= x < b + max implies keys[k] <= #[trigger] keys[x] by {
            assert(sub[x - s] == keys[x]);
        }
        assert forall|x: int| b + max / 2 <= x < k implies keys[k] < #[trigger] keys[x] by {
            assert(sub[x - s] == keys[x]);
        }
    }
    assert(split_from_base(d, keys, out, max, b, k));
}

/// Every frame that splitting turns into silence is a speech frame chosen as
/// the lowest-key frame (first on ties) of its own run's search window: the
/// second half of the `max` frames after the run's start or after the
/// previous split frame.
pub proof fn lemma_split_frames_are_window_minima(d: Seq<i32>, keys: Seq<u32>, max: int)
    requires
        d.len() == keys.len(),
        max >= 0,
    ensures
        forall|k: int|
            0 <= k < d.len() && #[trigger] split_long_segments(d, keys, max)[k] != d[k] ==> d[k]
                != 0 && split_long_segments(d, keys, max)[k] == 0 && exists|b: int|
                split_from_base(d, keys, split_long_segments(d, keys, max), max, b, k),
{
    assert forall|k: int|
        0 <= k < d.len() && #[trigger] split_long_segments(d, keys, max)[k] != d[k] implies d[k]
            != 0 && split_long_segments(d, keys, max)[k] == 0 && exists|b: int|
            split_from_base(d, keys, split_long_segments(d, keys, max), max, b, k) by {
        lemma_split_frame_base(d, keys, max, k);
    }
}

/// Splitting leaves decisions alone when no run can exceed `max` frames.
pub proof fn lemma_split_identity_when_short(d: Seq<i32>, keys: Seq<u32>, max: int)
    requires
        d.len() == keys.len(),
        max >= d.len(),
    ensures
        split_long_segments(d, keys, max) == d,
{
    lemma_speech_runs(d);
    let r = speech_runs_spec(d);
    let n = d.len() as int;
    assert forall|j: int, k: int| !#[trigger] is_split_frame(d, keys, max, j, k) by {
        if 0 <= j < r.len() {
            assert(is_run_of(d, r[j].0, r[j].1, n));
            let w = split_window(r[j], n, n);
            assert(w.0 >= 0 && w.1 <= n);
        }
    }
    assert(split_long_segments(d, keys, max) =~= d);
}

} // verus!
