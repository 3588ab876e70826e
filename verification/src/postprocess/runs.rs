use vstd::prelude::*;

verus! {

/// Length of one frame shift, in milliseconds.
pub const FRAME_SHIFT_MS: u64 = 10;

/// Length of one analysis frame, in milliseconds.
pub const FRAME_LENGTH_MS: u64 = 25;

/// Start of the speech run still open after the frames before `i` have been
/// scanned: a run opens at a speech frame (1) and closes at the next
/// non-speech frame (0).
pub open spec fn open_start(d: Seq<i32>, i: int) -> Option<int>
    decreases i,
{
    if i <= 0 {
        None
    } else {
        let p = open_start(d, i - 1);
        let t = i - 1;
        if d[t] == 1 && p is None {
            Some(t)
        } else if d[t] == 0 && p is Some {
            None
        } else {
            p
        }
    }
}

/// Runs `[start, end)` closed among the frames before `i`.
pub open spec fn closed_runs(d: Seq<i32>, i: int) -> Seq<(int, int)>
    decreases i,
{
    if i <= 0 {
        Seq::empty()
    } else {
        let p = open_start(d, i - 1);
        let t = i - 1;
        let r = closed_runs(d, i - 1);
        if d[t] == 0 && p is Some {
            r.push((p->0, t))
        } else {
            r
        }
    }
}

/// Speech runs `[start, end)` of the whole sequence, in frames; a run still
/// open at the end closes at the end of the sequence.
pub open spec fn speech_runs_spec(d: Seq<i32>) -> Seq<(int, int)> {
    match open_start(d, d.len() as int) {
        Some(s) => closed_runs(d, d.len() as int).push((s, d.len() as int)),
        None => closed_runs(d, d.len() as int),
    }
}

/// A run `[s, e)` of `d`: it begins with speech not preceded by speech,
/// holds no non-speech frame, and ends at a non-speech frame or at `end`.
pub open spec fn is_run_of(d: Seq<i32>, s: int, e: int, end: int) -> bool {
    &&& 0 <= s < e <= end
    &&& d[s] == 1
    &&& (s == 0 || d[s - 1] != 1)
    &&& (forall|k: int| s <= k < e ==> #[trigger] d[k] != 0)
    &&& (e == end || d[e] == 0)
}

/// The runs are separated and in increasing order.
pub open spec fn runs_ordered(r: Seq<(int, int)>) -> bool {
    forall|a: int, b: int| 0 <= a < b < r.len() ==> #[trigger] r[a].1 < #[trigger] r[b].0
}

/// Frame `k` lies in run `j` of `r`.
pub open spec fn in_run(r: Seq<(int, int)>, j: int, k: int) -> bool {
    0 <= j < r.len() && r[j].0 <= k < r[j].1
}

/// Every speech frame before `i` lies in one of the runs.
pub open spec fn runs_cover(d: Seq<i32>, r: Seq<(int, int)>, i: int) -> bool {
    forall|k: int|
        0 <= k < i && #[trigger] d[k] == 1 ==> exists|j: int| #[trigger] in_run(r, j, k)
}

proof fn lemma_scan(d: Seq<i32>, i: int)
    requires
        0 <= i <= d.len(),
    ensures
        forall|j: int|
            0 <= j < closed_runs(d, i).len() ==> is_run_of(
                d,
                #[trigger] closed_runs(d, i)[j].0,
                closed_runs(d, i)[j].1,
                d.len() as int,
            ) && closed_runs(d, i)[j].1 < i,
        runs_ordered(closed_runs(d, i)),
        open_start(d, i) matches Some(s) ==> {
            &&& 0 <= s < i
            &&& d[s] == 1
            &&& (s == 0 || d[s - 1] != 1)
            &&& (forall|k: int| s <= k < i ==> #[trigger] d[k] != 0)
            &&& (closed_runs(d, i).len() > 0 ==> closed_runs(d, i).last().1 < s)
        },
        open_start(d, i) is None ==> (i == 0 || d[i - 1] != 1),
        forall|k: int|
            0 <= k < i && #[trigger] d[k] == 1 ==> (exists|j: int| #[trigger] in_run(closed_runs(d, i), j, k)) || (open_start(d, i) matches Some(s) && s <= k),
    decreases i,
{
    if i > 0 {
        lemma_scan(d, i - 1);
        let t = i - 1;
        let p = open_start(d, t);
        let r = closed_runs(d, t);
        let r2 = closed_runs(d, i);
        if d[t] == 0 && p is Some {
            let s = p->0;
            assert(r2 == r.push((s, t)));
            assert(is_run_of(d, s, t, d.len() as int));
            assert forall|a: int, b: int| 0 <= a < b < r2.len() implies #[trigger] r2[a].1
                < #[trigger] r2[b].0 by {
                if b == r.len() as int {
                    if r.len() > 0 {
                        let l = r.len() - 1;
                        assert(is_run_of(d, r[l].0, r[l].1, d.len() as int));
                        if a < l {
                            assert(r[a].1 < r[l].0);
                        }
                    }
                } else {
                    assert(r[a] == r2[a] && r[b] == r2[b]);
                }
            }
            assert forall|k: int| 0 <= k < i && #[trigger] d[k] == 1 implies exists|j: int| #[trigger] in_run(r2, j, k) by {
                if exists|j: int| #[trigger] in_run(r, j, k) {
                    let j = choose|j: int| #[trigger] in_run(r, j, k);
                    assert(r2[j] == r[j]);
                    assert(in_run(r2, j, k));
                } else {
                    assert(r2[r.len() as int] == (s, t));
                    assert(in_run(r2, r.len() as int, k));
                }
            }
        } else {
            assert(r2 == r);
            if d[t] == 1 && p is None {
                assert forall|k: int| t <= k < i implies #[trigger] d[k] != 0 by {}
                if r.len() > 0 {
                    let l = r.len() - 1;
                    // The last closed run ended before this frame.
                    assert(closed_runs(d, t)[l].0 < closed_runs(d, t)[l].1);
                    assert(r.last().1 < t);
                }
            }
        }
    }
}

/// Properties of the speech runs: each is a run of the decisions, they are
/// ordered and separated, and every speech frame lies in one of them. For
/// decisions made of 0 and 1 these are exactly the maximal stretches of 1.
pub proof fn lemma_speech_runs(d: Seq<i32>)
    ensures
        forall|j: int|
            0 <= j < speech_runs_spec(d).len() ==> is_run_of(
                d,
                #[trigger] speech_runs_spec(d)[j].0,
                speech_runs_spec(d)[j].1,
                d.len() as int,
            ),
        runs_ordered(speech_runs_spec(d)),
        runs_cover(d, speech_runs_spec(d), d.len() as int),
{
    lemma_scan(d, d.len() as int);
    let n = d.len() as int;
    let r = closed_runs(d, n);
    let all = speech_runs_spec(d);
    match open_start(d, n) {
        Some(s) => {
            assert(all == r.push((s, n)));
            assert forall|j: int| 0 <= j < all.len() implies is_run_of(
                d,
                #[trigger] all[j].0,
                all[j].1,
                n,
            ) by {
                if j < r.len() {
                    assert(all[j] == r[j]);
                }
            }
            assert forall|a: int, b: int| 0 <= a < b < all.len() implies #[trigger] all[a].1
                < #[trigger] all[b].0 by {
                if b == r.len() as int {
                    let l = r.len() - 1;
                    assert(is_run_of(d, r[l].0, r[l].1, d.len() as int));
                    if a < l {
                        assert(r[a].1 < r[l].0);
                    }
                } else {
                    assert(r[a] == all[a] && r[b] == all[b]);
                }
            }
            assert forall|k: int| 0 <= k < n && #[trigger] d[k] == 1 implies exists|j: int| #[trigger] in_run(all, j, k) by {
                if exists|j: int| #[trigger] in_run(r, j, k) {
                    let j = choose|j: int| #[trigger] in_run(r, j, k);
                    assert(all[j] == r[j]);
                    assert(in_run(all, j, k));
                } else {
                    assert(all[r.len() as int] == (s, n));
                    assert(in_run(all, r.len() as int, k));
                }
            }
        },
        None => {},
    }
}

/// The speech runs of `decisions` as frame ranges `[start, end)`.
pub fn speech_runs(decisions: &[i32]) -> (runs: Vec<(usize, usize)>)
    ensures
        runs@.len() == speech_runs_spec(decisions@).len(),
        forall|j: int|
            0 <= j < runs@.len() ==> runs@[j].0 as int == speech_runs_spec(decisions@)[j].0
                && runs@[j].1 as int == speech_runs_spec(decisions@)[j].1,
{
    let d = decisions;
    let n = d.len();
    let mut runs: Vec<(usize, usize)> = Vec::new();
    let mut speech_start: Option<usize> = None;
    let mut t: usize = 0;
    while t < n
        invariant
            n == d@.len(),
            t <= n,
            match speech_start {
                Some(s) => open_start(d@, t as int) == Some(s as int) && s < t,
                None => open_start(d@, t as int) is None,
            },
            runs@.len() == closed_runs(d@, t as int).len(),
            forall|j: int|
                0 <= j < runs@.len() ==> runs@[j].0 as int == closed_runs(d@, t as int)[j].0
                    && runs@[j].1 as int == closed_runs(d@, t as int)[j].1,
        decreases n - t,
    {
        let decision = d[t];
        if decision == 1 && speech_start.is_none() {
            speech_start = Some(t);
        } else if decision == 0 && speech_start.is_some() {
            let s = speech_start.unwrap();
            runs.push((s, t));
            speech_start = None;
        }
        t = t + 1;
    }
    if let Some(s) = speech_start {
        runs.push((s, n));
    }
    runs
}

/// Speech segments in milliseconds. A run ends at the start of the frame
/// that closes it; a run still open at the end lasts to the end of the last
/// frame, but not beyond `wav_dur_ms`.
pub open spec fn segment_ms(run: (int, int), n: int, wav_dur_ms: Option<u64>) -> (int, int) {
    (
        run.0 * FRAME_SHIFT_MS,
        if run.1 == n {
            let end = n * FRAME_SHIFT_MS + FRAME_LENGTH_MS;
            match wav_dur_ms {
                Some(dur) => if dur < end {
                    dur as int
                } else {
                    end
                },
                None => end,
            }
        } else {
            run.1 * FRAME_SHIFT_MS
        },
    )
}

/// Converts frame decisions to speech segments `(start_ms, end_ms)`.
pub fn decision_to_segment(decisions: &[i32], wav_dur_ms: Option<u64>) -> (segs: Vec<(u64, u64)>)
    requires
        decisions@.len() * FRAME_SHIFT_MS + FRAME_LENGTH_MS <= u64::MAX,
    ensures
        segs@.len() == speech_runs_spec(decisions@).len(),
        forall|j: int|
            0 <= j < segs@.len() ==> (segs@[j].0 as int, segs@[j].1 as int) == segment_ms(
                #[trigger] speech_runs_spec(decisions@)[j],
                decisions@.len() as int,
                wav_dur_ms,
            ),
{
    let n = decisions.len();
    let runs = speech_runs(decisions);
    proof {
        lemma_speech_runs(decisions@);
    }
    let mut segs: Vec<(u64, u64)> = Vec::new();
    let mut j: usize = 0;
    while j < runs.len()
        invariant
            n == decisions@.len(),
            n * FRAME_SHIFT_MS + FRAME_LENGTH_MS <= u64::MAX,
            runs@.len() == speech_runs_spec(decisions@).len(),
            forall|i: int|
                0 <= i < runs@.len() ==> runs@[i].0 as int == speech_runs_spec(decisions@)[i].0
                    && runs@[i].1 as int == speech_runs_spec(decisions@)[i].1,
            forall|i: int|
                0 <= i < speech_runs_spec(decisions@).len() ==> is_run_of(
                    decisions@,
                    #[trigger] speech_runs_spec(decisions@)[i].0,
                    speech_runs_spec(decisions@)[i].1,
                    n as int,
                ),
            j <= runs@.len(),
            segs@.len() == j,
            forall|i: int|
                0 <= i < j ==> (segs@[i].0 as int, segs@[i].1 as int) == segment_ms(
                    #[trigger] speech_runs_spec(decisions@)[i],
                    n as int,
                    wav_dur_ms,
                ),
        decreases runs@.len() - j,
    {
        let (s, e) = runs[j];
        assert(is_run_of(decisions@, speech_runs_spec(decisions@)[j as int].0, speech_runs_spec(decisions@)[j as int].1, n as int));
        let start_ms = (s as u64) * FRAME_SHIFT_MS;
        let end_ms = if e == n {
            let end = (n as u64) * FRAME_SHIFT_MS + FRAME_LENGTH_MS;
            match wav_dur_ms {
                Some(dur) => if dur < end {
                    dur
                } else {
                    end
                },
                None => end,
            }
        } else {
            (e as u64) * FRAME_SHIFT_MS
        };
        segs.push((start_ms, end_ms));
        j = j + 1;
    }
    segs
}

/// Speech segments come in increasing order without overlap, each starting
/// at a speech frame; every segment but one still open at the end (and cut
/// by the duration) has its start before its end.
pub proof fn lemma_segments_ordered(d: Seq<i32>, wav_dur_ms: Option<u64>)
    ensures
        forall|a: int, b: int|
            0 <= a < b < speech_runs_spec(d).len() ==> segment_ms(
                #[trigger] speech_runs_spec(d)[a],
                d.len() as int,
                wav_dur_ms,
            ).1 < segment_ms(#[trigger] speech_runs_spec(d)[b], d.len() as int, wav_dur_ms).0,
        forall|a: int|
            0 <= a < speech_runs_spec(d).len() && speech_runs_spec(d)[a].1 < d.len() ==> segment_ms(
                #[trigger] speech_runs_spec(d)[a],
                d.len() as int,
                wav_dur_ms,
            ).0 < segment_ms(speech_runs_spec(d)[a], d.len() as int, wav_dur_ms).1,
        forall|a: int|
            0 <= a < speech_runs_spec(d).len() ==> d[(#[trigger] speech_runs_spec(d)[a]).0] == 1,
{
    lemma_speech_runs(d);
    let r = speech_runs_spec(d);
    let n = d.len() as int;
    assert forall|a: int, b: int| 0 <= a < b < r.len() implies segment_ms(
        #[trigger] r[a],
        n,
        wav_dur_ms,
    ).1 < segment_ms(#[trigger] r[b], n, wav_dur_ms).0 by {
        assert(r[a].1 < r[b].0);
        assert(is_run_of(d, r[b].0, r[b].1, n));
    }
    assert forall|a: int| 0 <= a < r.len() && r[a].1 < n implies segment_ms(
        #[trigger] r[a],
        n,
        wav_dur_ms,
    ).0 < segment_ms(r[a], n, wav_dur_ms).1 by {
        assert(is_run_of(d, r[a].0, r[a].1, n));
    }
    assert forall|a: int| 0 <= a < r.len() implies d[(#[trigger] r[a]).0] == 1 by {
        assert(is_run_of(d, r[a].0, r[a].1, n));
    }
}

} // verus!
