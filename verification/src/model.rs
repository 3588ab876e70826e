use vstd::prelude::*;

verus! {

/// Memory taps `(k, frame)` that look back from frame `t`, for taps `0..k`:
/// tap `k` reads frame `t - (n1 - 1 - k) * s1` when that frame exists.
pub open spec fn lookback_taps_upto(t: int, n1: int, s1: int, k: int) -> Seq<(int, int)>
    decreases k,
{
    if k <= 0 {
        Seq::empty()
    } else {
        let r = lookback_taps_upto(t, n1, s1, k - 1);
        let idx = t - (n1 - k) * s1;
        if idx >= 0 {
            r.push((k - 1, idx))
        } else {
            r
        }
    }
}

/// Memory taps `(k, frame)` that look ahead from frame `t`, for taps `0..k`:
/// tap `k` reads frame `t + (k + 1) * s2` when it is before `t_max`.
pub open spec fn lookahead_taps_upto(t: int, t_max: int, s2: int, k: int) -> Seq<(int, int)>
    decreases k,
{
    if k <= 0 {
        Seq::empty()
    } else {
        let r = lookahead_taps_upto(t, t_max, s2, k - 1);
        let idx = t + k * s2;
        if idx < t_max {
            r.push((k - 1, idx))
        } else {
            r
        }
    }
}

/// The executable taps are the specified ones.
pub open spec fn same_taps(taps: Seq<(usize, usize)>, spec_taps: Seq<(int, int)>) -> bool {
    &&& taps.len() == spec_taps.len()
    &&& forall|i: int|
        0 <= i < taps.len() ==> (#[trigger] taps[i]).0 as int == spec_taps[i].0 && taps[i].1 as int
            == spec_taps[i].1
}

/// Look-back taps of an FSMN memory layer at frame `t`: order `n1`,
/// stride `s1`, taps in increasing order.
pub fn lookback_taps(t: usize, n1: usize, s1: usize) -> (taps: Vec<(usize, usize)>)
    ensures
        same_taps(taps@, lookback_taps_upto(t as int, n1 as int, s1 as int, n1 as int)),
{
    let mut taps: Vec<(usize, usize)> = Vec::new();
    let mut k: usize = 0;
    while k < n1
        invariant
            k <= n1,
            same_taps(taps@, lookback_taps_upto(t as int, n1 as int, s1 as int, k as int)),
        decreases n1 - k,
    {
        let ghost prev = taps@;
        match (n1 - 1 - k).checked_mul(s1) {
            Some(off) => {
                if off <= t {
                    taps.push((k, t - off));
                }
            },
            None => {},
        }
        k = k + 1;
        assert(n1 - k == n1 - 1 - (k - 1));
        assert forall|i: int| 0 <= i < taps@.len() implies (#[trigger] taps@[i]).0 as int
            == lookback_taps_upto(t as int, n1 as int, s1 as int, k as int)[i].0 && taps@[i].1 as int
            == lookback_taps_upto(t as int, n1 as int, s1 as int, k as int)[i].1 by {
            if i < prev.len() {
                assert(taps@[i] == prev[i]);
            }
        }
    }
    taps
}

/// Look-ahead taps of an FSMN memory layer at frame `t` of `t_max`
/// frames: order `n2`, stride `s2`, taps in increasing order.
pub fn lookahead_taps(t: usize, t_max: usize, n2: usize, s2: usize) -> (taps: Vec<(usize, usize)>)
    ensures
        same_taps(taps@, lookahead_taps_upto(t as int, t_max as int, s2 as int, n2 as int)),
{
    let mut taps: Vec<(usize, usize)> = Vec::new();
    let mut k: usize = 0;
    while k < n2
        invariant
            k <= n2,
            same_taps(taps@, lookahead_taps_upto(t as int, t_max as int, s2 as int, k as int)),
        decreases n2 - k,
    {
        let ghost prev = taps@;
        match (k + 1).checked_mul(s2) {
            Some(off) => {
                match t.checked_add(off) {
                    Some(idx) => {
                        if idx < t_max {
                            taps.push((k, idx));
                        }
                    },
                    None => {},
                }
            },
            None => {},
        }
        k = k + 1;
        assert forall|i: int| 0 <= i < taps@.len() implies (#[trigger] taps@[i]).0 as int
            == lookahead_taps_upto(t as int, t_max as int, s2 as int, k as int)[i].0
            && taps@[i].1 as int == lookahead_taps_upto(
            t as int,
            t_max as int,
            s2 as int,
            k as int,
        )[i].1 by {
            if i < prev.len() {
                assert(taps@[i] == prev[i]);
            }
        }
    }
    taps
}

/// Tap `q` is among `taps`.
pub open spec fn has_tap(taps: Seq<(int, int)>, q: int) -> bool {
    exists|i: int| 0 <= i < taps.len() && (#[trigger] taps[i]).0 == q
}

/// Every look-back tap reads a frame at or before `t`, every look-ahead tap
/// a frame after `t` (for a positive stride) and before `t_max`; taps come
/// in increasing order, and a tap is present exactly when its frame exists.
pub proof fn lemma_taps_read_the_right_frames(
    t: int,
    t_max: int,
    n1: int,
    s1: int,
    n2: int,
    s2: int,
    k: int,
)
    requires
        t >= 0,
        s1 >= 0,
        s2 >= 0,
        k >= 0,
    ensures
        forall|i: int|
            0 <= i < lookback_taps_upto(t, n1, s1, k).len() ==> {
                let p = #[trigger] lookback_taps_upto(t, n1, s1, k)[i];
                0 <= p.0 < k && p.1 == t - (n1 - 1 - p.0) * s1 && 0 <= p.1 && (p.0 <= n1 - 1
                    ==> p.1 <= t)
            },
        forall|i: int|
            0 <= i < lookahead_taps_upto(t, t_max, s2, k).len() ==> {
                let p = #[trigger] lookahead_taps_upto(t, t_max, s2, k)[i];
                0 <= p.0 < k && p.1 == t + (p.0 + 1) * s2 && p.1 < t_max && (s2 > 0 ==> p.1 > t)
            },
        forall|i: int, j: int|
            0 <= i < j < lookback_taps_upto(t, n1, s1, k).len() ==> (#[trigger] lookback_taps_upto(
                t,
                n1,
                s1,
                k,
            )[i]).0 < (#[trigger] lookback_taps_upto(t, n1, s1, k)[j]).0,
        forall|i: int, j: int|
            0 <= i < j < lookahead_taps_upto(t, t_max, s2, k).len() ==> (
            #[trigger] lookahead_taps_upto(t, t_max, s2, k)[i]).0 < (
            #[trigger] lookahead_taps_upto(t, t_max, s2, k)[j]).0,
        forall|q: int|
            0 <= q < k && t - (n1 - 1 - q) * s1 >= 0 ==> #[trigger] has_tap(
                lookback_taps_upto(t, n1, s1, k),
                q,
            ),
        forall|q: int|
            0 <= q < k && t + (q + 1) * s2 < t_max ==> #[trigger] has_tap(
                lookahead_taps_upto(t, t_max, s2, k),
                q,
            ),
    decreases k,
{
    if k > 0 {
        lemma_taps_read_the_right_frames(t, t_max, n1, s1, n2, s2, k - 1);
        let b0 = lookback_taps_upto(t, n1, s1, k - 1);
        let b1 = lookback_taps_upto(t, n1, s1, k);
        let a0 = lookahead_taps_upto(t, t_max, s2, k - 1);
        let a1 = lookahead_taps_upto(t, t_max, s2, k);
        assert(n1 - k == n1 - 1 - (k - 1));
        assert((k - 1) + 1 == k);
        assert forall|i: int| 0 <= i < b1.len() implies {
            let p = #[trigger] b1[i];
            0 <= p.0 < k && p.1 == t - (n1 - 1 - p.0) * s1 && 0 <= p.1 && (p.0 <= n1 - 1 ==> p.1
                <= t)
        } by {
            if i < b0.len() {
                assert(b1[i] == b0[i]);
            }
            let p = b1[i];
            if p.0 <= n1 - 1 {
                assert((n1 - 1 - p.0) * s1 >= 0) by (nonlinear_arith)
                    requires
                        n1 - 1 - p.0 >= 0,
                        s1 >= 0,
                ;
            }
        }
        assert forall|i: int| 0 <= i < a1.len() implies {
            let p = #[trigger] a1[i];
            0 <= p.0 < k && p.1 == t + (p.0 + 1) * s2 && p.1 < t_max && (s2 > 0 ==> p.1 > t)
        } by {
            if i < a0.len() {
                assert(a1[i] == a0[i]);
            }
            let p = a1[i];
            if s2 > 0 {
                assert((p.0 + 1) * s2 > 0) by (nonlinear_arith)
                    requires
                        p.0 + 1 > 0,
                        s2 > 0,
                ;
            }
        }
        assert forall|i: int, j: int| 0 <= i < j < b1.len() implies (#[trigger] b1[i]).0 < (
        #[trigger] b1[j]).0 by {
            if j < b0.len() {
                assert(b1[i] == b0[i] && b1[j] == b0[j]);
            } else {
                assert(b1[i] == b0[i]);
            }
        }
        assert forall|i: int, j: int| 0 <= i < j < a1.len() implies (#[trigger] a1[i]).0 < (
        #[trigger] a1[j]).0 by {
            if j < a0.len() {
                assert(a1[i] == a0[i] && a1[j] == a0[j]);
            } else {
                assert(a1[i] == a0[i]);
            }
        }
        assert forall|q: int| 0 <= q < k && t - (n1 - 1 - q) * s1 >= 0 implies #[trigger] has_tap(
            b1,
            q,
        ) by {
            if q < k - 1 {
                assert(has_tap(b0, q));
                let i = choose|i: int| 0 <= i < b0.len() && (#[trigger] b0[i]).0 == q;
                assert(b1[i] == b0[i]);
            } else {
                assert(b1[b0.len() as int].0 == q);
            }
        }
        assert forall|q: int| 0 <= q < k && t + (q + 1) * s2 < t_max implies #[trigger] has_tap(
            a1,
            q,
        ) by {
            if q < k - 1 {
                assert(has_tap(a0, q));
                let i = choose|i: int| 0 <= i < a0.len() && (#[trigger] a0[i]).0 == q;
                assert(a1[i] == a0[i]);
            } else {
                assert(a1[a0.len() as int].0 == q);
            }
        }
    }
}

} // verus!
