use vstd::prelude::*;

verus! {

/// Post-processing parameters, all counted in 10 ms frames.
///
/// `silence_schedule` holds pairs `(max_segment_frames, silence_frames)` in
/// ascending order of `max_segment_frames`. When it is not empty it replaces
/// `min_silence_frame`: a pause ends a segment once it lasts the silence
/// length of the first entry whose bound is at least the length of the
/// segment so far (the last entry when no bound is large enough).
#[derive(Debug, Clone)]
pub struct VadConfig {
    pub smooth_window_size: usize,
    pub min_speech_frame: usize,
    pub max_speech_frame: usize,
    pub min_silence_frame: usize,
    pub merge_silence_frame: usize,
    pub extend_speech_frame: usize,
    pub silence_schedule: Vec<(usize, usize)>,
}

/// Silence length that the schedule `s` asks for after a segment of
/// `seg_len` frames.
pub open spec fn schedule_lookup(s: Seq<(usize, usize)>, seg_len: int) -> usize
    decreases s.len(),
{
    if s.len() == 0 {
        0
    } else if s.len() == 1 || seg_len <= s[0].0 {
        s[0].1
    } else {
        schedule_lookup(s.drop_first(), seg_len)
    }
}

/// Number of consecutive non-speech frames that end a segment which has
/// lasted `seg_len` frames so far.
pub open spec fn silence_limit(cfg: VadConfig, seg_len: int) -> usize {
    if cfg.silence_schedule@.len() == 0 {
        cfg.min_silence_frame
    } else {
        schedule_lookup(cfg.silence_schedule@, seg_len)
    }
}

/// The offline schedule of dynamic VAD, in frames: up to 5 s of speech a
/// pause must last 2 s, up to 10 s 1.5 s, up to 15 s 1 s, up to 30 s 0.8 s,
/// up to 45 s 0.4 s, and beyond that 0.1 s.
pub open spec fn funasr_schedule_spec() -> Seq<(usize, usize)> {
    seq![(500usize, 200usize), (1000, 150), (1500, 100), (3000, 80), (4500, 40), (usize::MAX, 10)]
}

/// The offline schedule of dynamic VAD, as the command line selects it.
pub fn funasr_offline_schedule() -> (s: Vec<(usize, usize)>)
    ensures
        s@ == funasr_schedule_spec(),
        s@ == seq![
            (500usize, 200usize),
            (1000usize, 150usize),
            (1500usize, 100usize),
            (3000usize, 80usize),
            (4500usize, 40usize),
            (usize::MAX, 10usize),
        ],
{
    let mut s: Vec<(usize, usize)> = Vec::new();
    s.push((500, 200));
    s.push((1000, 150));
    s.push((1500, 100));
    s.push((3000, 80));
    s.push((4500, 40));
    s.push((usize::MAX, 10));
    assert(s@ =~= funasr_schedule_spec());
    assert(s@ =~= seq![
        (500usize, 200usize),
        (1000usize, 150usize),
        (1500usize, 100usize),
        (3000usize, 80usize),
        (4500usize, 40usize),
        (usize::MAX, 10usize),
    ]);
    s
}

impl Default for VadConfig {
    fn default() -> (c: Self)
        ensures
            c.smooth_window_size == 5,
            c.min_speech_frame == 20,
            c.max_speech_frame == 2000,
            c.min_silence_frame == 20,
            c.merge_silence_frame == 0,
            c.extend_speech_frame == 0,
            c.silence_schedule@.len() == 0,
    {
        VadConfig {
            smooth_window_size: 5,
            min_speech_frame: 20,
            max_speech_frame: 2000,
            min_silence_frame: 20,
            merge_silence_frame: 0,
            extend_speech_frame: 0,
            silence_schedule: Vec::new(),
        }
    }
}

impl VadConfig {
    /// Configuration as the command line builds it: the window, minimum
    /// speech and maximum speech lengths are raised to at least one frame,
    /// and `dynamic_vad` selects the offline schedule.
    pub fn from_cli(
        smooth_window_size: usize,
        min_speech_frame: usize,
        max_speech_frame: usize,
        min_silence_frame: usize,
        merge_silence_frame: usize,
        extend_speech_frame: usize,
        dynamic_vad: bool,
    ) -> (c: Self)
        ensures
            c.smooth_window_size == if smooth_window_size == 0 { 1 } else { smooth_window_size },
            c.min_speech_frame == if min_speech_frame == 0 { 1 } else { min_speech_frame },
            c.max_speech_frame == if max_speech_frame == 0 { 1 } else { max_speech_frame },
            c.min_silence_frame == min_silence_frame,
            c.merge_silence_frame == merge_silence_frame,
            c.extend_speech_frame == extend_speech_frame,
            c.silence_schedule@ == if dynamic_vad {
                funasr_schedule_spec()
            } else {
                Seq::<(usize, usize)>::empty()
            },
    {
        let schedule = if dynamic_vad { funasr_offline_schedule() } else { Vec::new() };
        VadConfig {
            smooth_window_size: if smooth_window_size == 0 { 1 } else { smooth_window_size },
            min_speech_frame: if min_speech_frame == 0 { 1 } else { min_speech_frame },
            max_speech_frame: if max_speech_frame == 0 { 1 } else { max_speech_frame },
            min_silence_frame,
            merge_silence_frame,
            extend_speech_frame,
            silence_schedule: schedule,
        }
    }

    /// Silence length that ends a segment of `seg_len` frames so far.
    pub fn silence_limit_for(&self, seg_len: usize) -> (r: usize)
        ensures
            r == silence_limit(*self, seg_len as int),
    {
        let n = self.silence_schedule.len();
        if n == 0 {
            return self.min_silence_frame;
        }
        let mut i: usize = 0;
        assert(self.silence_schedule@.skip(0) =~= self.silence_schedule@);
        while i + 1 < n
            invariant
                n == self.silence_schedule@.len(),
                n > 0,
                i < n,
                schedule_lookup(self.silence_schedule@, seg_len as int) == schedule_lookup(
                    self.silence_schedule@.skip(i as int),
                    seg_len as int,
                ),
            decreases n - i,
        {
            let (bound, silence) = self.silence_schedule[i];
            if seg_len <= bound {
                return silence;
            }
            assert(self.silence_schedule@.skip(i as int).drop_first() =~= self.silence_schedule@.skip(
                i + 1,
            ));
            i = i + 1;
        }
        assert(self.silence_schedule@.skip(i as int)[0] == self.silence_schedule@[i as int]);
        self.silence_schedule[i].1
    }
}

/// The schedule's bounds ascend while its silence lengths descend.
pub open spec fn schedule_tightens(s: Seq<(usize, usize)>) -> bool {
    forall|i: int, j: int|
        0 <= i < j < s.len() ==> #[trigger] s[i].0 <= #[trigger] s[j].0 && s[i].1 >= s[j].1
}

proof fn lemma_lookup_at_most_first(s: Seq<(usize, usize)>, l: int)
    requires
        s.len() > 0,
        schedule_tightens(s),
    ensures
        schedule_lookup(s, l) <= s[0].1,
    decreases s.len(),
{
    if s.len() > 1 && l > s[0].0 {
        let tail = s.drop_first();
        assert forall|i: int, j: int| 0 <= i < j < tail.len() implies #[trigger] tail[i].0
            <= #[trigger] tail[j].0 && tail[i].1 >= tail[j].1 by {
            assert(tail[i] == s[i + 1] && tail[j] == s[j + 1]);
        }
        lemma_lookup_at_most_first(tail, l);
        assert(tail[0] == s[1]);
        assert(s[0].1 >= s[1].1);
    }
}

/// Under a tightening schedule, the longer the segment so far, the shorter
/// the pause that ends it.
pub proof fn lemma_longer_segment_shorter_pause(s: Seq<(usize, usize)>, l1: int, l2: int)
    requires
        schedule_tightens(s),
        l1 <= l2,
    ensures
        schedule_lookup(s, l1) >= schedule_lookup(s, l2),
    decreases s.len(),
{
    if s.len() > 1 && l2 > s[0].0 {
        let tail = s.drop_first();
        assert forall|i: int, j: int| 0 <= i < j < tail.len() implies #[trigger] tail[i].0
            <= #[trigger] tail[j].0 && tail[i].1 >= tail[j].1 by {
            assert(tail[i] == s[i + 1] && tail[j] == s[j + 1]);
        }
        if l1 > s[0].0 {
            lemma_longer_segment_shorter_pause(tail, l1, l2);
        } else {
            lemma_lookup_at_most_first(tail, l2);
            assert(tail[0] == s[1]);
            assert(s[0].1 >= s[1].1);
        }
    }
}

/// The offline schedule of dynamic VAD tightens.
pub proof fn lemma_funasr_schedule_tightens()
    ensures
        schedule_tightens(funasr_schedule_spec()),
{
    let s = funasr_schedule_spec();
    assert(s.len() == 6);
    assert(s[0] == (500usize, 200usize) && s[1] == (1000usize, 150usize) && s[2] == (
        1500usize,
        100usize,
    ) && s[3] == (3000usize, 80usize) && s[4] == (4500usize, 40usize) && s[5] == (
        usize::MAX,
        10usize,
    ));
}

/// Under dynamic VAD the pause that ends a segment follows the documented
/// table, in 10 ms frames: a segment of up to 5 s needs 2 s of silence, up
/// to 10 s 1.5 s, up to 15 s 1 s, up to 30 s 0.8 s, up to 45 s 0.4 s, and
/// a longer one 0.1 s.
pub proof fn lemma_dynamic_schedule_table(cfg: VadConfig, seg_len: int)
    requires
        cfg.silence_schedule@ == funasr_schedule_spec(),
    ensures
        seg_len <= 500 ==> silence_limit(cfg, seg_len) == 200,
        500 < seg_len <= 1000 ==> silence_limit(cfg, seg_len) == 150,
        1000 < seg_len <= 1500 ==> silence_limit(cfg, seg_len) == 100,
        1500 < seg_len <= 3000 ==> silence_limit(cfg, seg_len) == 80,
        3000 < seg_len <= 4500 ==> silence_limit(cfg, seg_len) == 40,
        4500 < seg_len ==> silence_limit(cfg, seg_len) == 10,
{
    let s = funasr_schedule_spec();
    let s1 = s.drop_first();
    let s2 = s1.drop_first();
    let s3 = s2.drop_first();
    let s4 = s3.drop_first();
    let s5 = s4.drop_first();
    assert(s.len() == 6 && s[0] == (500usize, 200usize));
    assert(s1.len() == 5 && s1[0] == (1000usize, 150usize));
    assert(s2.len() == 4 && s2[0] == (1500usize, 100usize));
    assert(s3.len() == 3 && s3[0] == (3000usize, 80usize));
    assert(s4.len() == 2 && s4[0] == (4500usize, 40usize));
    assert(s5.len() == 1 && s5[0] == (usize::MAX, 10usize));
    assert(schedule_lookup(s5, seg_len) == 10);
    assert(schedule_lookup(s4, seg_len) == if seg_len <= 4500 { 40usize } else { 10usize });
    assert(schedule_lookup(s3, seg_len) == if seg_len <= 3000 {
        80usize
    } else {
        schedule_lookup(s4, seg_len)
    });
    assert(schedule_lookup(s2, seg_len) == if seg_len <= 1500 {
        100usize
    } else {
        schedule_lookup(s3, seg_len)
    });
    assert(schedule_lookup(s1, seg_len) == if seg_len <= 1000 {
        150usize
    } else {
        schedule_lookup(s2, seg_len)
    });
    assert(schedule_lookup(s, seg_len) == if seg_len <= 500 {
        200usize
    } else {
        schedule_lookup(s1, seg_len)
    });
}

} // verus!
