//! The integer side of turning a waveform into an event: where its peak is, the
//! sample sums that the amplitude is computed from, and reset detection.
use vstd::prelude::*;

verus! {

/// The amplitude estimation algorithm.
#[derive(Debug, Clone, Copy, PartialEq, Eq, Structural)]
pub enum Algorithm {
    /// The peak sample above the baseline.
    Max,
    /// The mean of the samples from `left` before the peak to `right` after it,
    /// above the baseline.
    Likhovid { left: usize, right: usize },
}

/// The number of leading samples that the baseline is taken from.
pub const BASELINE_SAMPLES: usize = 16;

/// The time step of one sample, in nanoseconds.
pub const SAMPLE_NS: u64 = 8;

/// The sum of a sequence of samples.
pub open spec fn seq_sum(s: Seq<i16>) -> int
    decreases s.len(),
{
    if s.len() == 0 {
        0
    } else {
        seq_sum(s.drop_last()) + s.last()
    }
}

/// Whether summing the samples left to right stays within `i16` at every step.
pub open spec fn sums_fit_i16(s: Seq<i16>) -> bool {
    forall|k: int| 0 < k <= s.len() ==> i16::MIN <= #[trigger] seq_sum(s.take(k)) <= i16::MAX
}

/// The index of the largest sample; of several equal largest ones, the last.
pub open spec fn argmax_last(s: Seq<i16>) -> int
    decreases s.len(),
{
    if s.len() <= 1 {
        0
    } else {
        let k = argmax_last(s.drop_last());
        if s.last() >= s[k] {
            s.len() - 1
        } else {
            k
        }
    }
}

/// The samples that the baseline is computed from: the first sixteen, or all when
/// there are fewer.
pub open spec fn baseline_samples(w: Seq<i16>) -> Seq<i16> {
    if w.len() < 16 {
        w
    } else {
        w.take(16)
    }
}

/// The bounds `[start, end)` of the averaging window around the peak.
pub open spec fn likhovid_window(w: Seq<i16>, left: usize, right: usize) -> (int, int) {
    let x = argmax_last(w);
    let start = if x >= left {
        x - left
    } else {
        0
    };
    let end = if w.len() < x + right {
        w.len() as int
    } else {
        x + right
    };
    (start, end)
}

/// The sum of the samples of an averaging window and its length.
#[derive(Debug, Clone, Copy, PartialEq, Eq, Structural)]
pub struct WindowSum {
    pub sum: i16,
    pub len: usize,
}

/// The integer quantities an event amplitude is computed from.
#[derive(Debug, Clone, Copy, PartialEq, Eq, Structural)]
pub struct WaveformEvent {
    /// Time of the peak from the frame start, in nanoseconds.
    pub time: u64,
    /// The peak sample.
    pub peak: i16,
    /// The sum of the baseline samples (the baseline is this over sixteen).
    pub baseline_sum: i16,
    /// For the averaging algorithm, the sum of the window and its length.
    pub window: Option<WindowSum>,
}

/// What an event is made of, for a waveform on which it is defined.
pub open spec fn spec_waveform_event(w: Seq<i16>, algorithm: Algorithm) -> WaveformEvent {
    let x = argmax_last(w);
    WaveformEvent {
        time: (x * 8) as u64,
        peak: w[x],
        baseline_sum: seq_sum(baseline_samples(w)) as i16,
        window: match algorithm {
            Algorithm::Max => None,
            Algorithm::Likhovid { left, right } => {
                let (start, end) = likhovid_window(w, left, right);
                Some(WindowSum { sum: seq_sum(w.subrange(start, end)) as i16, len: (end - start) as usize })
            },
        },
    }
}

/// The inputs on which an event is defined: a nonempty waveform whose running sums
/// stay in `i16` and whose peak offsets do not overflow.
pub open spec fn event_defined(w: Seq<i16>, algorithm: Algorithm) -> bool {
    &&& w.len() > 0
    &&& sums_fit_i16(baseline_samples(w))
    &&& argmax_last(w) * 8 <= u64::MAX
    &&& match algorithm {
        Algorithm::Max => true,
        Algorithm::Likhovid { left, right } => {
            &&& argmax_last(w) + right <= usize::MAX
            &&& sums_fit_i16(
                w.subrange(likhovid_window(w, left, right).0, likhovid_window(w, left, right).1),
            )
        },
    }
}

proof fn lemma_argmax_bounds(s: Seq<i16>)
    requires
        s.len() > 0,
    ensures
        0 <= argmax_last(s) < s.len(),
        forall|j: int| 0 <= j < s.len() ==> #[trigger] s[j] <= s[argmax_last(s)],
    decreases s.len(),
{
    if s.len() > 1 {
        let t = s.drop_last();
        lemma_argmax_bounds(t);
        let k = argmax_last(t);
        assert(s[k] == t[k]);
        assert forall|j: int| 0 <= j < s.len() implies #[trigger] s[j] <= s[argmax_last(s)] by {
            if j < s.len() - 1 {
                assert(s[j] == t[j]);
            }
        }
    }
}

/// The sum of `w[start..end)`, for a range whose running sums stay in `i16`.
pub fn sum_range(w: &[i16], start: usize, end: usize) -> (r: i16)
    requires
        start <= end <= w@.len(),
        sums_fit_i16(w@.subrange(start as int, end as int)),
    ensures
        r as int == seq_sum(w@.subrange(start as int, end as int)),
{
    let mut acc: i16 = 0;
    let mut i = start;
    assert(w@.subrange(start as int, start as int) =~= Seq::<i16>::empty());
    while i < end
        invariant
            start <= i <= end <= w@.len(),
            sums_fit_i16(w@.subrange(start as int, end as int)),
            acc as int == seq_sum(w@.subrange(start as int, i as int)),
        decreases end - i,
    {
        let ghost sub = w@.subrange(start as int, end as int);
        let ghost k = i + 1 - start;
        assert(sub.take(k) =~= w@.subrange(start as int, i + 1));
        assert(w@.subrange(start as int, i + 1).drop_last() =~= w@.subrange(start as int, i as int));
        assert(i16::MIN <= seq_sum(sub.take(k)) <= i16::MAX);
        acc = acc + w[i];
        i += 1;
    }
    acc
}

/// The index of the last largest sample.
pub fn argmax(w: &[i16]) -> (r: usize)
    requires
        w@.len() > 0,
    ensures
        r as int == argmax_last(w@),
        r < w@.len(),
{
    let mut best: usize = 0;
    let mut i: usize = 1;
    assert(w@.take(1).len() == 1);
    while i < w.len()
        invariant
            1 <= i <= w@.len(),
            best < i,
            best as int == argmax_last(w@.take(i as int)),
        decreases w@.len() - i,
    {
        assert(w@.take(i + 1).drop_last() =~= w@.take(i as int));
        proof {
            lemma_argmax_bounds(w@.take(i as int));
        }
        if w[i] >= w[best] {
            best = i;
        }
        i += 1;
    }
    assert(w@.take(w@.len() as int) =~= w@);
    best
}

/// The bounds `[start, end)` of the averaging window: from `left` samples before the
/// peak (at least the first sample) to `right` samples after it (at most the end).
pub fn window_bounds(w: &[i16], left: usize, right: usize) -> (r: (usize, usize))
    requires
        w@.len() > 0,
        argmax_last(w@) + right <= usize::MAX,
    ensures
        r.0 as int == likhovid_window(w@, left, right).0,
        r.1 as int == likhovid_window(w@, left, right).1,
        r.0 <= r.1 <= w@.len(),
{
    let n = w.len();
    let x = argmax(w);
    let start: usize = if x >= left {
        x - left
    } else {
        0
    };
    let end: usize = if n < x + right {
        n
    } else {
        x + right
    };
    (start, end)
}

/// The peak time, the peak sample and the sums that the amplitude of the waveform
/// is computed from.
pub fn waveform_event(w: &[i16], algorithm: &Algorithm) -> (r: WaveformEvent)
    requires
        event_defined(w@, *algorithm),
    ensures
        r == spec_waveform_event(w@, *algorithm),
{
    let n = w.len();
    let baseline_end: usize = if n < BASELINE_SAMPLES {
        n
    } else {
        BASELINE_SAMPLES
    };
    assert(w@.subrange(0, baseline_end as int) =~= baseline_samples(w@));
    let baseline_sum = sum_range(w, 0, baseline_end);
    let x = argmax(w);
    let time: u64 = x as u64 * SAMPLE_NS;
    let window = match algorithm {
        Algorithm::Max => None,
        Algorithm::Likhovid { left, right } => {
            let (start, end) = window_bounds(w, *left, *right);
            let s = sum_range(w, start, end);
            Some(WindowSum { sum: s, len: end - start })
        },
    };
    WaveformEvent { time, peak: w[x], baseline_sum, window }
}

/// Whether summing `w[start..end)` left to right stays within `i16` at every step.
pub fn range_sums_fit(w: &[i16], start: usize, end: usize) -> (r: bool)
    requires
        start <= end <= w@.len(),
    ensures
        r == sums_fit_i16(w@.subrange(start as int, end as int)),
{
    let ghost sub = w@.subrange(start as int, end as int);
    let mut acc: i32 = 0;
    let mut i = start;
    assert(sub.take(0) =~= Seq::<i16>::empty());
    while i < end
        invariant
            start <= i <= end <= w@.len(),
            sub == w@.subrange(start as int, end as int),
            acc as int == seq_sum(sub.take(i - start)),
            i16::MIN <= acc <= i16::MAX,
            forall|k: int| 0 < k <= i - start ==> i16::MIN <= #[trigger] seq_sum(sub.take(k)) <= i16::MAX,
        decreases end - i,
    {
        let ghost k = i - start;
        assert(sub.take(k + 1).drop_last() =~= sub.take(k));
        assert(sub.take(k + 1).last() == w@[i as int]);
        let next: i32 = acc + w[i] as i32;
        if next < -32768 || next > 32767 {
            assert(!(i16::MIN <= seq_sum(sub.take(k + 1)) <= i16::MAX));
            return false;
        }
        acc = next;
        i += 1;
    }
    true
}

/// The event of a waveform when it is defined (see `event_defined`), otherwise `None`:
/// on an empty waveform, or where a sum or a peak offset would overflow.
pub fn try_waveform_event(w: &[i16], algorithm: &Algorithm) -> (r: Option<WaveformEvent>)
    ensures
        r == (if event_defined(w@, *algorithm) {
            Some(spec_waveform_event(w@, *algorithm))
        } else {
            None::<WaveformEvent>
        }),
{
    let n = w.len();
    if n == 0 {
        return None;
    }
    let baseline_end: usize = if n < BASELINE_SAMPLES {
        n
    } else {
        BASELINE_SAMPLES
    };
    assert(w@.subrange(0, baseline_end as int) =~= baseline_samples(w@));
    if !range_sums_fit(w, 0, baseline_end) {
        return None;
    }
    let x = argmax(w);
    if (x as u64).checked_mul(SAMPLE_NS).is_none() {
        return None;
    }
    match algorithm {
        Algorithm::Max => {},
        Algorithm::Likhovid { left, right } => {
            if x > usize::MAX - *right {
                return None;
            }
            let (start, end) = window_bounds(w, *left, *right);
            if !range_sums_fit(w, start, end) {
                return None;
            }
        },
    }
    Some(waveform_event(w, algorithm))
}

/// The length of the window in which a detector reset is looked for.
pub const RESET_WINDOW: usize = 30;

/// The jump between the ends of a window that marks a reset.
pub const RESET_JUMP: u16 = 5000;

/// Whether the window starting at `i` spans a reset: its first and last samples
/// differ by more than 5000.
pub open spec fn is_reset_at(w: Seq<i16>, i: int) -> bool {
    &&& 0 <= i
    &&& i + 30 <= w.len()
    &&& (if w[i] >= w[i + 29] {
        w[i] - w[i + 29]
    } else {
        w[i + 29] - w[i]
    }) > 5000
}

/// The first window start at which the waveform has a reset, if any.
pub fn find_reset(w: &[i16]) -> (r: Option<usize>)
    ensures
        match r {
            Some(i) => is_reset_at(w@, i as int) && forall|j: int|
                0 <= j < i ==> !is_reset_at(w@, j),
            None => forall|j: int| !is_reset_at(w@, j),
        },
{
    let n = w.len();
    if n < RESET_WINDOW {
        return None;
    }
    let mut i: usize = 0;
    while i <= n - RESET_WINDOW
        invariant
            n == w@.len(),
            n >= 30,
            i <= n - 29,
            forall|j: int| 0 <= j < i ==> !is_reset_at(w@, j),
        decreases n - i,
    {
        let a = w[i];
        let b = w[i + 29];
        let d: u16 = if a >= b {
            (a as i32 - b as i32) as u16
        } else {
            (b as i32 - a as i32) as u16
        };
        if d > RESET_JUMP {
            return Some(i);
        }
        i += 1;
    }
    None
}

} // verus!
