//! Pitch contours in fixed point: median cleaning, smoothing and the
//! decomposition of a note into centre, drift, vibrato and residual.
//!
//! Pitch is carried in nanocents above A4, frequency in nanohertz.

use crate::median::{
    all_but, almost_all, lemma_median_ignores_outlier, lemma_median_is_sample, median_cents,
    upper_median,
};
use crate::num::{max_of, min_of};
use crate::smooth::{
    autocorrelation, autocorrelation_at, gaussian_lowpass, lemma_lowpassed_bound, lowpassed, Kernel,
};
use vstd::prelude::*;

verus! {

/// Largest pitch magnitude in nanocents. Together with the largest number of frames
/// it keeps ten times an autocorrelation within 128 bits.
pub const PITCH_LIMIT: i64 = 120_000_000_000_000;

/// Largest number of frames in one contour: at 200 frames a second, more than three
/// days.
pub const MAX_FRAMES: usize = 0x400_0000;

/// What the segmenter reads of one analysis frame.
#[derive(Clone, Copy, Debug, PartialEq, Eq, Structural)]
pub struct Frame {
    /// Pitch-tracker estimate in nanohertz; zero when there is none.
    pub fo: i64,
    /// The same pitch in nanocents above A4.
    pub cents: i64,
    pub voiced: bool,
    pub silence: bool,
}

/// Whether every value lies within `limit` of zero.
pub open spec fn bounded(s: Seq<i64>, limit: int) -> bool {
    forall|i: int| 0 <= i < s.len() ==> -limit <= #[trigger] s[i] <= limit
}

/// Whether the frames fit the fixed-point arithmetic.
pub open spec fn frames_ok(frames: Seq<Frame>) -> bool {
    &&& frames.len() <= MAX_FRAMES
    &&& forall|i: int|
        0 <= i < frames.len() ==> -PITCH_LIMIT <= (#[trigger] frames[i]).cents <= PITCH_LIMIT
}

/// Whether every value lies within `limit` of zero.
pub fn lies_within(s: &[i64], limit: i64) -> (yes: bool)
    requires
        limit >= 0,
    ensures
        yes == bounded(s@, limit as int),
        yes <==> forall|i: int| 0 <= i < s@.len() ==> -limit <= #[trigger] s@[i] && s@[i] <= limit,
{
    let mut i: usize = 0;
    while i < s.len()
        invariant
            limit >= 0,
            i <= s@.len(),
            forall|k: int| 0 <= k < i ==> -limit <= #[trigger] s@[k] <= limit,
        decreases s@.len() - i,
    {
        if s[i] < -limit || s[i] > limit {
            assert(!(-limit <= s@[i as int] <= limit));
            return false;
        }
        i = i + 1;
    }
    true
}

/// Whether the frames fit the fixed-point arithmetic.
pub fn frames_fit(frames: &[Frame]) -> (yes: bool)
    ensures
        yes == frames_ok(frames@),
        yes <==> frames@.len() <= 0x400_0000 && (forall|i: int|
            0 <= i < frames@.len() ==> -120_000_000_000_000 <= (#[trigger] frames@[i]).cents
                <= 120_000_000_000_000),
{
    if frames.len() > MAX_FRAMES {
        return false;
    }
    let mut i: usize = 0;
    while i < frames.len()
        invariant
            i <= frames@.len() <= MAX_FRAMES,
            forall|k: int|
                0 <= k < i ==> -PITCH_LIMIT <= (#[trigger] frames@[k]).cents <= PITCH_LIMIT,
        decreases frames@.len() - i,
    {
        if frames[i].cents < -PITCH_LIMIT || frames[i].cents > PITCH_LIMIT {
            assert(!(-PITCH_LIMIT <= frames@[i as int].cents <= PITCH_LIMIT));
            return false;
        }
        i = i + 1;
    }
    true
}

// --- median cleaning --------------------------------------------------------

/// The frequencies of the voiced frames in `[start, end)`.
pub open spec fn voiced_fo(frames: Seq<Frame>, start: int, end: int) -> Seq<i64>
    decreases end - start,
{
    if end <= start {
        Seq::empty()
    } else if frames[end - 1].voiced {
        voiced_fo(frames, start, end - 1).push(frames[end - 1].fo)
    } else {
        voiced_fo(frames, start, end - 1)
    }
}

/// First frame of the median window around frame `i`.
pub open spec fn window_start(i: int, median_window: int) -> int {
    max_of(i - median_window / 2, 0)
}

/// End of the median window around frame `i`.
pub open spec fn window_end(i: int, median_window: int, n: int) -> int {
    min_of(i + median_window / 2 + 1, n)
}

/// The cleaned frequency of frame `i`: zero when the frame is unvoiced, else the
/// upper median of the voiced frequencies around it.
pub open spec fn cleaned_fo(frames: Seq<Frame>, median_window: int, i: int) -> i64 {
    if frames[i].voiced {
        upper_median(
            voiced_fo(
                frames,
                window_start(i, median_window),
                window_end(i, median_window, frames.len() as int),
            ),
        )
    } else {
        0
    }
}

proof fn lemma_voiced_fo_member(frames: Seq<Frame>, start: int, end: int, i: int)
    requires
        0 <= start <= i < end <= frames.len(),
        frames[i].voiced,
    ensures
        voiced_fo(frames, start, end).contains(frames[i].fo),
    decreases end - start,
{
    let rest = voiced_fo(frames, start, end - 1);
    let whole = voiced_fo(frames, start, end);
    if i == end - 1 {
        assert(whole[whole.len() - 1] == frames[i].fo);
    } else {
        lemma_voiced_fo_member(frames, start, end - 1, i);
        let k = choose|k: int| 0 <= k < rest.len() && rest[k] == frames[i].fo;
        assert(whole[k] == frames[i].fo);
    }
}

proof fn lemma_voiced_fo_source(frames: Seq<Frame>, start: int, end: int, v: i64)
    requires
        0 <= start <= end <= frames.len(),
        voiced_fo(frames, start, end).contains(v),
    ensures
        exists|k: int| start <= k < end && frames[k].voiced && (#[trigger] frames[k]).fo == v,
    decreases end - start,
{
    let whole = voiced_fo(frames, start, end);
    let at = choose|k: int| 0 <= k < whole.len() && whole[k] == v;
    if end > start {
        let rest = voiced_fo(frames, start, end - 1);
        if frames[end - 1].voiced && at == whole.len() - 1 {
            assert(frames[end - 1].fo == v);
        } else {
            assert(rest[at] == v);
            lemma_voiced_fo_source(frames, start, end - 1, v);
        }
    }
}

/// Whether `k` is the first voiced frame in `[start, end)` at frequency `v`.
pub open spec fn first_at(frames: Seq<Frame>, start: int, end: int, v: i64, k: int) -> bool {
    &&& start <= k < end
    &&& frames[k].voiced && frames[k].fo == v
    &&& forall|m: int|
        start <= m < k ==> !((#[trigger] frames[m]).voiced && frames[m].fo == v)
}

/// The frame whose pitch stands for voiced frame `i` after cleaning.
pub open spec fn clean_source(frames: Seq<Frame>, median_window: int, i: int) -> int {
    let start = window_start(i, median_window);
    let end = window_end(i, median_window, frames.len() as int);
    choose|k: int| first_at(frames, start, end, cleaned_fo(frames, median_window, i), k)
}

/// The cleaned pitch of frame `i` in nanocents; zero when it has no pitch.
pub open spec fn cleaned_cents(frames: Seq<Frame>, median_window: int, i: int) -> i64 {
    if cleaned_fo(frames, median_window, i) > 0 {
        frames[clean_source(frames, median_window, i)].cents
    } else {
        0
    }
}

/// The frame that stands for voiced frame `i` after median cleaning.
fn clean_frame(frames: &[Frame], median_window: usize, i: usize) -> (k: usize)
    requires
        i < frames@.len(),
        frames@[i as int].voiced,
    ensures
        k < frames@.len(),
        frames@[k as int].voiced,
        k == clean_source(frames@, median_window as int, i as int),
        frames@[k as int].fo == cleaned_fo(frames@, median_window as int, i as int),
{
    let half: usize = median_window / 2;
    let start: usize = if i >= half { i - half } else { 0 };
    let end: usize = if half >= frames.len() - i { frames.len() } else { i + half + 1 };
    let mut values: Vec<i64> = Vec::new();
    let mut j: usize = start;
    while j < end
        invariant
            start <= j <= end <= frames@.len(),
            values@ == voiced_fo(frames@, start as int, j as int),
        decreases end - j,
    {
        if frames[j].voiced {
            values.push(frames[j].fo);
        }
        j = j + 1;
    }
    proof {
        lemma_voiced_fo_member(frames@, start as int, end as int, i as int);
    }
    let v: i64 = median_cents(values.as_slice());
    proof {
        lemma_voiced_fo_source(frames@, start as int, end as int, v);
    }
    let mut k: usize = start;
    while !(frames[k].voiced && frames[k].fo == v)
        invariant
            start <= k < end <= frames@.len(),
            exists|q: int|
                k <= q < end && frames@[q].voiced && (#[trigger] frames@[q]).fo == v,
            forall|m: int|
                start <= m < k ==> !((#[trigger] frames@[m]).voiced && frames@[m].fo == v),
        decreases end - k,
    {
        k = k + 1;
    }
    assert(first_at(frames@, start as int, end as int, v, k as int));
    let ghost chosen = clean_source(frames@, median_window as int, i as int);
    assert(first_at(frames@, start as int, end as int, v, chosen));
    assert(chosen == k) by {
        assert(frames@[k as int].voiced && frames@[chosen].voiced);
    }
    k
}

/// Median-filter the frequency contour: unvoiced frames give zero, voiced frames
/// the median of the voiced frequencies around them. Kills single-frame jumps.
pub fn clean_contour(frames: &[Frame], median_window: usize) -> (cleaned: Vec<i64>)
    ensures
        cleaned@ == Seq::new(
            frames@.len(),
            |i: int| cleaned_fo(frames@, median_window as int, i),
        ),
{
    let mut cleaned: Vec<i64> = Vec::new();
    let mut i: usize = 0;
    while i < frames.len()
        invariant
            i <= frames@.len(),
            cleaned@ == Seq::new(
                i as nat,
                |k: int| cleaned_fo(frames@, median_window as int, k),
            ),
        decreases frames@.len() - i,
    {
        if frames[i].voiced {
            let k: usize = clean_frame(frames, median_window, i);
            cleaned.push(frames[k].fo);
        } else {
            cleaned.push(0);
        }
        i = i + 1;
    }
    cleaned
}

/// The cleaned contour in nanocents; zero for frames without a pitch.
pub fn clean_contour_cents(frames: &[Frame], median_window: usize) -> (cents: Vec<i64>)
    requires
        frames_ok(frames@),
    ensures
        cents@ == Seq::new(
            frames@.len(),
            |i: int| cleaned_cents(frames@, median_window as int, i),
        ),
        bounded(cents@, PITCH_LIMIT as int),
{
    let mut cents: Vec<i64> = Vec::new();
    let mut i: usize = 0;
    while i < frames.len()
        invariant
            frames_ok(frames@),
            i <= frames@.len(),
            bounded(cents@, PITCH_LIMIT as int),
            cents@ == Seq::new(
                i as nat,
                |k: int| cleaned_cents(frames@, median_window as int, k),
            ),
        decreases frames@.len() - i,
    {
        if frames[i].voiced {
            let k: usize = clean_frame(frames, median_window, i);
            if frames[k].fo > 0 {
                cents.push(frames[k].cents);
            } else {
                cents.push(0);
            }
        } else {
            cents.push(0);
        }
        i = i + 1;
    }
    cents
}

proof fn lemma_voiced_fo_almost(frames: Seq<Frame>, start: int, end: int, j: int, c: i64)
    requires
        0 <= start <= end <= frames.len(),
        forall|k: int|
            start <= k < end && k != j && (#[trigger] frames[k]).voiced ==> frames[k].fo == c,
    ensures
        almost_all(voiced_fo(frames, start, end), c),
        !(start <= j < end) ==> all_but(voiced_fo(frames, start, end), c, -1),
    decreases end - start,
{
    let whole = voiced_fo(frames, start, end);
    if end > start {
        let rest = voiced_fo(frames, start, end - 1);
        lemma_voiced_fo_almost(frames, start, end - 1, j, c);
        if j == end - 1 {
            assert(all_but(whole, c, rest.len() as int));
        } else {
            let at = choose|at: int| #[trigger] all_but(rest, c, at);
            assert(all_but(whole, c, at));
        }
    } else {
        assert(all_but(whole, c, -1));
    }
}

/// A jump of a single frame leaves no trace in the cleaned contour: where the voiced
/// frames around frame `i` have one frequency, but for frame `j`, and there are three
/// of them at least, that is the cleaned frequency of frame `i`, even at the jump.
pub proof fn lemma_single_jump_suppressed(
    frames: Seq<Frame>,
    median_window: int,
    i: int,
    j: int,
    c: i64,
)
    requires
        0 <= i < frames.len(),
        median_window >= 0,
        frames[i].voiced,
        ({
            let start = window_start(i, median_window);
            let end = window_end(i, median_window, frames.len() as int);
            &&& voiced_fo(frames, start, end).len() >= 3
            &&& forall|k: int|
                start <= k < end && k != j && (#[trigger] frames[k]).voiced ==> frames[k].fo == c
        }),
    ensures
        cleaned_fo(frames, median_window, i) == c,
{
    let start = window_start(i, median_window);
    let end = window_end(i, median_window, frames.len() as int);
    lemma_voiced_fo_almost(frames, start, end, j, c);
    lemma_median_ignores_outlier(voiced_fo(frames, start, end), c);
}

/// A steady contour is clean already.
pub proof fn lemma_steady_contour_is_clean(
    frames: Seq<Frame>,
    median_window: int,
    i: int,
    c: i64,
)
    requires
        0 <= i < frames.len(),
        median_window >= 0,
        frames[i].voiced,
        forall|k: int| 0 <= k < frames.len() && (#[trigger] frames[k]).voiced ==> frames[k].fo == c,
    ensures
        cleaned_fo(frames, median_window, i) == c,
{
    let start = window_start(i, median_window);
    let end = window_end(i, median_window, frames.len() as int);
    let s = voiced_fo(frames, start, end);
    lemma_voiced_fo_member(frames, start, end, i);
    lemma_median_is_sample(s);
    lemma_voiced_fo_source(frames, start, end, upper_median(s));
}

// --- segmentation settings --------------------------------------------------

/// Settings of the segmenter. Pitches are in nanocents, frequencies in nanohertz.
#[derive(Clone, Copy, Debug, PartialEq, Eq, Structural)]
pub struct SegmentConfig {
    pub stability_cents: i64,
    pub min_note_frames: usize,
    pub median_window: usize,
    pub drift_cutoff_hz: u64,
    pub vibrato_min_hz: u64,
    pub vibrato_max_hz: u64,
    pub glide_slope_cents_per_sec: i64,
    pub glide_min_cents: i64,
    pub max_glide_frames: usize,
}

impl Default for SegmentConfig {
    fn default() -> (config: Self)
        ensures
            config.stability_cents == 50_000_000_000,
            config.min_note_frames == 6,
            config.median_window == 5,
            config.drift_cutoff_hz == 2_000_000_000,
            config.vibrato_min_hz == 4_000_000_000,
            config.vibrato_max_hz == 8_000_000_000,
            config.glide_slope_cents_per_sec == 400_000_000_000,
            config.glide_min_cents == 40_000_000_000,
            config.max_glide_frames == 60,
    {
        SegmentConfig {
            stability_cents: 50_000_000_000,
            min_note_frames: 6,
            median_window: 5,
            drift_cutoff_hz: 2_000_000_000,
            vibrato_min_hz: 4_000_000_000,
            vibrato_max_hz: 8_000_000_000,
            glide_slope_cents_per_sec: 400_000_000_000,
            glide_min_cents: 40_000_000_000,
            max_glide_frames: 60,
        }
    }
}

// --- decomposition of one note ----------------------------------------------

/// The pitch of one note. The note covers `onset_glide.len()` glide frames
/// followed by its core; `drift`, `vibrato_amp`, `vibrato_phase` and `residual`
/// are tracks over the core.
#[derive(Debug)]
pub struct NoteContour {
    /// Median pitch of the core, in nanocents.
    pub center_cents: i64,
    /// Glide shape: entry `j` over `onset_glide_span` is 0 at the previous pitch
    /// and 1 at this note's entry pitch, and may overshoot. Empty when the note
    /// has no onset glide.
    pub onset_glide: Vec<i64>,
    pub onset_glide_span: i64,
    pub onset_glide_depth_cents: i64,
    pub drift: Vec<i64>,
    /// Frames per vibrato cycle; zero when the note has no vibrato.
    pub vibrato_lag: usize,
    pub vibrato_amp: Vec<i64>,
    pub vibrato_phase: Vec<i64>,
    pub residual: Vec<i64>,
}

/// Whether two contours hold the same numbers.
pub open spec fn same_contour(a: NoteContour, b: NoteContour) -> bool {
    &&& a.center_cents == b.center_cents
    &&& a.onset_glide@ == b.onset_glide@
    &&& a.onset_glide_span == b.onset_glide_span
    &&& a.onset_glide_depth_cents == b.onset_glide_depth_cents
    &&& a.drift@ == b.drift@
    &&& a.vibrato_lag == b.vibrato_lag
    &&& a.vibrato_amp@ == b.vibrato_amp@
    &&& a.vibrato_phase@ == b.vibrato_phase@
    &&& a.residual@ == b.residual@
}

impl Clone for NoteContour {
    fn clone(&self) -> (copy: Self)
        ensures
            same_contour(copy, *self),
    {
        NoteContour {
            center_cents: self.center_cents,
            onset_glide: self.onset_glide.clone(),
            onset_glide_span: self.onset_glide_span,
            onset_glide_depth_cents: self.onset_glide_depth_cents,
            drift: self.drift.clone(),
            vibrato_lag: self.vibrato_lag,
            vibrato_amp: self.vibrato_amp.clone(),
            vibrato_phase: self.vibrato_phase.clone(),
            residual: self.residual.clone(),
        }
    }
}

/// How far each pitch lies from their median.
pub open spec fn deviation(cents: Seq<i64>) -> Seq<i64> {
    Seq::new(cents.len(), |i: int| (cents[i] - upper_median(cents)) as i64)
}

/// The slow part of the deviation.
pub open spec fn drift_of(cents: Seq<i64>, weights: Seq<u32>) -> Seq<i64> {
    lowpassed(deviation(cents), weights)
}

/// What the drift leaves of the deviation.
pub open spec fn detrended(cents: Seq<i64>, weights: Seq<u32>) -> Seq<i64> {
    Seq::new(
        cents.len(),
        |i: int| (deviation(cents)[i] - drift_of(cents, weights)[i]) as i64,
    )
}

/// The quotient rounded up.
pub open spec fn ceil_quotient(a: int, b: int) -> int {
    (a + b - 1) / b
}

/// The first lag in `[lo, hi]` at which the autocorrelation is largest.
pub open spec fn first_peak(signal: Seq<i64>, lo: int, hi: int) -> int
    decreases hi - lo,
{
    if hi <= lo {
        lo
    } else {
        let p = first_peak(signal, lo, hi - 1);
        if autocorrelation_at(signal, hi) > autocorrelation_at(signal, p) {
            hi
        } else {
            p
        }
    }
}

/// Shortest lag at which vibrato is looked for.
pub open spec fn vibrato_lag_min(frame_rate: int, config: SegmentConfig) -> int {
    frame_rate / config.vibrato_max_hz as int
}

/// Longest lag at which vibrato is looked for in a note of `n` frames.
pub open spec fn vibrato_lag_max(n: int, frame_rate: int, config: SegmentConfig) -> int {
    min_of(ceil_quotient(frame_rate, config.vibrato_min_hz as int), n - 1)
}

/// The vibrato period of a detrended track in frames, or zero. There is vibrato
/// when the track holds two periods of the slowest vibrato, carries energy, and
/// its autocorrelation peaks in the vibrato range above three tenths of that
/// energy.
pub open spec fn vibrato_lag(track: Seq<i64>, frame_rate: int, config: SegmentConfig) -> int {
    let n = track.len() as int;
    let lo = vibrato_lag_min(frame_rate, config);
    let hi = vibrato_lag_max(n, frame_rate, config);
    if config.vibrato_min_hz == 0 || config.vibrato_max_hz == 0 {
        0
    } else if n < ceil_quotient(2 * frame_rate, config.vibrato_min_hz as int) {
        0
    } else if autocorrelation_at(track, 0) < 100_000_000 {
        0
    } else if lo > hi {
        0
    } else if 10 * autocorrelation_at(track, first_peak(track, lo, hi)) <= 3
        * autocorrelation_at(track, 0) {
        0
    } else {
        first_peak(track, lo, hi)
    }
}

/// Whether `contour` describes the core pitches `cents` before any vibrato has
/// been taken out: centre, drift and the detrended rest.
pub open spec fn describes(
    contour: NoteContour,
    cents: Seq<i64>,
    frame_rate: int,
    config: SegmentConfig,
    weights: Seq<u32>,
) -> bool {
    &&& contour.center_cents == upper_median(cents)
    &&& contour.drift@ == drift_of(cents, weights)
    &&& contour.residual@ == detrended(cents, weights)
    &&& contour.vibrato_lag == vibrato_lag(detrended(cents, weights), frame_rate, config)
    &&& contour.vibrato_amp@ == Seq::new(cents.len(), |i: int| 0i64)
    &&& contour.vibrato_phase@ == Seq::new(cents.len(), |i: int| 0i64)
}

/// Bounds of the tracks that a decomposition computes.
pub proof fn lemma_decomposition_bounds(cents: Seq<i64>, kernel: Kernel)
    requires
        kernel.wf(),
        cents.len() > 0,
        bounded(cents, PITCH_LIMIT as int),
    ensures
        -PITCH_LIMIT <= upper_median(cents) <= PITCH_LIMIT,
        bounded(deviation(cents), 2 * PITCH_LIMIT),
        bounded(drift_of(cents, kernel@), 2 * PITCH_LIMIT),
        drift_of(cents, kernel@).len() == cents.len(),
        bounded(detrended(cents, kernel@), 4 * PITCH_LIMIT),
        forall|i: int|
            0 <= i < cents.len() ==> #[trigger] deviation(cents)[i] == cents[i] - upper_median(
                cents,
            ),
        forall|i: int|
            0 <= i < cents.len() ==> #[trigger] detrended(cents, kernel@)[i] == cents[i]
                - upper_median(cents) - drift_of(cents, kernel@)[i],
{
    crate::median::lemma_median_is_sample(cents);
    let d = deviation(cents);
    assert(bounded(d, 2 * PITCH_LIMIT)) by {
        assert forall|i: int| 0 <= i < d.len() implies -2 * PITCH_LIMIT <= #[trigger] d[i] <= 2
            * PITCH_LIMIT by {
            assert(cents[i] == cents[i]);
        }
    }
    lemma_lowpassed_bound(d, kernel, 2 * PITCH_LIMIT);
    let r = drift_of(cents, kernel@);
    assert forall|i: int| 0 <= i < cents.len() implies #[trigger] detrended(cents, kernel@)[i]
        == cents[i] - upper_median(cents) - r[i] by {
        assert(d[i] == cents[i] - upper_median(cents));
        assert(-2 * PITCH_LIMIT <= r[i] <= 2 * PITCH_LIMIT);
        assert(-2 * PITCH_LIMIT <= d[i] <= 2 * PITCH_LIMIT);
    }
    assert forall|i: int| 0 <= i < cents.len() implies -4 * PITCH_LIMIT <= #[trigger] detrended(
        cents,
        kernel@,
    )[i] <= 4 * PITCH_LIMIT by {
        assert(-2 * PITCH_LIMIT <= r[i] <= 2 * PITCH_LIMIT);
        assert(-2 * PITCH_LIMIT <= d[i] <= 2 * PITCH_LIMIT);
    }
}

/// The vibrato period of a detrended track in frames, or zero.
pub fn find_vibrato_lag(track: &[i64], frame_rate: u64, config: &SegmentConfig) -> (lag: usize)
    requires
        0 < track@.len() <= MAX_FRAMES,
        bounded(track@, 4 * PITCH_LIMIT),
    ensures
        lag == vibrato_lag(track@, frame_rate as int, *config),
        lag < track@.len(),
{
    if config.vibrato_min_hz == 0 || config.vibrato_max_hz == 0 {
        return 0;
    }
    let n: usize = track.len();
    let rate: u128 = frame_rate as u128;
    let slowest: u128 = config.vibrato_min_hz as u128;
    if (n as u128) < (2 * rate + slowest - 1) / slowest {
        return 0;
    }
    let wide_min: u128 = rate / config.vibrato_max_hz as u128;
    let wide_max: u128 = (rate + slowest - 1) / slowest;
    let last: usize = if wide_max < (n - 1) as u128 { wide_max as usize } else { n - 1 };
    let acorr: Vec<i128> = autocorrelation(track, last);
    if acorr[0] < 100_000_000 {
        return 0;
    }
    if wide_min > last as u128 {
        return 0;
    }
    let first: usize = wide_min as usize;
    let mut best: usize = first;
    let mut lag: usize = first;
    while lag < last
        invariant
            first <= best <= lag <= last < n,
            n == track@.len(),
            acorr@.len() == last + 1,
            best == first_peak(track@, first as int, lag as int),
            forall|m: int|
                0 <= m < acorr@.len() ==> #[trigger] acorr@[m] == autocorrelation_at(track@, m),
        decreases last - lag,
    {
        lag = lag + 1;
        if acorr[lag] > acorr[best] {
            best = lag;
        }
    }
    if 10 * acorr[best] <= 3 * acorr[0] {
        0
    } else {
        best
    }
}

/// Decompose the core pitches of a note into centre, drift and rest, and tell the
/// period of the vibrato in it. The vibrato itself is still part of the rest:
/// `NoteContour::set_vibrato` takes it out.
pub fn decompose_contour(
    cents: &[i64],
    frame_rate: u64,
    config: &SegmentConfig,
    kernel: &Kernel,
) -> (contour: NoteContour)
    requires
        0 < cents@.len() <= MAX_FRAMES,
        bounded(cents@, PITCH_LIMIT as int),
        kernel.wf(),
    ensures
        describes(contour, cents@, frame_rate as int, *config, kernel@),
        contour.onset_glide@.len() == 0,
        contour.onset_glide_span == 1,
        contour.onset_glide_depth_cents == 0,
{
    let n: usize = cents.len();
    let center: i64 = median_cents(cents);
    proof {
        lemma_decomposition_bounds(cents@, *kernel);
    }
    let mut dev: Vec<i64> = Vec::new();
    let mut zeros: Vec<i64> = Vec::new();
    let mut flat: Vec<i64> = Vec::new();
    let mut i: usize = 0;
    while i < n
        invariant
            n == cents@.len(),
            bounded(cents@, PITCH_LIMIT as int),
            center == upper_median(cents@),
            -PITCH_LIMIT <= center <= PITCH_LIMIT,
            i <= n,
            dev@ == deviation(cents@).take(i as int),
            zeros@ == Seq::new(i as nat, |k: int| 0i64),
            flat@ == Seq::new(i as nat, |k: int| 0i64),
        decreases n - i,
    {
        assert(deviation(cents@).take(i as int).push(deviation(cents@)[i as int])
            =~= deviation(cents@).take(i + 1));
        dev.push(cents[i] - center);
        zeros.push(0);
        flat.push(0);
        i = i + 1;
    }
    assert(dev@ =~= deviation(cents@));
    let drift: Vec<i64> = gaussian_lowpass(dev.as_slice(), kernel);
    let mut rest: Vec<i64> = Vec::new();
    i = 0;
    while i < n
        invariant
            n == cents@.len(),
            dev@ == deviation(cents@),
            drift@ == drift_of(cents@, kernel@),
            drift@.len() == n,
            bounded(dev@, 2 * PITCH_LIMIT),
            bounded(drift@, 2 * PITCH_LIMIT),
            i <= n,
            rest@ == detrended(cents@, kernel@).take(i as int),
        decreases n - i,
    {
        assert(-2 * PITCH_LIMIT <= dev@[i as int] <= 2 * PITCH_LIMIT);
        assert(-2 * PITCH_LIMIT <= drift@[i as int] <= 2 * PITCH_LIMIT);
        assert(detrended(cents@, kernel@).take(i as int).push(
            detrended(cents@, kernel@)[i as int],
        ) =~= detrended(cents@, kernel@).take(i + 1));
        rest.push(dev[i] - drift[i]);
        i = i + 1;
    }
    assert(rest@ =~= detrended(cents@, kernel@));
    let lag: usize = find_vibrato_lag(rest.as_slice(), frame_rate, config);
    NoteContour {
        center_cents: center,
        onset_glide: Vec::new(),
        onset_glide_span: 1,
        onset_glide_depth_cents: 0,
        drift,
        vibrato_lag: lag,
        vibrato_amp: zeros,
        vibrato_phase: flat,
        residual: rest,
    }
}

} // verus!
