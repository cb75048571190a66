//! What becomes of silence and of a steady pitch.

use crate::contour::{
    bounded, clean_source, cleaned_fo, detrended, deviation, drift_of, first_at,
    lemma_steady_contour_is_clean, vibrato_lag, window_end, window_start, Frame, SegmentConfig,
    MAX_FRAMES, PITCH_LIMIT,
};
use crate::glide::{merge_short, note_ranges, Piece, Span, Terrain};
use crate::median::{lemma_median_is_sample, upper_median};
use crate::notes::{
    distinct_ascending, is_distinct_ascending, lemma_distinct_ascending_unique, note_starts, scan,
    scanned_bounds, snapped,
};
use crate::segment::{
    lemma_run_end, pitches, plan_from, plan_run, run_end, run_pieces, voicing, Planned,
};
use crate::smooth::{
    autocorrelation_at, lagged_sum, lemma_lowpassed_bound, lemma_lowpassed_steady, lowpassed,
    Kernel,
};
use vstd::prelude::*;

verus! {

/// Whether every sample is `c`.
pub open spec fn all_are(s: Seq<i64>, c: i64) -> bool {
    forall|i: int| 0 <= i < s.len() ==> #[trigger] s[i] == c
}

proof fn lemma_median_of_steady(s: Seq<i64>, c: i64)
    requires
        s.len() > 0,
        all_are(s, c),
    ensures
        upper_median(s) == c,
{
    lemma_median_is_sample(s);
}

proof fn lemma_no_energy(s: Seq<i64>, lag: int, k: int)
    requires
        all_are(s, 0),
        0 <= lag,
        k + lag <= s.len(),
    ensures
        lagged_sum(s, lag, k) == 0,
    decreases k,
{
    if k > 0 {
        lemma_no_energy(s, lag, k - 1);
        assert(s[k - 1] == 0 && s[k - 1 + lag] == 0);
    }
}

/// A note at a steady pitch is all centre: no drift, no rest, no vibrato.
pub proof fn lemma_steady_note(
    cents: Seq<i64>,
    c: i64,
    frame_rate: int,
    config: SegmentConfig,
    kernel: Kernel,
)
    requires
        kernel.wf(),
        0 < cents.len(),
        all_are(cents, c),
        -PITCH_LIMIT <= c <= PITCH_LIMIT,
    ensures
        upper_median(cents) == c,
        all_are(drift_of(cents, kernel@), 0),
        drift_of(cents, kernel@).len() == cents.len(),
        all_are(detrended(cents, kernel@), 0),
        vibrato_lag(detrended(cents, kernel@), frame_rate, config) == 0,
{
    lemma_median_of_steady(cents, c);
    let d = deviation(cents);
    assert(bounded(d, 0));
    lemma_lowpassed_bound(d, kernel, 0);
    let drift = drift_of(cents, kernel@);
    assert forall|i: int| 0 <= i < drift.len() implies #[trigger] drift[i] == 0 by {}
    let rest = detrended(cents, kernel@);
    assert forall|i: int| 0 <= i < rest.len() implies #[trigger] rest[i] == 0 by {
        assert(drift[i] == 0 && d[i] == 0);
    }
    lemma_no_energy(rest, 0, rest.len() as int);
    assert(autocorrelation_at(rest, 0) == 0);
}

/// A contour without a voiced frame is one unvoiced stretch.
pub proof fn lemma_silence_is_unvoiced(
    frames: Seq<Frame>,
    frame_rate: int,
    config: SegmentConfig,
    weights: Seq<u32>,
)
    requires
        0 < frames.len() <= MAX_FRAMES,
        forall|i: int| 0 <= i < frames.len() ==> !(#[trigger] frames[i]).voiced,
    ensures
        plan_from(frames, frame_rate, config, weights, 0) == seq![
            Planned {
                piece: Piece { start: 0, end: frames.len() as usize, glide: 0 },
                note: false,
            },
        ],
{
    let v = voicing(frames, config);
    let n = frames.len() as int;
    assert forall|i: int| 0 <= i < n implies !#[trigger] v[i] by {
        assert(!frames[i].voiced);
    }
    lemma_run_end(v, 0);
    assert(run_end(v, 0) == n);
    assert(plan_from(frames, frame_rate, config, weights, n) =~= Seq::empty());
    assert(plan_from(frames, frame_rate, config, weights, 0) =~= plan_run(
        frames,
        frame_rate,
        config,
        weights,
        0,
        n,
    ));
}

proof fn lemma_scan_steady(run: Seq<i64>, c: i64, stability: int, min_frames: int, j: int)
    requires
        1 <= j <= run.len(),
        all_are(run, c),
        stability >= 0,
    ensures
        ({
            let s = scan(run, stability, min_frames, j);
            &&& s.bounds == seq![0int]
            &&& s.center == c
            &&& s.departed == 0
            &&& s.note.len() > 0
            &&& all_are(s.note, c)
        }),
    decreases j,
{
    if j > 1 {
        lemma_scan_steady(run, c, stability, min_frames, j - 1);
        let s = scan(run, stability, min_frames, j - 1);
        assert(run[j - 1] == c);
        lemma_median_of_steady(s.note.push(run[j - 1]), c);
    }
}

proof fn lemma_steady_starts(run: Seq<i64>, c: i64, stability: int, min_frames: int, radius: int)
    requires
        1 <= run.len(),
        all_are(run, c),
        stability >= 0,
    ensures
        note_starts(run, stability, min_frames, radius) == seq![0int],
{
    lemma_scan_steady(run, c, stability, min_frames, run.len() as int);
    let values = snapped(run, radius, scanned_bounds(run, stability, min_frames));
    assert(values =~= seq![0int]);
    assert(is_distinct_ascending(values, values));
    lemma_distinct_ascending_unique(values, distinct_ascending(values));
}

#[verifier::rlimit(40)]
proof fn lemma_steady_pieces(
    cents: Seq<i64>,
    c: i64,
    frame_rate: int,
    config: SegmentConfig,
    kernel: Kernel,
)
    requires
        kernel.wf(),
        config.min_note_frames <= cents.len() <= MAX_FRAMES,
        1 <= config.min_note_frames,
        0 <= config.stability_cents,
        all_are(cents, c),
        -PITCH_LIMIT <= c <= PITCH_LIMIT,
    ensures
        run_pieces(cents, frame_rate, config, kernel@, 0, cents.len() as int) == seq![
            Piece { start: 0, end: cents.len() as usize, glide: 0 },
        ],
{
    let n = cents.len() as int;
    let min = config.min_note_frames as int;
    assert(cents.subrange(0, n) =~= cents);
    lemma_lowpassed_steady(cents, kernel, c);
    let run = lowpassed(cents, kernel@);
    lemma_steady_starts(
        run,
        c,
        config.stability_cents as int,
        min,
        (kernel@.len() - 1) / 2,
    );
    let starts = seq![0int];
    let ranges = note_ranges(starts, 0, n);
    let whole = Span { start: 0, end: n as usize };
    assert(ranges =~= seq![whole]);
    let merged = merge_short(ranges, min, 1);
    assert(merge_short(ranges, min, 0) =~= Seq::empty());
    assert(merged =~= seq![whole]);
    let t = Terrain { cents, run_start: 0, run_end: n, frame_rate, config };
    lemma_median_of_steady(cents, c);
    assert(!t.is_step(whole));
    let piece = Piece { start: 0, end: n as usize, glide: 0 };
    assert(t.chained(merged, 0) == (Seq::<Piece>::empty(), None::<usize>));
    assert(t.chained(merged, 1).0 =~= seq![piece]);
    let pieces = t.unchained(merged);
    assert(pieces =~= seq![piece]);
    assert(cents[0] == c);
    assert(t.center(0, n) == c);
    assert(t.grow_forward(1, n - min, c as int, 0, 0) == 0);
    assert(t.refine_first(piece) == piece);
    assert(t.refine(pieces, 0) =~= pieces);
    assert(t.refined(pieces, 0) == pieces);
    assert(t.refined(pieces, 1) =~= pieces);
}

/// A contour that holds one pitch throughout, for long enough to be a note, is one
/// note without a glide.
pub proof fn lemma_steady_pitch_is_one_note(
    frames: Seq<Frame>,
    fo: i64,
    cents: i64,
    frame_rate: int,
    config: SegmentConfig,
    kernel: Kernel,
)
    requires
        kernel.wf(),
        config.min_note_frames <= frames.len() <= MAX_FRAMES,
        1 <= config.min_note_frames,
        0 <= config.stability_cents,
        fo > 0,
        -PITCH_LIMIT <= cents <= PITCH_LIMIT,
        forall|i: int|
            0 <= i < frames.len() ==> (#[trigger] frames[i]).voiced && frames[i].fo == fo
                && frames[i].cents == cents,
    ensures
        plan_from(frames, frame_rate, config, kernel@, 0) == seq![
            Planned {
                piece: Piece { start: 0, end: frames.len() as usize, glide: 0 },
                note: true,
            },
        ],
{
    let n = frames.len() as int;
    let w = config.median_window as int;
    let v = voicing(frames, config);
    let p = pitches(frames, config);
    assert forall|i: int| 0 <= i < n implies #[trigger] v[i] by {
        assert(frames[i].voiced);
        lemma_steady_contour_is_clean(frames, w, i, fo);
    }
    assert forall|i: int| 0 <= i < n implies #[trigger] p[i] == cents by {
        assert(frames[i].voiced);
        lemma_steady_contour_is_clean(frames, w, i, fo);
        let start = window_start(i, w);
        let end = window_end(i, w, n);
        assert(frames[start].voiced);
        assert(first_at(frames, start, end, cleaned_fo(frames, w, i), start));
        let k = clean_source(frames, w, i);
        assert(first_at(frames, start, end, cleaned_fo(frames, w, i), k));
        assert(frames[k].cents == cents);
    }
    lemma_run_end(v, 0);
    assert(run_end(v, 0) == n);
    assert(v[0]);
    lemma_steady_pieces(p, cents, frame_rate, config, kernel);
    assert(plan_from(frames, frame_rate, config, kernel@, n) =~= Seq::empty());
    assert(plan_from(frames, frame_rate, config, kernel@, 0) =~= plan_run(
        frames,
        frame_rate,
        config,
        kernel@,
        0,
        n,
    ));
}

} // verus!
