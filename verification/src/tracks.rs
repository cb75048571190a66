//! Laws of tracks: smoothing, autocorrelation, phase, and the search for vibrato.

use crate::contour::{
    bounded, detrended, deviation, describes, drift_of, first_peak, vibrato_lag, NoteContour,
    SegmentConfig,
};
use crate::num::lemma_rounded_quotient;
use crate::ranks::lemma_median_moves;
use crate::smooth::{
    autocorrelation_at, lagged_sum, lowpassed, reflected, weight_sum, weighted, Kernel,
};
use crate::vibrato::{
    analytic_gain, bin_near_vibrato, excursion, is_swing, lemma_swung_bound, reconstructed,
    square_sum, unwrapped, vibrato_track,
};
use vstd::prelude::*;

verus! {

// --- smoothing --------------------------------------------------------------

/// Padding reflects a signal at its first and last sample: `d` before the first stands the
/// sample `d` after it, and `d` after the last the sample `d` before it, as far as there
/// are any; beyond that the other end.
pub proof fn lemma_padding_reflects(n: int, radius: int, d: int)
    requires
        n >= 1,
        radius >= 0,
        d >= 0,
    ensures
        d < n ==> reflected(n, radius, radius + d) == d,
        1 <= d <= radius && d < n ==> reflected(n, radius, radius - d) == d,
        1 <= d <= radius && d >= n ==> reflected(n, radius, radius - d) == n - 1,
        1 <= d < n ==> reflected(n, radius, radius + n - 1 + d) == n - 1 - d,
        1 <= d && d >= n ==> reflected(n, radius, radius + n - 1 + d) == 0,
{
}

/// Each value of a smoothed signal is the nearest one to the weighted mean.
pub proof fn lemma_smoothed_is_mean(signal: Seq<i64>, kernel: Kernel, limit: int, i: int)
    requires
        kernel.wf(),
        bounded(signal, limit),
        0 <= limit <= 0x7fff_ffff_ffff_ffff,
        kernel@.len() > 1,
        signal.len() > 1,
        0 <= i < signal.len(),
    ensures
        ({
            let total = weight_sum(kernel@, kernel@.len() as int);
            let sum = weighted(signal, kernel@, i, kernel@.len() as int);
            let mean = lowpassed(signal, kernel@)[i];
            -total <= 2 * (sum - mean * total) < total
        }),
{
    kernel.lemma_wf();
    let len = kernel@.len() as int;
    let total = weight_sum(kernel@, len);
    let sum = weighted(signal, kernel@, i, len);
    lemma_rounded_quotient(sum, total, 0);
    crate::smooth::lemma_mean_within(signal, kernel, limit, i);
}

/// Each weight meets one sample: the one that stands as far from sample `i` as the weight from the
/// middle, reflected at the first and the last sample where it would lie beyond. A kernel of one
/// weight, or a signal of one sample, leaves the signal as it is.
pub proof fn lemma_each_weight_meets_its_sample(
    signal: Seq<i64>,
    weights: Seq<u32>,
    i: int,
    k: int,
)
    requires
        weights.len() % 2 == 1,
        0 <= i < signal.len(),
        0 <= k < weights.len(),
    ensures
        ({
            let n = signal.len() as int;
            let p = i + k - (weights.len() - 1) / 2;
            let q = if p < 0 { -p } else if p >= n { 2 * (n - 1) - p } else { p };
            let at = if q < 0 { 0 } else if q >= n { n - 1 } else { q };
            weighted(signal, weights, i, k + 1) - weighted(signal, weights, i, k) == signal[at]
                * weights[k]
        }),
        weighted(signal, weights, i, 0) == 0,
        weight_sum(weights, k + 1) - weight_sum(weights, k) == weights[k],
        weight_sum(weights, 0) == 0,
        weights.len() == 1 || signal.len() == 1 ==> lowpassed(signal, weights) == signal,
{
}

proof fn lemma_weighted_moves(
    signal: Seq<i64>,
    moved: Seq<i64>,
    c: int,
    weights: Seq<u32>,
    i: int,
    k: int,
)
    requires
        moved.len() == signal.len(),
        signal.len() > 0,
        0 <= i < signal.len(),
        0 <= k <= weights.len(),
        weights.len() % 2 == 1,
        forall|j: int| 0 <= j < signal.len() ==> #[trigger] moved[j] == signal[j] + c,
    ensures
        weighted(moved, weights, i, k) == weighted(signal, weights, i, k) + c * weight_sum(
            weights,
            k,
        ),
    decreases k,
{
    if k > 0 {
        lemma_weighted_moves(signal, moved, c, weights, i, k - 1);
        let radius = (weights.len() - 1) / 2;
        let p = reflected(signal.len() as int, radius, i + k - 1);
        assert(0 <= p < signal.len());
        let v = signal[p] as int;
        let w = weights[k - 1] as int;
        let s = weight_sum(weights, k - 1);
        assert((v + c) * w == v * w + c * w) by (nonlinear_arith);
        assert(c * (s + w) == c * s + c * w) by (nonlinear_arith);
    } else {
        assert(c * 0 == 0);
    }
}

/// Smoothing does not depend on the height of a signal: moved as a whole, it is smoothed to
/// the same values moved.
pub proof fn lemma_smoothing_moves(
    signal: Seq<i64>,
    moved: Seq<i64>,
    c: int,
    kernel: Kernel,
    limit: int,
    i: int,
)
    requires
        kernel.wf(),
        0 <= limit <= 0x7fff_ffff_ffff_ffff,
        bounded(signal, limit),
        bounded(moved, limit),
        moved.len() == signal.len(),
        forall|j: int| 0 <= j < signal.len() ==> #[trigger] moved[j] == signal[j] + c,
        0 <= i < signal.len(),
    ensures
        lowpassed(moved, kernel@)[i] == lowpassed(signal, kernel@)[i] + c,
{
    if kernel@.len() > 1 && signal.len() > 1 {
        kernel.lemma_wf();
        let len = kernel@.len() as int;
        let total = weight_sum(kernel@, len);
        lemma_smoothed_is_mean(signal, kernel, limit, i);
        lemma_smoothed_is_mean(moved, kernel, limit, i);
        lemma_weighted_moves(signal, moved, c, kernel@, i, len);
        let a = weighted(signal, kernel@, i, len);
        let b = weighted(moved, kernel@, i, len);
        let x = lowpassed(signal, kernel@)[i] as int;
        let y = lowpassed(moved, kernel@)[i] as int;
        assert(y == x + c) by (nonlinear_arith)
            requires
                b == a + c * total,
                -total <= 2 * (a - x * total) < total,
                -total <= 2 * (b - y * total) < total,
                total > 0,
        ;
    }
}

proof fn lemma_weighted_backwards(
    signal: Seq<i64>,
    back: Seq<i64>,
    weights: Seq<u32>,
    i: int,
    k: int,
)
    requires
        back.len() == signal.len(),
        signal.len() > 0,
        0 <= i < signal.len(),
        0 <= k <= weights.len(),
        weights.len() % 2 == 1,
        forall|j: int|
            0 <= j < signal.len() ==> #[trigger] back[j] == signal[signal.len() - 1 - j],
        forall|j: int|
            0 <= j < weights.len() ==> #[trigger] weights[j] == weights[weights.len() - 1 - j],
    ensures
        weighted(back, weights, signal.len() - 1 - i, k) + weighted(
            signal,
            weights,
            i,
            weights.len() - k,
        ) == weighted(signal, weights, i, weights.len() as int),
    decreases k,
{
    if k > 0 {
        lemma_weighted_backwards(signal, back, weights, i, k - 1);
        let n = signal.len() as int;
        let len = weights.len() as int;
        let radius = (len - 1) / 2;
        let p = reflected(n, radius, (n - 1 - i) + k - 1);
        let q = reflected(n, radius, i + (len - k));
        assert(0 <= p < n && 0 <= q < n);
        assert(p == n - 1 - q);
        assert(back[p] == signal[q]);
        assert(weights[k - 1] == weights[len - 1 - (k - 1)]);
    }
}

/// Smoothing with a symmetric kernel has no direction in time: a signal played backwards is
/// smoothed to the same values backwards.
pub proof fn lemma_smoothing_backwards(
    signal: Seq<i64>,
    back: Seq<i64>,
    weights: Seq<u32>,
    i: int,
)
    requires
        weights.len() % 2 == 1,
        back.len() == signal.len(),
        forall|j: int|
            0 <= j < signal.len() ==> #[trigger] back[j] == signal[signal.len() - 1 - j],
        forall|j: int|
            0 <= j < weights.len() ==> #[trigger] weights[j] == weights[weights.len() - 1 - j],
        0 <= i < signal.len(),
    ensures
        lowpassed(back, weights)[signal.len() - 1 - i] == lowpassed(signal, weights)[i],
{
    if weights.len() > 1 && signal.len() > 1 {
        lemma_weighted_backwards(signal, back, weights, i, weights.len() as int);
    } else {
        assert(back[signal.len() - 1 - i] == signal[i]);
    }
}

proof fn lemma_weighted_differs(
    signal: Seq<i64>,
    other: Seq<i64>,
    j: int,
    weights: Seq<u32>,
    i: int,
    k: int,
)
    requires
        weights.len() % 2 == 1,
        other.len() == signal.len(),
        (weights.len() - 1) / 2 <= i < signal.len() - (weights.len() - 1) / 2,
        0 <= j < signal.len(),
        0 <= k <= weights.len(),
        forall|m: int| 0 <= m < signal.len() && m != j ==> #[trigger] other[m] == signal[m],
    ensures
        ({
            let at = j - i + (weights.len() - 1) / 2;
            weighted(other, weights, i, k) - weighted(signal, weights, i, k) == (if 0 <= at < k {
                (other[j] - signal[j]) * weights[at]
            } else {
                0
            })
        }),
    decreases k,
{
    if k > 0 {
        lemma_weighted_differs(signal, other, j, weights, i, k - 1);
        let radius = (weights.len() - 1) / 2;
        let p = reflected(signal.len() as int, radius, i + k - 1);
        assert(p == i + k - 1 - radius);
        let w = weights[k - 1] as int;
        assert((other[j] - signal[j]) * w == other[j] * w - signal[j] * w) by (nonlinear_arith);
    }
}

/// Each weight is what its sample counts for: away from the ends, changing one sample changes
/// the weighted sum by the change times the weight that stands over the sample, and not at
/// all where none does.
pub proof fn lemma_weights_stand_over_samples(
    signal: Seq<i64>,
    other: Seq<i64>,
    j: int,
    weights: Seq<u32>,
    i: int,
)
    requires
        weights.len() % 2 == 1,
        other.len() == signal.len(),
        (weights.len() - 1) / 2 <= i < signal.len() - (weights.len() - 1) / 2,
        0 <= j < signal.len(),
        forall|m: int| 0 <= m < signal.len() && m != j ==> #[trigger] other[m] == signal[m],
    ensures
        ({
            let at = j - i + (weights.len() - 1) / 2;
            weighted(other, weights, i, weights.len() as int) - weighted(
                signal,
                weights,
                i,
                weights.len() as int,
            ) == (if 0 <= at < weights.len() {
                (other[j] - signal[j]) * weights[at]
            } else {
                0
            })
        }),
{
    lemma_weighted_differs(signal, other, j, weights, i, weights.len() as int);
}

// --- autocorrelation --------------------------------------------------------

proof fn lemma_lagged_prefix(s: Seq<i64>, x: i64, lag: int, k: int)
    requires
        0 <= lag,
        k + lag <= s.len(),
    ensures
        lagged_sum(s.push(x), lag, k) == lagged_sum(s, lag, k),
    decreases k,
{
    if k > 0 {
        lemma_lagged_prefix(s, x, lag, k - 1);
    }
}

/// The autocorrelation at a lag gains, with every sample, its product with the sample that
/// came `lag` before it; without samples it is nothing.
pub proof fn lemma_autocorrelation_grows(s: Seq<i64>, x: i64, lag: int)
    requires
        0 <= lag <= s.len(),
    ensures
        lag == 0 ==> autocorrelation_at(s.push(x), lag) == autocorrelation_at(s, lag) + x * x,
        lag > 0 ==> autocorrelation_at(s.push(x), lag) == autocorrelation_at(s, lag) + s[s.len()
            - lag] * x,
        lag == s.len() ==> autocorrelation_at(s, lag) == 0,
{
    lemma_lagged_prefix(s, x, lag, s.len() - lag);
    let t = s.push(x);
    assert(t[t.len() - 1] == x);
}

proof fn lemma_lagged_turned(s: Seq<i64>, t: Seq<i64>, lag: int, k: int)
    requires
        0 <= lag,
        k + lag <= s.len(),
        t.len() == s.len(),
        forall|i: int| 0 <= i < s.len() ==> #[trigger] t[i] == -s[i],
    ensures
        lagged_sum(t, lag, k) == lagged_sum(s, lag, k),
    decreases k,
{
    if k > 0 {
        lemma_lagged_turned(s, t, lag, k - 1);
        let a = s[k - 1] as int;
        let b = s[k - 1 + lag] as int;
        assert((-a) * (-b) == a * b) by (nonlinear_arith);
    }
}

/// Autocorrelation does not depend on the sign of a signal.
pub proof fn lemma_autocorrelation_ignores_sign(s: Seq<i64>, t: Seq<i64>, lag: int)
    requires
        0 <= lag <= s.len(),
        t.len() == s.len(),
        forall|i: int| 0 <= i < s.len() ==> #[trigger] t[i] == -s[i],
    ensures
        autocorrelation_at(t, lag) == autocorrelation_at(s, lag),
{
    lemma_lagged_turned(s, t, lag, s.len() - lag);
}

// --- vibrato ----------------------------------------------------------------

proof fn lemma_first_peak(signal: Seq<i64>, lo: int, hi: int, x: int)
    requires
        lo <= hi,
        lo <= x <= hi,
    ensures
        lo <= first_peak(signal, lo, hi) <= hi,
        autocorrelation_at(signal, x) <= autocorrelation_at(signal, first_peak(signal, lo, hi)),
        x < first_peak(signal, lo, hi) ==> autocorrelation_at(signal, x) < autocorrelation_at(
            signal,
            first_peak(signal, lo, hi),
        ),
    decreases hi - lo,
{
    if lo < hi {
        let p = first_peak(signal, lo, hi - 1);
        if x < hi {
            lemma_first_peak(signal, lo, hi - 1, x);
        }
        lemma_first_peak(signal, lo, hi - 1, lo);
        if p < x < hi {
            lemma_first_peak(signal, lo, hi - 1, x);
        }
    }
}

/// Whether a lag is one at which vibrato is looked for in a track of `n` frames: below the
/// track's length, at least the period of the fastest vibrato rounded down, and at most that
/// of the slowest rounded up.
pub open spec fn vibrato_period(lag: int, n: int, frame_rate: int, config: SegmentConfig) -> bool {
    &&& 0 <= lag < n
    &&& (lag + 1) * config.vibrato_max_hz > frame_rate
    &&& (lag - 1) * config.vibrato_min_hz < frame_rate
}

/// What a vibrato is: a track has one when it holds two periods of the slowest vibrato, has
/// an energy of at least 1e-10 square cents, and its autocorrelation comes above three
/// tenths of that energy at a lag in the range of vibrato. Its period is then the shortest
/// lag in the range at which the autocorrelation is largest. Otherwise it is zero.
pub proof fn lemma_vibrato_lag(track: Seq<i64>, frame_rate: int, config: SegmentConfig, x: int)
    requires
        track.len() > 0,
        frame_rate >= 0,
    ensures
        ({
            let n = track.len() as int;
            let lag = vibrato_lag(track, frame_rate, config);
            let energy = autocorrelation_at(track, 0);
            let long = config.vibrato_min_hz > 0 && config.vibrato_max_hz > 0 && n
                * config.vibrato_min_hz >= 2 * frame_rate;
            let here = vibrato_period(x, n, frame_rate, config);
            &&& lag != 0 ==> long && energy >= 100_000_000 && vibrato_period(
                lag,
                n,
                frame_rate,
                config,
            ) && 10 * autocorrelation_at(track, lag) > 3 * energy
            &&& lag != 0 && here ==> autocorrelation_at(track, x) <= autocorrelation_at(track, lag)
            &&& lag != 0 && here && x < lag ==> autocorrelation_at(track, x) < autocorrelation_at(
                track,
                lag,
            )
            &&& long && energy >= 100_000_000 && here && 10 * autocorrelation_at(track, x) > 3
                * energy && frame_rate >= config.vibrato_max_hz ==> lag != 0
        }),
{
    let n = track.len() as int;
    if config.vibrato_min_hz > 0 && config.vibrato_max_hz > 0 {
        let slow = config.vibrato_min_hz as int;
        let fast = config.vibrato_max_hz as int;
        let lo = frame_rate / fast;
        let up = (frame_rate + slow - 1) / slow;
        let two = (2 * frame_rate + slow - 1) / slow;
        let hi = if up <= n - 1 { up } else { n - 1 };
        assert(lo * fast <= frame_rate < (lo + 1) * fast && lo >= 0) by (nonlinear_arith)
            requires
                lo == frame_rate / fast,
                fast > 0,
                frame_rate >= 0,
        ;
        assert(up * slow >= frame_rate > (up - 1) * slow || frame_rate == 0 && up == 0)
            by (nonlinear_arith)
            requires
                up == (frame_rate + slow - 1) / slow,
                slow > 0,
                frame_rate >= 0,
        ;
        assert(n >= two <==> n * slow >= 2 * frame_rate) by (nonlinear_arith)
            requires
                two == (2 * frame_rate + slow - 1) / slow,
                slow > 0,
        ;
        assert((x + 1) * fast > frame_rate <==> x >= lo) by (nonlinear_arith)
            requires
                lo * fast <= frame_rate < (lo + 1) * fast,
                fast > 0,
        ;
        assert((x - 1) * slow < frame_rate ==> x <= up) by (nonlinear_arith)
            requires
                up * slow >= frame_rate,
                slow > 0,
        ;
        if lo <= hi {
            lemma_first_peak(track, lo, hi, lo);
            if lo <= x <= hi {
                lemma_first_peak(track, lo, hi, x);
            }
            let lag = first_peak(track, lo, hi);
            assert((lag + 1) * fast > frame_rate) by (nonlinear_arith)
                requires
                    frame_rate < (lo + 1) * fast,
                    lag >= lo,
                    fast > 0,
            ;
            assert(lag > 0 ==> (lag - 1) * slow < frame_rate) by (nonlinear_arith)
                requires
                    frame_rate > (up - 1) * slow || frame_rate == 0 && up == 0,
                    lag <= up,
                    slow > 0,
            ;
            assert(frame_rate >= fast ==> lo > 0) by (nonlinear_arith)
                requires
                    frame_rate < (lo + 1) * fast,
                    lo >= 0,
                    fast > 0,
            ;
        }
    }
}

/// A bin passes the vibrato band when its frequency, `i` over `n` of the frame rate, lies
/// within one hertz of the vibrato's, one over `lag` of the frame rate, on either side; of
/// two mirrored bins both pass or none.
pub proof fn lemma_vibrato_band(i: int, n: int, frame_rate: int, lag: int)
    requires
        0 <= i < n,
    ensures
        2 * i <= n ==> (bin_near_vibrato(i, n, frame_rate, lag) <==> frame_rate * n - 1_000_000_000
            * n * lag <= i * frame_rate * lag <= frame_rate * n + 1_000_000_000 * n * lag),
        i > 0 ==> bin_near_vibrato(i, n, frame_rate, lag) == bin_near_vibrato(
            n - i,
            n,
            frame_rate,
            lag,
        ),
{
}

/// The analytic gains double the lower half of the bins, drop the upper, and keep the bins
/// that are their own mirror image.
pub proof fn lemma_analytic_gains(i: int, n: int)
    requires
        0 <= i < n,
    ensures
        i == 0 || 2 * i == n ==> analytic_gain(i, n) == 1,
        0 < 2 * i < n ==> analytic_gain(i, n) == 2,
        2 * i > n ==> analytic_gain(i, n) == 0,
{
}

/// Unwrapping leaves a step of at most half a turn as it is. A longer one is taken back or
/// forth by whole turns until it first lies within half a turn.
pub proof fn lemma_unwrapping_is_least(phase: Seq<i64>, i: int)
    requires
        0 < i < phase.len(),
    ensures
        ({
            let step = phase[i] - unwrapped(phase, i - 1);
            let taken = unwrapped(phase, i) - unwrapped(phase, i - 1);
            &&& -500_000_000 <= step <= 500_000_000 ==> taken == step
            &&& step > 500_000_000 ==> -500_000_000 < taken <= 500_000_000
            &&& step < -500_000_000 ==> -500_000_000 <= taken < 500_000_000
            &&& (taken - step) % 1_000_000_000 == 0
        }),
{
}

/// A sum of squares gains the square of every value, whatever its sign.
pub proof fn lemma_square_sum_grows(track: Seq<i64>, k: int)
    requires
        0 <= k < track.len(),
    ensures
        square_sum(track, 0) == 0,
        track[k] >= 0 ==> square_sum(track, k + 1) - square_sum(track, k) == track[k] * track[k],
        track[k] < 0 ==> square_sum(track, k + 1) - square_sum(track, k) == (-track[k])
            * (-track[k]),
{
    let v = track[k] as int;
    assert((-v) * (-v) == v * v) by (nonlinear_arith);
}

// --- decomposition ----------------------------------------------------------

/// What a contour is made of does not depend on its height: moved as a whole, it has its
/// centre moved with it, and its drift, its rest and its vibrato as they were.
pub proof fn lemma_decomposition_moves(
    cents: Seq<i64>,
    moved: Seq<i64>,
    shift: int,
    frame_rate: int,
    config: SegmentConfig,
    kernel: Kernel,
    c: NoteContour,
    d: NoteContour,
)
    requires
        kernel.wf(),
        cents.len() > 0,
        moved.len() == cents.len(),
        bounded(cents, crate::contour::PITCH_LIMIT as int),
        bounded(moved, crate::contour::PITCH_LIMIT as int),
        forall|i: int| 0 <= i < cents.len() ==> #[trigger] moved[i] == cents[i] + shift,
        describes(c, cents, frame_rate, config, kernel@),
        describes(d, moved, frame_rate, config, kernel@),
    ensures
        d.center_cents == c.center_cents + shift,
        d.drift@ == c.drift@,
        d.residual@ == c.residual@,
        d.vibrato_lag == c.vibrato_lag,
{
    lemma_median_moves(cents, moved, shift);
    crate::contour::lemma_decomposition_bounds(cents, kernel);
    crate::contour::lemma_decomposition_bounds(moved, kernel);
    assert forall|i: int| 0 <= i < cents.len() implies deviation(moved)[i] == #[trigger] deviation(
        cents,
    )[i] by {
        assert(moved[i] == cents[i] + shift);
    }
    assert(deviation(moved) =~= deviation(cents));
    assert(drift_of(moved, kernel@) == drift_of(cents, kernel@));
    assert(detrended(moved, kernel@) =~= detrended(cents, kernel@));
}

/// The way of a frame from the centre is that of its whole pitch, and its vibrato is what drift and
/// rest leave of that.
pub proof fn lemma_excursion_from_center<F: Fn(i64, i128) -> i64>(c: NoteContour, f: F, i: int)
    requires
        crate::render::contour_ok(c),
        is_swing(f),
        c.vibrato_amp@.len() == c.drift@.len(),
        c.residual@.len() == c.drift@.len(),
        0 <= i < c.drift@.len(),
    ensures
        excursion(c, f).len() == c.drift@.len(),
        vibrato_track(c, f).len() == c.drift@.len(),
        c.center_cents + excursion(c, f)[i] == reconstructed(c, f, i),
        vibrato_track(c, f)[i] == reconstructed(c, f, i) - c.center_cents - c.drift@[i]
            - c.residual@[i],
{
    assert(-crate::render::TRACK_LIMIT <= c.drift@[i] <= crate::render::TRACK_LIMIT);
    assert(-crate::render::TRACK_LIMIT <= c.vibrato_amp@[i] <= crate::render::TRACK_LIMIT);
    assert(-crate::render::TRACK_LIMIT <= c.residual@[i] <= crate::render::TRACK_LIMIT);
    lemma_swung_bound(f, c.vibrato_amp@[i], c.vibrato_phase@[i] as i128);
}

/// The centre of a contour is its median, and its drift is the smoothed way from there; the period
/// of its vibrato is that of its rest, from which it is still to be taken out.
pub proof fn lemma_drift_is_smoothed(
    cents: Seq<i64>,
    frame_rate: int,
    config: SegmentConfig,
    kernel: Kernel,
    c: NoteContour,
    i: int,
)
    requires
        kernel.wf(),
        describes(c, cents, frame_rate, config, kernel@),
        bounded(cents, crate::contour::PITCH_LIMIT as int),
        0 <= i < cents.len(),
    ensures
        lowpassed(cents, kernel@)[i] == c.center_cents + c.drift@[i],
        c.center_cents + c.drift@[i] + c.residual@[i] == cents[i],
        c.vibrato_lag == vibrato_lag(c.residual@, frame_rate, config),
        c.vibrato_amp@[i] == 0 && c.vibrato_phase@[i] == 0,
{
    crate::contour::lemma_decomposition_bounds(cents, kernel);
    let d = deviation(cents);
    let m = crate::median::upper_median(cents);
    let l = 2 * crate::contour::PITCH_LIMIT;
    assert forall|j: int| 0 <= j < d.len() implies #[trigger] cents[j] == d[j] + m by {
        assert(d[j] == cents[j] - m);
    }
    assert(bounded(cents, l));
    lemma_smoothing_moves(d, cents, m as int, kernel, l, i);
}

} // verus!
