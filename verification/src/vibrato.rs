//! Vibrato of a note: which spectral bins carry it, its phase, and taking it out
//! of a decomposed contour.
//!
//! Phase is carried in billionths of a turn.

use crate::contour::{
    bounded, describes, lemma_decomposition_bounds, NoteContour, SegmentConfig, MAX_FRAMES,
    PITCH_LIMIT,
};
use crate::num::abs_of;
use crate::smooth::Kernel;
use vstd::prelude::*;

verus! {

/// One full turn of phase.
pub const TURN: i64 = 1_000_000_000;

/// Half a turn of phase.
pub const HALF_TURN: i64 = 500_000_000;

// --- spectral masks ---------------------------------------------------------

/// The frequency index of bin `i` of a transform of `n` samples, the upper half
/// folded onto the lower.
pub open spec fn folded_bin(i: int, n: int) -> int {
    if i <= n / 2 { i } else { n - i }
}

/// Whether bin `i` lies within one hertz of the frequency whose period is `lag`
/// frames, at `frame_rate` nanohertz.
pub open spec fn bin_near_vibrato(i: int, n: int, frame_rate: int, lag: int) -> bool {
    abs_of(folded_bin(i, n) * frame_rate * lag - frame_rate * n) <= 1_000_000_000 * n * lag
}

/// Which bins of a transform of `n` samples pass the vibrato band.
pub fn bandpass_mask(n: usize, frame_rate: u64, lag: usize) -> (mask: Vec<bool>)
    requires
        n <= MAX_FRAMES,
        lag <= MAX_FRAMES,
    ensures
        mask@ == Seq::new(
            n as nat,
            |i: int| bin_near_vibrato(i, n as int, frame_rate as int, lag as int),
        ),
{
    let mut mask: Vec<bool> = Vec::new();
    let mut i: usize = 0;
    while i < n
        invariant
            i <= n <= MAX_FRAMES,
            lag <= MAX_FRAMES,
            mask@ == Seq::new(
                i as nat,
                |k: int| bin_near_vibrato(k, n as int, frame_rate as int, lag as int),
            ),
        decreases n - i,
    {
        let folded: usize = if i <= n / 2 { i } else { n - i };
        let m: i128 = folded as i128;
        let rate: i128 = frame_rate as i128;
        let period: i128 = lag as i128;
        let len: i128 = n as i128;
        assert(0 <= m * rate <= 0x400_0000 * 0xffff_ffff_ffff_ffff) by (nonlinear_arith)
            requires
                0 <= m <= 0x400_0000,
                0 <= rate <= 0xffff_ffff_ffff_ffff,
        ;
        assert(0 <= m * rate * period <= 0x400_0000 * 0xffff_ffff_ffff_ffff * 0x400_0000)
            by (nonlinear_arith)
            requires
                0 <= m * rate <= 0x400_0000 * 0xffff_ffff_ffff_ffff,
                0 <= period <= 0x400_0000,
        ;
        assert(0 <= rate * len <= 0xffff_ffff_ffff_ffff * 0x400_0000) by (nonlinear_arith)
            requires
                0 <= len <= 0x400_0000,
                0 <= rate <= 0xffff_ffff_ffff_ffff,
        ;
        assert(0 <= 1_000_000_000 * len * period <= 1_000_000_000 * 0x400_0000 * 0x400_0000)
            by (nonlinear_arith)
            requires
                0 <= len <= 0x400_0000,
                0 <= period <= 0x400_0000,
        ;
        let gap: i128 = m * rate * period - rate * len;
        let width: i128 = 1_000_000_000 * len * period;
        mask.push(-width <= gap && gap <= width);
        i = i + 1;
    }
    mask
}

/// The gain of bin `i` that turns a real signal of `n` samples into its analytic
/// signal.
pub open spec fn analytic_gain(i: int, n: int) -> int {
    if i == 0 {
        1
    } else if i < (n + 1) / 2 {
        2
    } else if i > n / 2 {
        0
    } else {
        1
    }
}

/// The gain of each bin that turns a real signal of `n` samples into its analytic
/// signal.
pub fn analytic_gains(n: usize) -> (gains: Vec<u8>)
    requires
        n <= MAX_FRAMES,
    ensures
        gains@.len() == n,
        forall|i: int| 0 <= i < n ==> #[trigger] gains@[i] == analytic_gain(i, n as int),
{
    let mut gains: Vec<u8> = Vec::new();
    let mut i: usize = 0;
    while i < n
        invariant
            i <= n <= MAX_FRAMES,
            gains@.len() == i,
            forall|k: int| 0 <= k < i ==> #[trigger] gains@[k] == analytic_gain(k, n as int),
        decreases n - i,
    {
        let gain: u8 = if i == 0 {
            1
        } else if i < (n + 1) / 2 {
            2
        } else if i > n / 2 {
            0
        } else {
            1
        };
        gains.push(gain);
        i = i + 1;
    }
    gains
}

/// The analytic gains drop exactly one of each pair of mirrored bins and double
/// the other, so that no energy of the real signal is lost.
pub proof fn lemma_analytic_gains_pair(i: int, n: int)
    requires
        0 < i < n,
    ensures
        analytic_gain(i, n) + analytic_gain(n - i, n) == 2,
{
}

// --- phase ------------------------------------------------------------------

/// A phase step brought into half a turn of zero by whole turns.
pub open spec fn wrapped_step(step: int) -> int {
    if -HALF_TURN <= step <= HALF_TURN {
        step
    } else if step > HALF_TURN {
        HALF_TURN - (HALF_TURN - step) % (TURN as int)
    } else {
        (step + HALF_TURN) % (TURN as int) - HALF_TURN
    }
}

/// The phase of frame `i` after unwrapping.
pub open spec fn unwrapped(phase: Seq<i64>, i: int) -> int
    decreases i,
{
    if i <= 0 {
        phase[0] as int
    } else {
        unwrapped(phase, i - 1) + wrapped_step(phase[i] - unwrapped(phase, i - 1))
    }
}

/// Unwrapping moves every phase by whole turns, leaves the first where it is, and
/// leaves no step longer than half a turn.
pub proof fn lemma_unwrapped(phase: Seq<i64>, i: int)
    requires
        0 <= i < phase.len(),
    ensures
        unwrapped(phase, 0) == phase[0],
        (unwrapped(phase, i) - phase[i]) % (TURN as int) == 0,
        i > 0 ==> -HALF_TURN <= unwrapped(phase, i) - unwrapped(phase, i - 1) <= HALF_TURN,
{
    if i > 0 {
        let step = phase[i] - unwrapped(phase, i - 1);
        lemma_wrapped_step(step);
    }
}

proof fn lemma_wrapped_step(step: int)
    ensures
        -HALF_TURN <= wrapped_step(step) <= HALF_TURN,
        (wrapped_step(step) - step) % (TURN as int) == 0,
{
}

proof fn lemma_unwrapped_bound(phase: Seq<i64>, i: int)
    requires
        0 <= i < phase.len(),
        bounded(phase, 2 * TURN),
    ensures
        -(2 * TURN + i * HALF_TURN) <= unwrapped(phase, i) <= 2 * TURN + i * HALF_TURN,
    decreases i,
{
    if i > 0 {
        lemma_unwrapped_bound(phase, i - 1);
        lemma_wrapped_step(phase[i] - unwrapped(phase, i - 1));
    }
}

/// Remove the jumps of whole turns from a phase track.
pub fn unwrap_phase(phase: &[i64]) -> (track: Vec<i64>)
    requires
        phase@.len() <= MAX_FRAMES,
        bounded(phase@, 2 * TURN),
    ensures
        track@.len() == phase@.len(),
        forall|i: int| 0 <= i < phase@.len() ==> #[trigger] track@[i] == unwrapped(phase@, i),
{
    let mut track: Vec<i64> = Vec::new();
    let mut i: usize = 0;
    while i < phase.len()
        invariant
            i <= phase@.len() <= MAX_FRAMES,
            bounded(phase@, 2 * TURN),
            track@.len() == i,
            forall|k: int| 0 <= k < i ==> #[trigger] track@[k] == unwrapped(phase@, k),
        decreases phase@.len() - i,
    {
        proof {
            lemma_unwrapped_bound(phase@, i as int);
        }
        if i == 0 {
            track.push(phase[0]);
        } else {
            proof {
                lemma_unwrapped_bound(phase@, i - 1);
            }
            let before: i64 = track[i - 1];
            let step: i64 = phase[i] - before;
            let wrapped: i64 = if -HALF_TURN <= step && step <= HALF_TURN {
                step
            } else if step > HALF_TURN {
                let over: i64 = step - HALF_TURN;
                let left: i64 = over % TURN;
                if left == 0 { HALF_TURN } else { left - HALF_TURN }
            } else {
                let under: i64 = -HALF_TURN - step;
                let left: i64 = under % TURN;
                if left == 0 { -HALF_TURN } else { HALF_TURN - left }
            };
            assert(wrapped == wrapped_step(step as int));
            track.push(before + wrapped);
        }
        i = i + 1;
    }
    track
}

// --- the vibrato of a contour -----------------------------------------------

/// Whether `f` can stand for the pitch that a vibrato of some amplitude adds at
/// some phase: defined everywhere, single-valued, never above the amplitude.
pub open spec fn is_swing<F: Fn(i64, i128) -> i64>(f: F) -> bool {
    &&& forall|a: i64, p: i128| call_requires(f, (a, p))
    &&& forall|a: i64, p: i128, r: i64, q: i64| #[trigger]
        call_ensures(f, (a, p), r) && #[trigger] call_ensures(f, (a, p), q) ==> r == q
    &&& forall|a: i64, p: i128, r: i64| #[trigger]
        call_ensures(f, (a, p), r) ==> -abs_of(a as int) <= r <= abs_of(a as int)
}

/// The pitch that a vibrato adds.
pub open spec fn swung<F: Fn(i64, i128) -> i64>(f: F, amp: i64, phase: i128) -> i64 {
    if exists|r: i64| call_ensures(f, (amp, phase), r) {
        choose|r: i64| call_ensures(f, (amp, phase), r)
    } else {
        0
    }
}

/// A vibrato adds no more than its amplitude, and nothing at amplitude zero.
pub proof fn lemma_swung_bound<F: Fn(i64, i128) -> i64>(f: F, amp: i64, phase: i128)
    requires
        is_swing(f),
    ensures
        -abs_of(amp as int) <= swung(f, amp, phase) <= abs_of(amp as int),
        amp == 0 ==> swung(f, amp, phase) == 0,
{
}

/// The pitch of core frame `i` put together from its parts.
pub open spec fn reconstructed<F: Fn(i64, i128) -> i64>(c: NoteContour, f: F, i: int) -> int {
    c.center_cents + c.drift@[i] + swung(f, c.vibrato_amp@[i], c.vibrato_phase@[i] as i128)
        + c.residual@[i]
}

impl NoteContour {
    /// Take a vibrato out of the residual of a contour that has none yet.
    pub fn set_vibrato<F: Fn(i64, i128) -> i64>(&mut self, amp: Vec<i64>, phase: Vec<i64>, swing: F)
        requires
            amp@.len() == old(self).residual@.len(),
            phase@.len() == old(self).residual@.len(),
            bounded(amp@, 4 * PITCH_LIMIT),
            bounded(old(self).residual@, 4 * PITCH_LIMIT),
            is_swing(swing),
        ensures
            final(self).vibrato_amp@ == amp@,
            final(self).vibrato_phase@ == phase@,
            final(self).residual@.len() == old(self).residual@.len(),
            forall|i: int|
                0 <= i < amp@.len() ==> #[trigger] final(self).residual@[i] == old(
                    self,
                ).residual@[i] - swung(swing, amp@[i], phase@[i] as i128),
            final(self).center_cents == old(self).center_cents,
            final(self).drift@ == old(self).drift@,
            final(self).vibrato_lag == old(self).vibrato_lag,
            final(self).onset_glide@ == old(self).onset_glide@,
            final(self).onset_glide_span == old(self).onset_glide_span,
            final(self).onset_glide_depth_cents == old(self).onset_glide_depth_cents,
    {
        let ghost before = self.residual@;
        let mut rest: Vec<i64> = Vec::new();
        let mut i: usize = 0;
        while i < self.residual.len()
            invariant
                self.residual@ == before,
                amp@.len() == before.len(),
                phase@.len() == before.len(),
                bounded(amp@, 4 * PITCH_LIMIT),
                bounded(before, 4 * PITCH_LIMIT),
                is_swing(swing),
                i <= before.len(),
                rest@.len() == i,
                forall|k: int|
                    0 <= k < i ==> #[trigger] rest@[k] == before[k] - swung(
                        swing,
                        amp@[k],
                        phase@[k] as i128,
                    ),
            decreases before.len() - i,
        {
            let v: i64 = swing(amp[i], phase[i] as i128);
            assert(swung(swing, amp@[i as int], phase@[i as int] as i128) == v);
            assert(-4 * PITCH_LIMIT <= amp@[i as int] <= 4 * PITCH_LIMIT);
            assert(-4 * PITCH_LIMIT <= before[i as int] <= 4 * PITCH_LIMIT);
            rest.push(self.residual[i] - v);
            i = i + 1;
        }
        self.residual = rest;
        self.vibrato_amp = amp;
        self.vibrato_phase = phase;
    }
}

/// Centre, drift, vibrato and residual add up to the pitches that were
/// decomposed, exactly.
pub proof fn lemma_decomposition_reconstructs<F: Fn(i64, i128) -> i64>(
    c: NoteContour,
    cents: Seq<i64>,
    frame_rate: int,
    config: SegmentConfig,
    kernel: Kernel,
    f: F,
    i: int,
)
    requires
        describes(c, cents, frame_rate, config, kernel@),
        kernel.wf(),
        bounded(cents, PITCH_LIMIT as int),
        is_swing(f),
        0 <= i < cents.len(),
    ensures
        reconstructed(c, f, i) == cents[i],
{
    lemma_decomposition_bounds(cents, kernel);
    lemma_swung_bound(f, 0, 0);
}

/// Taking a vibrato out changes how the pitch is divided, not the pitch.
pub proof fn lemma_set_vibrato_keeps_pitch<F: Fn(i64, i128) -> i64>(
    before: NoteContour,
    after: NoteContour,
    f: F,
    i: int,
)
    requires
        0 <= i < before.residual@.len(),
        is_swing(f),
        before.vibrato_amp@[i] == 0,
        after.center_cents == before.center_cents,
        after.drift@ == before.drift@,
        after.residual@[i] == before.residual@[i] - swung(
            f,
            after.vibrato_amp@[i],
            after.vibrato_phase@[i] as i128,
        ),
    ensures
        reconstructed(after, f, i) == reconstructed(before, f, i),
{
    lemma_swung_bound(f, 0, before.vibrato_phase@[i] as i128);
}

// --- shares of the variance -------------------------------------------------

/// The squares of the first `k` values, summed.
pub open spec fn square_sum(track: Seq<i64>, k: int) -> int
    decreases k,
{
    if k <= 0 {
        0
    } else {
        square_sum(track, k - 1) + track[k - 1] * track[k - 1]
    }
}

/// The vibrato of core frame `i`.
pub open spec fn vibrato_of<F: Fn(i64, i128) -> i64>(c: NoteContour, f: F, i: int) -> i64 {
    swung(f, c.vibrato_amp@[i], c.vibrato_phase@[i] as i128)
}

/// The vibrato of the whole core.
pub open spec fn vibrato_track<F: Fn(i64, i128) -> i64>(c: NoteContour, f: F) -> Seq<i64> {
    Seq::new(c.drift@.len(), |i: int| vibrato_of(c, f, i))
}

/// How far the pitch of each core frame lies from the centre.
pub open spec fn excursion<F: Fn(i64, i128) -> i64>(c: NoteContour, f: F) -> Seq<i64> {
    Seq::new(
        c.drift@.len(),
        |i: int| (c.drift@[i] + vibrato_of(c, f, i) + c.residual@[i]) as i64,
    )
}

/// The squares of a track, summed.
fn sum_squares(track: &[i64]) -> (sum: u128)
    requires
        track@.len() <= MAX_FRAMES,
        bounded(track@, 1_250_000_000_000_000),
    ensures
        sum == square_sum(track@, track@.len() as int),
{
    let mut sum: u128 = 0;
    let mut k: usize = 0;
    while k < track.len()
        invariant
            k <= track@.len() <= MAX_FRAMES,
            bounded(track@, 1_250_000_000_000_000),
            sum == square_sum(track@, k as int),
            sum <= k * 1_562_500_000_000_000_000_000_000_000_000,
        decreases track@.len() - k,
    {
        assert(-1_250_000_000_000_000 <= track@[k as int] <= 1_250_000_000_000_000);
        let square: u128 = square_of(track[k]);
        proof {
            let v = track@[k as int] as int;
            assert(0 <= v * v <= 1_562_500_000_000_000_000_000_000_000_000) by (nonlinear_arith)
                requires
                    -1_250_000_000_000_000 <= v <= 1_250_000_000_000_000,
            ;
        }
        sum = sum + square;
        k = k + 1;
    }
    sum
}

/// The square of a number.
fn square_of(v: i64) -> (square: u128)
    ensures
        square == v * v,
{
    let size: u128 = if v < 0 { (-(v as i128)) as u128 } else { v as u128 };
    assert(size * size == v * v) by (nonlinear_arith)
        requires
            size == v || size == -v,
    ;
    assert(0 <= size * size <= 0x8000_0000_0000_0000 * 0x8000_0000_0000_0000) by (nonlinear_arith)
        requires
            0 <= size <= 0x8000_0000_0000_0000,
    ;
    size * size
}

/// Whether the squares of a track add up to at least a bound.
fn reaches(track: &[i64], bound: u128) -> (yes: bool)
    ensures
        yes == (square_sum(track@, track@.len() as int) >= bound),
{
    let mut left: u128 = bound;
    let mut k: usize = 0;
    while k < track.len()
        invariant
            k <= track@.len(),
            left == (if square_sum(track@, k as int) >= bound {
                0
            } else {
                bound - square_sum(track@, k as int)
            }),
        decreases track@.len() - k,
    {
        let square: u128 = square_of(track[k]);
        left = if square < left { left - square } else { 0 };
        k = k + 1;
    }
    left == 0
}

/// The energies of drift, vibrato and residual, of which each part's share of the
/// variance is the quotient by their sum. There is none for an empty core, or for
/// one whose mean square excursion is below 1e-10 square cents.
pub fn variance_explained<F: Fn(i64, i128) -> i64>(contour: &NoteContour, swing: F) -> (parts:
    Option<(u128, u128, u128)>)
    requires
        contour.drift@.len() <= MAX_FRAMES,
        contour.vibrato_amp@.len() == contour.drift@.len(),
        contour.vibrato_phase@.len() == contour.drift@.len(),
        contour.residual@.len() == contour.drift@.len(),
        bounded(contour.drift@, 1_250_000_000_000_000),
        bounded(contour.vibrato_amp@, 1_250_000_000_000_000),
        bounded(contour.residual@, 1_250_000_000_000_000),
        is_swing(swing),
    ensures
        ({
            let n = contour.drift@.len() as int;
            let total = square_sum(excursion(*contour, swing), n);
            match parts {
                None => n == 0 || total < 100_000_000 * n,
                Some(p) => {
                    &&& n > 0 && total >= 100_000_000 * n
                    &&& p.0 == square_sum(contour.drift@, n)
                    &&& p.1 == square_sum(vibrato_track(*contour, swing), n)
                    &&& p.2 == square_sum(contour.residual@, n)
                },
            }
        }),
{
    let n: usize = contour.drift.len();
    if n == 0 {
        return None;
    }
    let mut vibrato: Vec<i64> = Vec::new();
    let mut whole: Vec<i64> = Vec::new();
    let mut i: usize = 0;
    while i < n
        invariant
            n == contour.drift@.len(),
            n <= MAX_FRAMES,
            contour.vibrato_amp@.len() == n,
            contour.vibrato_phase@.len() == n,
            contour.residual@.len() == n,
            bounded(contour.drift@, 1_250_000_000_000_000),
            bounded(contour.vibrato_amp@, 1_250_000_000_000_000),
            bounded(contour.residual@, 1_250_000_000_000_000),
            is_swing(swing),
            i <= n,
            vibrato@ == vibrato_track(*contour, swing).take(i as int),
            whole@ == excursion(*contour, swing).take(i as int),
            bounded(vibrato@, 1_250_000_000_000_000),
            bounded(whole@, 3_750_000_000_000_000),
        decreases n - i,
    {
        let v: i64 = swing(contour.vibrato_amp[i], contour.vibrato_phase[i] as i128);
        proof {
            let k = i as int;
            assert(vibrato_of(*contour, swing, k) == v);
            lemma_swung_bound(
                swing,
                contour.vibrato_amp@[k],
                contour.vibrato_phase@[k] as i128,
            );
            assert(-1_250_000_000_000_000 <= contour.vibrato_amp@[k] <= 1_250_000_000_000_000);
            assert(-1_250_000_000_000_000 <= contour.drift@[k] <= 1_250_000_000_000_000);
            assert(-1_250_000_000_000_000 <= contour.residual@[k] <= 1_250_000_000_000_000);
            let vt = vibrato_track(*contour, swing);
            let ex = excursion(*contour, swing);
            assert(vt.take(k).push(vt[k]) =~= vt.take(k + 1));
            assert(ex.take(k).push(ex[k]) =~= ex.take(k + 1));
        }
        vibrato.push(v);
        whole.push(contour.drift[i] + v + contour.residual[i]);
        i = i + 1;
    }
    assert(vibrato@ =~= vibrato_track(*contour, swing));
    assert(whole@ =~= excursion(*contour, swing));
    if !reaches(whole.as_slice(), 100_000_000 * n as u128) {
        return None;
    }
    Some(
        (
            sum_squares(contour.drift.as_slice()),
            sum_squares(vibrato.as_slice()),
            sum_squares(contour.residual.as_slice()),
        ),
    )
}

} // verus!
