//! The voiced/unvoiced decision of a frame.

use crate::config::{Config, HERTZ, MAX_FFTSIZE};
use crate::num::min_of;
use crate::pitch::PitchRange;
use vstd::prelude::*;

verus! {

/// Raw features of a frame that feed the voicing decision: the harmonic score, the
/// normalized autocorrelation at the pitch lag, and the cepstral peak prominence.
#[derive(Clone, Copy, Debug)]
pub struct VoicingFeatures<T> {
    pub score: T,
    pub nccf: T,
    pub cpp: T,
}

/// Trigger with hysteresis for the score gate. Its owner latches `open` from the
/// final voiced decision, so that silence or any other gate that closes a frame
/// closes the trigger as well.
#[derive(Clone, Copy, Debug, PartialEq, Eq, Structural)]
pub struct SchmittGate {
    pub open: bool,
}

/// Whether a score passes: it enters at `high`, and stays down to four fifths of
/// `high`.
pub open spec fn gate_passes(open: bool, score: int, high: int) -> bool {
    if open { 5 * score >= 4 * high } else { score >= high }
}

impl SchmittGate {
    /// Whether a score passes the trigger.
    pub fn pass(&self, score: i64, high: i64) -> (yes: bool)
        ensures
            yes == gate_passes(self.open, score as int, high as int),
            !self.open ==> (yes <==> score >= high),
            self.open ==> (yes <==> 5 * score >= 4 * high),
    {
        if self.open {
            5 * score as i128 >= 4 * high as i128
        } else {
            score >= high
        }
    }
}

/// What is known of a frame when its voicing is decided.
#[derive(Clone, Copy, Debug, PartialEq, Eq, Structural)]
pub struct Evidence {
    pub silence: bool,
    /// Rank of the pitch; none when it is not a number.
    pub fo: Option<i64>,
    /// Energy below the pitch dominates.
    pub low_band_dominated: bool,
    /// Energy in the voice band dominates.
    pub voice_band: bool,
    /// Voicing probability, in the unit of the threshold.
    pub score: i64,
}

/// The voicing decision of a stream of frames.
#[derive(Clone, Copy, Debug, PartialEq, Eq, Structural)]
pub struct VoicingDecider {
    /// The pitches that can be voiced.
    pub range: PitchRange,
    /// Threshold of the score gate, which is off at or below zero.
    pub score_min: i64,
    pub gate: SchmittGate,
}

impl VoicingDecider {
    /// Whether the frame passes the gates other than the score.
    pub open spec fn gates_pass(&self, e: Evidence) -> bool {
        &&& !e.silence
        &&& !self.range.excludes(e.fo)
        &&& !e.low_band_dominated
        &&& e.voice_band
    }

    /// Whether the frame passes the score gate.
    pub open spec fn score_passes(&self, e: Evidence) -> bool {
        self.score_min <= 0 || gate_passes(self.gate.open, e.score as int, self.score_min as int)
    }

    /// A decider with the score gate off.
    pub fn new(range: PitchRange) -> (d: Self)
        ensures
            d.range == range,
            d.score_min == 0,
            !d.gate.open,
    {
        VoicingDecider { range, score_min: 0, gate: SchmittGate { open: false } }
    }

    /// Whether the spectral gates have to be asked: only they are left.
    pub fn needs_bands(&self, silence: bool, fo: Option<i64>) -> (yes: bool)
        ensures
            yes == (!silence && !self.range.excludes(fo)),
            yes <==> !silence && (fo matches Some(f) ==> self.range.floor <= f
                <= self.range.ceil),
    {
        !silence && !self.range.out_of_range(fo)
    }

    /// Decide whether a frame is voiced, and latch the score gate.
    pub fn decide(&mut self, e: Evidence) -> (voiced: bool)
        ensures
            voiced == (old(self).gates_pass(e) && old(self).score_passes(e)),
            voiced ==> !e.silence && !e.low_band_dominated && e.voice_band,
            voiced ==> (e.fo matches Some(f) ==> old(self).range.floor <= f
                <= old(self).range.ceil),
            old(self).score_min <= 0 ==> (voiced <==> !e.silence && !e.low_band_dominated
                && e.voice_band && (e.fo matches Some(f) ==> old(self).range.floor <= f
                <= old(self).range.ceil)),
            old(self).score_min > 0 ==> (voiced <==> !e.silence && !e.low_band_dominated
                && e.voice_band && (e.fo matches Some(f) ==> old(self).range.floor <= f
                <= old(self).range.ceil) && (if old(self).gate.open {
                5 * e.score >= 4 * old(self).score_min
            } else {
                e.score >= old(self).score_min
            })),
            final(self).gate.open == voiced,
            final(self).range == old(self).range,
            final(self).score_min == old(self).score_min,
    {
        let score_pass: bool = self.score_min <= 0 || self.gate.pass(e.score, self.score_min);
        let gates_pass: bool = !e.silence && !self.range.out_of_range(e.fo)
            && !e.low_band_dominated && e.voice_band;
        let voiced: bool = gates_pass && score_pass;
        self.gate.open = voiced;
        voiced
    }
}

/// A silent frame, or one whose pitch is a number outside the range, is never
/// voiced.
pub proof fn lemma_silence_unvoiced(d: VoicingDecider, e: Evidence)
    requires
        e.silence || (e.fo is Some && !d.range.holds(e.fo)),
    ensures
        !d.gates_pass(e),
{
}

/// Every gate must pass, whatever the threshold of the score gate is: a voiced frame is
/// not silent, is not dominated by energy below its pitch, passes the voice-band test,
/// and has a pitch between floor and ceiling or none that is a number. With the score
/// gate off these are all that is asked; with it on, the score is asked as well, and
/// nothing else.
pub proof fn lemma_voiced_passes_every_gate(d: VoicingDecider, e: Evidence)
    ensures
        ({
            let voiced = d.gates_pass(e) && d.score_passes(e);
            let sounds = !e.silence && !e.low_band_dominated && e.voice_band;
            let reached = e.fo is None || (d.range.floor <= e.fo->0 && e.fo->0 <= d.range.ceil);
            &&& voiced ==> sounds && reached
            &&& d.score_min <= 0 ==> (voiced <==> sounds && reached)
            &&& d.score_min > 0 && !d.gate.open ==> (voiced <==> sounds && reached && e.score
                >= d.score_min)
            &&& d.score_min > 0 && d.gate.open ==> (voiced <==> sounds && reached && 5 * e.score
                >= 4 * d.score_min)
        }),
{
}

/// What the gates other than the score say does not depend on the threshold, on the
/// score, nor on how the frame before was decided.
pub proof fn lemma_gates_ignore_the_score(
    d: VoicingDecider,
    e: Evidence,
    score_min: i64,
    score: i64,
    open: bool,
)
    ensures
        d.gates_pass(e) == (VoicingDecider {
            range: d.range,
            score_min,
            gate: SchmittGate { open },
        }).gates_pass(Evidence { score, ..e }),
{
}

/// A higher score never closes a frame, and a lower threshold never does.
pub proof fn lemma_score_gate_is_monotone(d: VoicingDecider, e: Evidence, lower: i64, higher: i64)
    requires
        lower <= d.score_min,
        higher >= e.score,
        d.gates_pass(e) && d.score_passes(e),
    ensures
        ({
            let eased = VoicingDecider { score_min: lower, ..d };
            let louder = Evidence { score: higher, ..e };
            eased.gates_pass(louder) && eased.score_passes(louder)
        }),
{
}

/// The score gate only ever closes frames: a frame that is voiced under some
/// threshold is voiced under none.
pub proof fn lemma_score_gate_is_opt_in(d: VoicingDecider, e: Evidence)
    ensures
        d.score_min <= 0 ==> d.score_passes(e),
        ({
            let off = VoicingDecider { score_min: 0, ..d };
            d.gates_pass(e) && d.score_passes(e) ==> off.gates_pass(e) && off.score_passes(e)
        }),
{
}

/// Once open, the score gate is easier to pass than to enter.
pub proof fn lemma_hysteresis(score: int, high: int)
    requires
        high >= 0,
        gate_passes(false, score, high),
    ensures
        gate_passes(true, score, high),
{
}

// --- bands ------------------------------------------------------------------

/// The frequency bin that holds `num / den` of the sampling rate, at most the
/// highest.
pub open spec fn bin_of(num: int, den: int, fftsize: int) -> int {
    min_of(num * fftsize / den, fftsize / 2)
}

/// The bins below the voice of a pitch: from 20 Hz to four fifths of the pitch,
/// then the voice up to six times the pitch or just below half the sampling rate.
pub open spec fn low_band_bins(fo: int, fs: int, fftsize: int) -> (int, int, int) {
    (
        bin_of(20 * HERTZ, fs, fftsize),
        bin_of(4 * fo, 5 * fs, fftsize),
        bin_of(min_of(12 * fo, fs - 2 * HERTZ), 2 * fs, fftsize),
    )
}

/// A bin is the last one at or below its frequency, unless that lies above the highest:
/// bin `b` stands for the frequency `b / fftsize` of the sampling rate.
pub proof fn lemma_bin_of(num: int, den: int, fftsize: int)
    requires
        num >= 0,
        den > 0,
        fftsize >= 0,
    ensures
        0 <= bin_of(num, den, fftsize) <= fftsize / 2,
        bin_of(num, den, fftsize) * den <= num * fftsize,
        bin_of(num, den, fftsize) < fftsize / 2 ==> num * fftsize < (bin_of(num, den, fftsize) + 1)
            * den,
{
    let x = num * fftsize;
    assert(x >= 0) by (nonlinear_arith)
        requires
            x == num * fftsize,
            num >= 0,
            fftsize >= 0,
    ;
    vstd::arithmetic::div_mod::lemma_fundamental_div_mod(x, den);
    let q = x / den;
    let b = bin_of(num, den, fftsize);
    assert(q >= 0) by (nonlinear_arith)
        requires
            q == x / den,
            x >= 0,
            den > 0,
    ;
    assert(q * den <= x < (q + 1) * den) by (nonlinear_arith)
        requires
            x == den * q + x % den,
            0 <= x % den < den,
    ;
    assert(b * den <= q * den) by (nonlinear_arith)
        requires
            b <= q,
            den > 0,
    ;
}

/// The bands below and of a voice: the first begins at 20 Hz, ends at four fifths of the
/// pitch, and the second ends at six times the pitch or 1 Hz below half the sampling
/// rate, whichever is lower; each edge is the last bin at or below its frequency, and the
/// highest bin at most.
pub proof fn lemma_low_band_frequencies(fo: int, fs: int, fftsize: int)
    requires
        fo >= 0,
        fs >= 2_000_000_000,
        fftsize >= 0,
    ensures
        ({
            let e = low_band_bins(fo, fs, fftsize);
            let top = fftsize / 2;
            &&& 0 <= e.0 <= top && 0 <= e.1 <= top && 0 <= e.2 <= top
            &&& e.0 * fs <= 20_000_000_000 * fftsize
            &&& e.0 < top ==> 20_000_000_000 * fftsize < (e.0 + 1) * fs
            &&& 5 * (e.1 * fs) <= 4 * fo * fftsize
            &&& e.1 < top ==> 4 * fo * fftsize < 5 * ((e.1 + 1) * fs)
            &&& 12 * fo <= fs - 2_000_000_000 ==> e.2 * fs <= 6 * fo * fftsize && (e.2 < top
                ==> 6 * fo * fftsize < (e.2 + 1) * fs)
            &&& 12 * fo > fs - 2_000_000_000 ==> 2 * (e.2 * fs) <= (fs - 2_000_000_000) * fftsize
                && (e.2 < top ==> (fs - 2_000_000_000) * fftsize < 2 * ((e.2 + 1) * fs))
        }),
{
    let e = low_band_bins(fo, fs, fftsize);
    lemma_bin_of(20 * HERTZ, fs, fftsize);
    lemma_bin_of(4 * fo, 5 * fs, fftsize);
    let high = min_of(12 * fo, fs - 2 * HERTZ);
    lemma_bin_of(high, 2 * fs, fftsize);
    assert(e.1 * (5 * fs) == 5 * (e.1 * fs) && (e.1 + 1) * (5 * fs) == 5 * ((e.1 + 1) * fs))
        by (nonlinear_arith);
    assert(e.2 * (2 * fs) == 2 * (e.2 * fs) && (e.2 + 1) * (2 * fs) == 2 * ((e.2 + 1) * fs))
        by (nonlinear_arith);
    assert(12 * fo * fftsize == 2 * (6 * fo * fftsize)) by (nonlinear_arith);
}

/// The bins at which sub-fundamental and voice energy are summed.
pub fn low_band_edges(cfg: &Config, fo: u64) -> (edges: (usize, usize, usize))
    requires
        cfg.ok(),
        cfg.fs >= 2 * HERTZ,
    ensures
        (edges.0 as int, edges.1 as int, edges.2 as int) == low_band_bins(
            fo as int,
            cfg.fs as int,
            cfg.fftsize as int,
        ),
        edges.0 <= cfg.fftsize / 2,
        edges.1 <= cfg.fftsize / 2,
        edges.2 <= cfg.fftsize / 2,
{
    let fs: u128 = cfg.fs as u128;
    let wide: u128 = 12 * fo as u128;
    let top: u128 = fs - 2 * HERTZ as u128;
    let high: u128 = if wide <= top { wide } else { top };
    let lo: usize = find_bin(20 * HERTZ as u128, fs, cfg.fftsize);
    let mid: usize = find_bin(4 * fo as u128, 5 * fs, cfg.fftsize);
    let hi: usize = find_bin(high, 2 * fs, cfg.fftsize);
    (lo, mid, hi)
}

/// The frequency bin that holds `num / den` of the sampling rate.
fn find_bin(num: u128, den: u128, fftsize: usize) -> (bin: usize)
    requires
        den > 0,
        num <= 0x10_0000_0000_0000_0000,
        fftsize <= MAX_FFTSIZE,
    ensures
        bin == bin_of(num as int, den as int, fftsize as int),
        bin <= fftsize / 2,
{
    assert(0 <= num * fftsize <= 0x10_0000_0000_0000_0000 * 0x4000_0000) by (nonlinear_arith)
        requires
            0 <= num <= 0x10_0000_0000_0000_0000,
            0 <= fftsize <= 0x4000_0000,
    ;
    let whole: u128 = num * fftsize as u128 / den;
    if whole < (fftsize / 2) as u128 {
        whole as usize
    } else {
        fftsize / 2
    }
}

/// The bin at which a frequency in hertz lies.
pub open spec fn hertz_bin(hz: int, fs: int, fftsize: int) -> int {
    hz * HERTZ * fftsize / fs
}

/// A frequency lies from its bin on and below the next.
pub proof fn lemma_hertz_bin(hz: int, fs: int, fftsize: int)
    requires
        fs > 0,
    ensures
        hertz_bin(hz, fs, fftsize) * fs <= hz * 1_000_000_000 * fftsize < (hertz_bin(
            hz,
            fs,
            fftsize,
        ) + 1) * fs,
{
    let x = hz * HERTZ * fftsize;
    let q = x / fs;
    vstd::arithmetic::div_mod::lemma_fundamental_div_mod(x, fs);
    assert(q * fs <= x < (q + 1) * fs) by (nonlinear_arith)
        requires
            x == fs * q + x % fs,
            0 <= x % fs < fs,
    ;
}

/// The edges of the bands whose energies tell voice from noise: 100, 4000 and
/// 7900 Hz. Below a sampling rate of 16 kHz there are none, and every frame counts
/// as voice.
pub fn voice_band_edges(cfg: &Config) -> (edges: Option<(usize, usize, usize)>)
    requires
        cfg.ok(),
    ensures
        edges is Some <==> cfg.fs >= 16_000 * HERTZ,
        edges matches Some(e) ==> {
            &&& e.0 == hertz_bin(100, cfg.fs as int, cfg.fftsize as int)
            &&& e.1 == hertz_bin(4000, cfg.fs as int, cfg.fftsize as int)
            &&& e.2 == hertz_bin(7900, cfg.fs as int, cfg.fftsize as int)
            &&& e.0 <= e.1 <= e.2
            &&& e.2 < cfg.numbins
            &&& e.0 * cfg.fs <= 100_000_000_000 * cfg.fftsize < (e.0 + 1) * cfg.fs
            &&& e.1 * cfg.fs <= 4_000_000_000_000 * cfg.fftsize < (e.1 + 1) * cfg.fs
            &&& e.2 * cfg.fs <= 7_900_000_000_000 * cfg.fftsize < (e.2 + 1) * cfg.fs
        },
{
    if cfg.fs < 16_000 * HERTZ {
        return None;
    }
    let n: u128 = cfg.fftsize as u128;
    let fs: u128 = cfg.fs as u128;
    proof {
        let a = 7900 * HERTZ * n;
        assert(a / (fs as int) <= n / 2) by (nonlinear_arith)
            requires
                a == 7900 * 1_000_000_000 * n,
                fs >= 16_000 * 1_000_000_000,
                n >= 0,
        ;
        vstd::arithmetic::div_mod::lemma_div_is_ordered(
            100 * HERTZ * n,
            4000 * HERTZ * n,
            fs as int,
        );
        vstd::arithmetic::div_mod::lemma_div_is_ordered(
            4000 * HERTZ * n,
            7900 * HERTZ * n,
            fs as int,
        );
    }
    proof {
        lemma_hertz_bin(100, fs as int, n as int);
        lemma_hertz_bin(4000, fs as int, n as int);
        lemma_hertz_bin(7900, fs as int, n as int);
    }
    let lower: u128 = 100 * HERTZ as u128 * n / fs;
    let upper1: u128 = 4000 * HERTZ as u128 * n / fs;
    let upper2: u128 = 7900 * HERTZ as u128 * n / fs;
    Some((lower as usize, upper1 as usize, upper2 as usize))
}

} // verus!
