//! What an analyzer knows as its input goes by, and what holds of it after any
//! input.

use crate::buffer::constant;
use crate::config::Config;
use crate::framing::{begins_frame, frame_length, frames_begun, frames_due, SAMPLE};
use crate::pitch::{accepted, best_of, Candidate, PitchRange, Ranked};
use crate::voicing::{Evidence, SchmittGate, VoicingDecider, VoicingFeatures};
use vstd::prelude::*;

verus! {

/// The parameters of one frame.
#[verifier::ext_equal]
pub struct FrameView<T> {
    pub fo: T,
    /// The pitch in nanohertz, zero for none.
    pub nanohertz: u64,
    pub rank: Option<i64>,
    pub voiced: bool,
    pub silence: bool,
    pub features: VoicingFeatures<T>,
    pub score: T,
    pub aperiodicity: Seq<T>,
    pub spectral_envelope: Seq<T>,
}

/// What is found out about a frame outside the analyzer: the candidates of its
/// pitch, its silence, its spectral gates, its voicing probability and its spectra.
pub struct Findings<T> {
    pub start: Candidate<T>,
    pub candidates: Seq<Candidate<T>>,
    pub silence: bool,
    pub low_band_dominated: bool,
    pub voice_band: bool,
    pub features: VoicingFeatures<T>,
    pub score: T,
    pub score_units: i64,
    pub aperiodicity: Seq<T>,
    pub spectral_envelope: Seq<T>,
}

/// What an analyzer knows.
#[verifier::ext_equal]
pub struct AnalyzerState<T> {
    pub config: Config,
    /// How many samples have been pushed.
    pub pushed: nat,
    /// The most recent samples, oldest first.
    pub history: Seq<T>,
    /// The samples of the frame that was last begun, and one before them.
    pub window: Seq<T>,
    /// The voicing decision.
    pub voicing: VoicingDecider,
    /// The pitch of the last frame that had one.
    pub previous: Ranked<T>,
    /// The parameters of the most recent frame.
    pub last: FrameView<T>,
    /// How many frames have been analyzed.
    pub frames: int,
    /// The number zero.
    pub zero: T,
}

impl<T> AnalyzerState<T> {
    /// Nothing seen yet.
    pub open spec fn start(cfg: Config, range: PitchRange, zero: T) -> AnalyzerState<T> {
        AnalyzerState {
            config: cfg,
            pushed: 0,
            history: constant((cfg.fftsize + 1) as nat, zero),
            window: constant((cfg.fftsize + 1) as nat, zero),
            voicing: VoicingDecider { range, score_min: 0, gate: SchmittGate { open: false } },
            previous: Ranked { value: zero, rank: Some(0i64) },
            last: FrameView {
                fo: zero,
                nanohertz: 0,
                rank: Some(0i64),
                voiced: false,
                silence: false,
                features: VoicingFeatures { score: zero, nccf: zero, cpp: zero },
                score: zero,
                aperiodicity: constant(cfg.numbins as nat, zero),
                spectral_envelope: constant(cfg.numbins as nat, zero),
            },
            frames: 0,
            zero,
        }
    }

    /// Whether the next sample begins a frame.
    pub open spec fn begins(self) -> bool {
        begins_frame(frame_length(self.config), self.pushed as int)
    }

    /// One sample later: where it begins a frame, the window is ready.
    pub open spec fn push(self, input: T) -> AnalyzerState<T> {
        let history = self.history.drop_first().push(input);
        AnalyzerState {
            pushed: self.pushed + 1,
            history,
            window: if self.begins() { history } else { self.window },
            ..self
        }
    }

    /// With the pitch of the frame: the best of the candidates, or none.
    pub open spec fn track(
        self,
        start: Candidate<T>,
        candidates: Seq<Candidate<T>>,
    ) -> AnalyzerState<T> {
        let best = best_of(start, candidates, candidates.len() as int);
        if accepted(self.voicing.range, best) {
            AnalyzerState {
                previous: best.fo,
                last: FrameView {
                    fo: best.fo.value,
                    nanohertz: best.nanohertz,
                    rank: best.fo.rank,
                    ..self.last
                },
                ..self
            }
        } else {
            AnalyzerState {
                last: FrameView {
                    fo: self.zero,
                    nanohertz: 0,
                    rank: Some(0i64),
                    ..self.last
                },
                ..self
            }
        }
    }

    /// With the voicing decision, which latches the score gate.
    pub open spec fn judge(
        self,
        silence: bool,
        low_band_dominated: bool,
        voice_band: bool,
        features: VoicingFeatures<T>,
        score: T,
        score_units: i64,
    ) -> AnalyzerState<T> {
        let e = Evidence {
            silence,
            fo: self.last.rank,
            low_band_dominated,
            voice_band,
            score: score_units,
        };
        let voiced = self.voicing.gates_pass(e) && self.voicing.score_passes(e);
        AnalyzerState {
            voicing: VoicingDecider { gate: SchmittGate { open: voiced }, ..self.voicing },
            last: FrameView { silence, voiced, features, score, ..self.last },
            ..self
        }
    }

    /// With the spectra of the frame. A frame that is not voiced is fully aperiodic,
    /// `full` in every bin; a silent one has the envelope `floor`.
    pub open spec fn finish(
        self,
        aperiodicity: Seq<T>,
        spectral_envelope: Seq<T>,
        full: T,
        floor: T,
    ) -> AnalyzerState<T> {
        AnalyzerState {
            last: FrameView {
                aperiodicity: if self.last.voiced {
                    aperiodicity
                } else {
                    constant(self.config.numbins as nat, full)
                },
                spectral_envelope: if self.last.silence {
                    constant(self.config.numbins as nat, floor)
                } else {
                    spectral_envelope
                },
                ..self.last
            },
            frames: self.frames + 1,
            ..self
        }
    }

    /// With another threshold of the score gate.
    pub open spec fn with_score_min(self, min: i64) -> AnalyzerState<T> {
        AnalyzerState { voicing: VoicingDecider { score_min: min, ..self.voicing }, ..self }
    }

    /// With a whole frame analyzed.
    pub open spec fn analyze(self, f: Findings<T>, full: T, floor: T) -> AnalyzerState<T> {
        self.track(f.start, f.candidates).judge(
            f.silence,
            f.low_band_dominated,
            f.voice_band,
            f.features,
            f.score,
            f.score_units,
        ).finish(f.aperiodicity, f.spectral_envelope, full, floor)
    }

    /// One sample later, where a frame that it begins is analyzed. `kernel` is what
    /// is found out about a frame, given what the analyzer knows at its beginning.
    pub open spec fn step(
        self,
        input: T,
        kernel: spec_fn(AnalyzerState<T>) -> Findings<T>,
        full: T,
        floor: T,
    ) -> AnalyzerState<T> {
        let s = self.push(input);
        if self.begins() {
            s.analyze(kernel(s), full, floor)
        } else {
            s
        }
    }

    /// After a whole input.
    pub open spec fn run(
        self,
        inputs: Seq<T>,
        kernel: spec_fn(AnalyzerState<T>) -> Findings<T>,
        full: T,
        floor: T,
    ) -> AnalyzerState<T>
        decreases inputs.len(),
    {
        if inputs.len() == 0 {
            self
        } else {
            self.run(inputs.drop_last(), kernel, full, floor).step(
                inputs.last(),
                kernel,
                full,
                floor,
            )
        }
    }

    /// What holds of every finished frame: a voiced one is not silent and has a
    /// pitch that is not outside the range, one that is not voiced is fully
    /// aperiodic, and a silent one is not voiced and has the floor envelope.
    pub open spec fn consistent(self, full: T, floor: T) -> bool {
        &&& self.last.voiced ==> !self.last.silence && !self.voicing.range.excludes(self.last.rank)
        &&& !self.last.voiced ==> self.last.aperiodicity == constant(
            self.config.numbins as nat,
            full,
        )
        &&& self.last.silence ==> !self.last.voiced && self.last.spectral_envelope == constant(
            self.config.numbins as nat,
            floor,
        )
    }
}

/// A frame that is consistent stays so when samples that begin no frame go by and
/// when the threshold of the score gate is set.
pub proof fn lemma_stays_consistent<T>(
    s: AnalyzerState<T>,
    input: T,
    min: i64,
    full: T,
    floor: T,
)
    requires
        s.consistent(full, floor),
    ensures
        s.push(input).consistent(full, floor),
        s.with_score_min(min).consistent(full, floor),
{
}

/// A sample that begins no frame changes nothing that is known of frames; one that
/// does counts one frame more.
pub proof fn lemma_step_counts<T>(
    s: AnalyzerState<T>,
    input: T,
    kernel: spec_fn(AnalyzerState<T>) -> Findings<T>,
    full: T,
    floor: T,
)
    ensures
        s.begins() ==> s.step(input, kernel, full, floor).frames == s.frames + 1,
        !s.begins() ==> {
            let t = s.step(input, kernel, full, floor);
            &&& t.frames == s.frames
            &&& t.last == s.last
            &&& t.previous == s.previous
            &&& t.voicing == s.voicing
        },
        s.step(input, kernel, full, floor).pushed == s.pushed + 1,
        s.step(input, kernel, full, floor).config == s.config,
        s.step(input, kernel, full, floor).zero == s.zero,
        s.step(input, kernel, full, floor).voicing.range == s.voicing.range,
{
}

/// As many frames are analyzed as begin: after any input of `n` samples, the frames
/// that begin among samples 0 to `n - 1`. With frames of at least one sample those
/// are one, and one more for every frame length that has gone by since the first
/// sample.
pub proof fn lemma_frame_count<T>(
    cfg: Config,
    range: PitchRange,
    zero: T,
    inputs: Seq<T>,
    kernel: spec_fn(AnalyzerState<T>) -> Findings<T>,
    full: T,
    floor: T,
)
    ensures
        ({
            let s = AnalyzerState::start(cfg, range, zero).run(inputs, kernel, full, floor);
            let n = inputs.len() as int;
            let length = frame_length(cfg);
            &&& s.config == cfg
            &&& s.zero == zero
            &&& s.voicing.range == range
            &&& s.pushed == n
            &&& s.frames == frames_begun(length, n)
            &&& length >= SAMPLE ==> s.frames == frames_due(length, n)
        }),
    decreases inputs.len(),
{
    let start = AnalyzerState::start(cfg, range, zero);
    let n = inputs.len() as int;
    if n > 0 {
        lemma_frame_count(cfg, range, zero, inputs.drop_last(), kernel, full, floor);
        let s = start.run(inputs.drop_last(), kernel, full, floor);
        lemma_step_counts(s, inputs.last(), kernel, full, floor);
    }
    if frame_length(cfg) >= SAMPLE {
        crate::framing::lemma_frames_begun(frame_length(cfg), n);
    }
}

/// The frame that is shown is consistent after every input of at least one sample,
/// and its spectra have as many bins as the configuration says. Where pitches are
/// numbers, a voiced frame's pitch lies in the range.
pub proof fn lemma_frames_are_consistent<T>(
    cfg: Config,
    range: PitchRange,
    zero: T,
    inputs: Seq<T>,
    kernel: spec_fn(AnalyzerState<T>) -> Findings<T>,
    full: T,
    floor: T,
)
    requires
        forall|s: AnalyzerState<T>|
            (#[trigger] kernel(s)).aperiodicity.len() == cfg.numbins
                && kernel(s).spectral_envelope.len() == cfg.numbins,
    ensures
        ({
            let s = AnalyzerState::start(cfg, range, zero).run(inputs, kernel, full, floor);
            &&& inputs.len() >= 1 ==> s.consistent(full, floor)
            &&& s.last.voiced && s.last.rank is Some ==> range.holds(s.last.rank)
            &&& s.last.aperiodicity.len() == cfg.numbins
            &&& s.last.spectral_envelope.len() == cfg.numbins
        }),
    decreases inputs.len(),
{
    if inputs.len() > 0 {
        let before = inputs.drop_last();
        lemma_frames_are_consistent(cfg, range, zero, before, kernel, full, floor);
        lemma_frame_count(cfg, range, zero, before, kernel, full, floor);
        let s = AnalyzerState::start(cfg, range, zero).run(before, kernel, full, floor);
        lemma_step_counts(s, inputs.last(), kernel, full, floor);
        if before.len() == 0 {
            assert(s.begins());
        }
        if s.begins() {
            let p = s.push(inputs.last());
            let f = kernel(p);
            assert(f.aperiodicity.len() == cfg.numbins && f.spectral_envelope.len()
                == cfg.numbins);
        }
    }
}

/// Where every candidate's pitch is a number, so is the pitch of every frame.
pub proof fn lemma_pitches_are_numbers<T>(
    cfg: Config,
    range: PitchRange,
    zero: T,
    inputs: Seq<T>,
    kernel: spec_fn(AnalyzerState<T>) -> Findings<T>,
    full: T,
    floor: T,
)
    requires
        forall|s: AnalyzerState<T>| (#[trigger] kernel(s)).start.fo.rank is Some,
        forall|s: AnalyzerState<T>, i: int|
            0 <= i < kernel(s).candidates.len() ==> (
            #[trigger] kernel(s).candidates[i]).fo.rank is Some,
    ensures
        AnalyzerState::start(cfg, range, zero).run(
            inputs,
            kernel,
            full,
            floor,
        ).last.rank is Some,
    decreases inputs.len(),
{
    if inputs.len() > 0 {
        let before = inputs.drop_last();
        lemma_pitches_are_numbers(cfg, range, zero, before, kernel, full, floor);
        let s = AnalyzerState::start(cfg, range, zero).run(before, kernel, full, floor);
        let p = s.push(inputs.last());
        let f = kernel(p);
        lemma_best_is_among(f.start, f.candidates, f.candidates.len() as int);
    }
}

/// Where every candidate's pitch is a number, what the analyzer shows after any input
/// of at least one sample is in order: a voiced frame is not silent and its pitch lies
/// in the range, a frame that is not voiced is fully aperiodic, and a silent one is not
/// voiced and has the floor envelope.
pub proof fn lemma_frames_in_order<T>(
    cfg: Config,
    range: PitchRange,
    zero: T,
    inputs: Seq<T>,
    kernel: spec_fn(AnalyzerState<T>) -> Findings<T>,
    full: T,
    floor: T,
)
    requires
        inputs.len() >= 1,
        forall|s: AnalyzerState<T>|
            (#[trigger] kernel(s)).aperiodicity.len() == cfg.numbins
                && kernel(s).spectral_envelope.len() == cfg.numbins
                && kernel(s).start.fo.rank is Some,
        forall|s: AnalyzerState<T>, i: int|
            0 <= i < kernel(s).candidates.len() ==> (
            #[trigger] kernel(s).candidates[i]).fo.rank is Some,
    ensures
        ({
            let last = AnalyzerState::start(cfg, range, zero).run(
                inputs,
                kernel,
                full,
                floor,
            ).last;
            &&& last.voiced ==> !last.silence && range.holds(last.rank)
            &&& !last.voiced ==> last.aperiodicity == constant(cfg.numbins as nat, full)
            &&& last.silence ==> !last.voiced && last.spectral_envelope == constant(
                cfg.numbins as nat,
                floor,
            )
        }),
{
    lemma_frame_count(cfg, range, zero, inputs, kernel, full, floor);
    lemma_frames_are_consistent(cfg, range, zero, inputs, kernel, full, floor);
    lemma_pitches_are_numbers(cfg, range, zero, inputs, kernel, full, floor);
}

/// The best candidate is one of those there are.
pub proof fn lemma_best_is_among<T>(start: Candidate<T>, candidates: Seq<Candidate<T>>, k: int)
    requires
        k <= candidates.len(),
    ensures
        best_of(start, candidates, k) == start || exists|i: int|
            0 <= i < k && best_of(start, candidates, k) == #[trigger] candidates[i],
    decreases k,
{
    if k > 0 {
        lemma_best_is_among(start, candidates, k - 1);
        if best_of(start, candidates, k) == candidates[k - 1] {
            assert(0 <= k - 1 < k && best_of(start, candidates, k) == candidates[k - 1]);
        }
    }
}

// --- one sample and one frame -----------------------------------------------

/// One sample: it enters the history as the newest, the oldest leaves, and where it begins a frame
/// the window is the history with it. Nothing else changes.
pub proof fn lemma_push<T>(s: AnalyzerState<T>, input: T, i: int)
    requires
        s.history.len() > 0,
        0 <= i < s.history.len() - 1,
    ensures
        ({
            let t = s.push(input);
            &&& t.history.len() == s.history.len()
            &&& t.history[t.history.len() - 1] == input
            &&& t.history[i] == s.history[i + 1]
            &&& s.begins() ==> t.window == t.history
            &&& !s.begins() ==> t.window == s.window
            &&& t.pushed == s.pushed + 1
            &&& t.last == s.last && t.voicing == s.voicing && t.previous == s.previous
            &&& t.frames == s.frames && t.config == s.config && t.zero == s.zero
        }),
{
}

/// The pitch of a frame is that of the best candidate, and is then remembered, where that is not a
/// number outside the range and its score is not a negative number. Otherwise the frame has none,
/// and the one that was remembered stays.
pub proof fn lemma_track<T>(
    s: AnalyzerState<T>,
    start: Candidate<T>,
    candidates: Seq<Candidate<T>>,
)
    ensures
        ({
            let t = s.track(start, candidates);
            let best = best_of(start, candidates, candidates.len() as int);
            let range = s.voicing.range;
            let reached = best.fo.rank is None || range.floor <= best.fo.rank->0 <= range.ceil;
            let scored = best.score.rank is None || best.score.rank->0 >= 0;
            &&& reached && scored ==> {
                &&& t.previous == best.fo
                &&& t.last.fo == best.fo.value
                &&& t.last.nanohertz == best.nanohertz
                &&& t.last.rank == best.fo.rank
            }
            &&& !reached || !scored ==> {
                &&& t.previous == s.previous
                &&& t.last.fo == s.zero
                &&& t.last.nanohertz == 0
                &&& t.last.rank == Some(0i64)
            }
            &&& t.last.voiced == s.last.voiced && t.last.silence == s.last.silence
            &&& t.last.aperiodicity == s.last.aperiodicity
            &&& t.last.spectral_envelope == s.last.spectral_envelope
            &&& t.voicing == s.voicing && t.history == s.history && t.window == s.window
            &&& t.frames == s.frames && t.pushed == s.pushed && t.config == s.config
        }),
{
}

/// A frame that is judged voiced is not silent, is not dominated by energy below its pitch, passes
/// the voice-band test and has a pitch in the range, or none that is a number, whatever the
/// threshold of the score gate is; with the score gate off that is all. The score gate is open from
/// then on exactly if the frame is voiced. What the frame was found to be is kept as it is.
pub proof fn lemma_judge<T>(
    s: AnalyzerState<T>,
    silence: bool,
    low_band_dominated: bool,
    voice_band: bool,
    features: VoicingFeatures<T>,
    score: T,
    score_units: i64,
)
    ensures
        ({
            let t = s.judge(silence, low_band_dominated, voice_band, features, score, score_units);
            let range = s.voicing.range;
            let sounds = !silence && !low_band_dominated && voice_band && (s.last.rank is None
                || range.floor <= s.last.rank->0 <= range.ceil);
            &&& t.last.voiced ==> sounds
            &&& s.voicing.score_min <= 0 ==> (t.last.voiced <==> sounds)
            &&& s.voicing.score_min > 0 ==> (t.last.voiced <==> sounds && (if s.voicing.gate.open {
                5 * score_units >= 4 * s.voicing.score_min
            } else {
                score_units >= s.voicing.score_min
            }))
            &&& t.voicing.gate.open == t.last.voiced
            &&& t.voicing.range == s.voicing.range && t.voicing.score_min == s.voicing.score_min
            &&& t.last.silence == silence && t.last.features == features && t.last.score == score
            &&& t.last.fo == s.last.fo && t.last.nanohertz == s.last.nanohertz && t.last.rank
                == s.last.rank
            &&& t.previous == s.previous && t.frames == s.frames
        }),
{
}

/// A finished frame counts as one more. A voiced one keeps the aperiodicity that was found, and one
/// that is not silent the envelope; any other has `full` in every bin of the aperiodicity, or
/// `floor` in every bin of the envelope.
pub proof fn lemma_finish<T>(
    s: AnalyzerState<T>,
    aperiodicity: Seq<T>,
    spectral_envelope: Seq<T>,
    full: T,
    floor: T,
    i: int,
)
    requires
        0 <= i < s.config.numbins,
    ensures
        ({
            let t = s.finish(aperiodicity, spectral_envelope, full, floor);
            &&& t.frames == s.frames + 1
            &&& s.last.voiced ==> t.last.aperiodicity == aperiodicity
            &&& !s.last.voiced ==> t.last.aperiodicity.len() == s.config.numbins
                && t.last.aperiodicity[i] == full
            &&& !s.last.silence ==> t.last.spectral_envelope == spectral_envelope
            &&& s.last.silence ==> t.last.spectral_envelope.len() == s.config.numbins
                && t.last.spectral_envelope[i] == floor
            &&& t.last.voiced == s.last.voiced && t.last.silence == s.last.silence
            &&& t.last.fo == s.last.fo && t.last.nanohertz == s.last.nanohertz && t.last.rank
                == s.last.rank
            &&& t.voicing == s.voicing && t.previous == s.previous
        }),
{
}

/// How an analyzer begins: with a history and a window of zeros, one sample longer than the analysis
/// size, with the score gate off and closed, and without a pitch or a frame.
pub proof fn lemma_analyzer_starts<T>(cfg: Config, range: PitchRange, zero: T, i: int)
    requires
        0 <= i <= cfg.fftsize,
    ensures
        ({
            let s = AnalyzerState::start(cfg, range, zero);
            &&& s.history.len() == cfg.fftsize + 1 && s.history[i] == zero
            &&& s.window.len() == cfg.fftsize + 1 && s.window[i] == zero
            &&& s.voicing.range == range && s.voicing.score_min == 0 && !s.voicing.gate.open
            &&& s.previous.value == zero && s.previous.rank == Some(0i64)
            &&& !s.last.voiced && !s.last.silence && s.last.nanohertz == 0 && s.last.fo == zero
            &&& s.pushed == 0 && s.frames == 0
            &&& s.begins()
        }),
{
}

} // verus!
