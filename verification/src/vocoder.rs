//! The streaming analyzer and its composition with the synthesizer.
//!
//! Spectra are computed by the caller. The analyzer says when a frame is due,
//! hands out its window, takes the decisions on pitch and voicing, and keeps the
//! parameters of the last frame. For each frame the caller goes through
//! `track`, `judge` and `finish_frame`, in that order.

use crate::buffer::{copy_into, fill, filled};
use crate::config::{default_config, Config, HERTZ};
use crate::framing::{frame_length, Framer};
use crate::pitch::{below, best_of, Candidate, FoTracker, PitchRange, Ranked, MAX_RATE};
use crate::sounding::{is_function, lemma_sounds_unique, SynthState};
use crate::stream::{AnalyzerState, Findings, FrameView};
use crate::synth::{FramePlan, Synthesizer};
use crate::voicing::{Evidence, VoicingDecider, VoicingFeatures};
use vstd::prelude::*;

verus! {

/// Streaming analyzer: a framer, the pitch tracker, the voicing decision, and the
/// parameters of the most recent frame.
pub struct Analyzer<T> {
    cfg: Config,
    zero: T,
    framer: Framer<T>,
    window: Vec<T>,
    tracker: FoTracker<T>,
    decider: VoicingDecider,
    last_fo: T,
    last_nanohertz: u64,
    last_rank: Option<i64>,
    last_voiced: bool,
    last_silence: bool,
    last_features: VoicingFeatures<T>,
    last_score: T,
    ap_buf: Vec<T>,
    sp_buf: Vec<T>,
    frame_count: u64,
}

impl<T: Copy> Analyzer<T> {
    /// The buffers have the sizes that the configuration says.
    pub closed spec fn wf(&self) -> bool {
        &&& self.cfg.ok()
        &&& self.framer.wf()
        &&& self.framer.length() == frame_length(self.cfg)
        &&& self.framer.history().len() == self.cfg.fftsize + 1
        &&& self.window@.len() == self.cfg.fftsize + 1
        &&& self.ap_buf@.len() == self.cfg.numbins
        &&& self.sp_buf@.len() == self.cfg.numbins
        &&& self.tracker.spec_range() == self.decider.range
    }

    /// The configuration.
    pub closed spec fn config(&self) -> Config {
        self.cfg
    }

    /// How many samples have been pushed.
    pub closed spec fn pushed(&self) -> nat {
        self.framer.pushed()
    }

    /// The most recent samples, oldest first.
    pub closed spec fn history(&self) -> Seq<T> {
        self.framer.history()
    }

    /// The samples of the frame that was last begun, and one before them.
    pub closed spec fn frame_window(&self) -> Seq<T> {
        self.window@
    }

    /// The pitch of the last frame that had one.
    pub closed spec fn previous_fo(&self) -> Ranked<T> {
        self.tracker.spec_previous()
    }

    /// The range of pitches that is followed.
    pub open spec fn range(&self) -> PitchRange {
        self.voicing().range
    }

    /// The voicing decision.
    pub closed spec fn voicing(&self) -> VoicingDecider {
        self.decider
    }

    /// The parameters of the most recent frame.
    pub closed spec fn last(&self) -> FrameView<T> {
        FrameView {
            fo: self.last_fo,
            nanohertz: self.last_nanohertz,
            rank: self.last_rank,
            voiced: self.last_voiced,
            silence: self.last_silence,
            features: self.last_features,
            score: self.last_score,
            aperiodicity: self.ap_buf@,
            spectral_envelope: self.sp_buf@,
        }
    }

    /// How many frames have been analyzed.
    pub closed spec fn frames(&self) -> u64 {
        self.frame_count
    }

    /// The number zero.
    pub closed spec fn spec_zero(&self) -> T {
        self.zero
    }

    /// What the analyzer knows.
    pub open spec fn state(&self) -> AnalyzerState<T> {
        AnalyzerState {
            config: self.config(),
            pushed: self.pushed(),
            history: self.history(),
            window: self.frame_window(),
            voicing: self.voicing(),
            previous: self.previous_fo(),
            last: self.last(),
            frames: self.frames() as int,
            zero: self.spec_zero(),
        }
    }

    /// An analyzer that has seen nothing yet. `range` holds the ranks of the lowest
    /// and the highest pitch, `zero` is the number zero.
    pub fn new(cfg: &Config, range: PitchRange, zero: T) -> (a: Self)
        requires
            cfg.ok(),
        ensures
            a.wf(),
            a.state() == AnalyzerState::start(*cfg, range, zero),
    {
        Analyzer {
            cfg: *cfg,
            zero,
            framer: Framer::new(cfg, zero),
            window: filled(cfg.fftsize + 1, zero),
            tracker: FoTracker::new(range, zero),
            decider: VoicingDecider::new(range),
            last_fo: zero,
            last_nanohertz: 0,
            last_rank: Some(0),
            last_voiced: false,
            last_silence: false,
            last_features: VoicingFeatures { score: zero, nccf: zero, cpp: zero },
            last_score: zero,
            ap_buf: filled(cfg.numbins, zero),
            sp_buf: filled(cfg.numbins, zero),
            frame_count: 0,
        }
    }

    /// An analyzer with the default configuration for a sampling rate, see
    /// `Config::with_defaults`.
    pub fn with_defaults(fs: u64, range: PitchRange, zero: T) -> (a: Self)
        requires
            1600 * HERTZ < fs <= MAX_RATE,
        ensures
            a.wf(),
            a.state() == AnalyzerState::start(default_config(fs), range, zero),
    {
        Analyzer::new(&Config::with_defaults(fs), range, zero)
    }

    /// Push one input sample. Where a frame begins, its window is ready and the
    /// caller analyzes it.
    pub fn push_sample(&mut self, input: T) -> (new_frame: bool)
        requires
            old(self).wf(),
        ensures
            final(self).wf(),
            new_frame == old(self).state().begins(),
            final(self).state() == old(self).state().push(input),
    {
        self.framer.next(input, self.window.as_mut_slice())
    }

    /// The samples of the frame.
    pub fn frame(&self) -> (wave: &[T])
        requires
            self.wf(),
        ensures
            wave@ == self.frame_window().skip(1),
            wave@.len() == self.config().fftsize,
    {
        let wave = vstd::slice::slice_subrange(self.window.as_slice(), 1, self.window.len());
        assert(wave@ =~= self.frame_window().skip(1));
        wave
    }

    /// The samples of the frame, delayed by one sample.
    pub fn delayed_frame(&self) -> (wave: &[T])
        requires
            self.wf(),
        ensures
            wave@ == self.frame_window().drop_last(),
            wave@.len() == self.config().fftsize,
    {
        let wave = vstd::slice::slice_subrange(self.window.as_slice(), 0, self.cfg.fftsize);
        assert(wave@ =~= self.frame_window().drop_last());
        wave
    }

    /// The last pitch, to be refined and scored anew, where it is above the floor.
    pub fn seed(&self) -> (fo: Option<T>)
        requires
            self.wf(),
        ensures
            fo is Some <==> below(Some(self.range().floor), self.previous_fo().rank),
            fo matches Some(v) ==> v == self.previous_fo().value,
    {
        self.tracker.seed()
    }

    /// Choose the pitch of the frame: the best of `start` and the candidates that
    /// follow it, or none. Returns the best candidate, a pitch or not.
    pub fn track(&mut self, start: Candidate<T>, candidates: &[Candidate<T>]) -> (best: Candidate<
        T,
    >)
        requires
            old(self).wf(),
        ensures
            final(self).wf(),
            best == best_of(start, candidates@, candidates@.len() as int),
            final(self).state() == old(self).state().track(start, candidates@),
    {
        let outcome = self.tracker.choose_best(start, candidates);
        if outcome.found {
            self.last_fo = outcome.best.fo.value;
            self.last_nanohertz = outcome.best.nanohertz;
            self.last_rank = outcome.best.fo.rank;
        } else {
            self.last_fo = self.zero;
            self.last_nanohertz = 0;
            self.last_rank = Some(0);
        }
        outcome.best
    }

    /// Whether the spectral voicing gates have to be asked for this frame.
    pub fn needs_bands(&self, silence: bool) -> (yes: bool)
        requires
            self.wf(),
        ensures
            yes == (!silence && !self.range().excludes(self.last().rank)),
    {
        self.decider.needs_bands(silence, self.last_rank)
    }

    /// Decide whether the frame is voiced: from its silence, its pitch, the two
    /// spectral gates, and its voicing probability, given as it is and in the unit
    /// of the threshold.
    pub fn judge(
        &mut self,
        silence: bool,
        low_band_dominated: bool,
        voice_band: bool,
        features: VoicingFeatures<T>,
        score: T,
        score_units: i64,
    ) -> (voiced: bool)
        requires
            old(self).wf(),
        ensures
            final(self).wf(),
            final(self).state() == old(self).state().judge(
                silence,
                low_band_dominated,
                voice_band,
                features,
                score,
                score_units,
            ),
            voiced == final(self).last().voiced,
    {
        let voiced: bool = self.decider.decide(
            Evidence {
                silence,
                fo: self.last_rank,
                low_band_dominated,
                voice_band,
                score: score_units,
            },
        );
        self.last_silence = silence;
        self.last_voiced = voiced;
        self.last_features = features;
        self.last_score = score;
        voiced
    }

    /// Finish the frame with its spectra. A frame that is not voiced is fully
    /// aperiodic, `full` in every bin; a silent one has the envelope `floor`. What is
    /// not needed of the spectra may be left out.
    pub fn finish_frame(
        &mut self,
        aperiodicity: &[T],
        spectral_envelope: &[T],
        full: T,
        floor: T,
    )
        requires
            old(self).wf(),
            old(self).last().voiced ==> aperiodicity@.len() == old(self).config().numbins,
            !old(self).last().silence ==> spectral_envelope@.len()
                == old(self).config().numbins,
            old(self).frames() < u64::MAX,
        ensures
            final(self).wf(),
            final(self).state() == old(self).state().finish(
                aperiodicity@,
                spectral_envelope@,
                full,
                floor,
            ),
    {
        if self.last_voiced {
            copy_into(&mut self.ap_buf, aperiodicity);
        } else {
            fill(&mut self.ap_buf, full);
        }
        if self.last_silence {
            fill(&mut self.sp_buf, floor);
        } else {
            copy_into(&mut self.sp_buf, spectral_envelope);
        }
        self.frame_count = self.frame_count + 1;
    }

    /// Number of frames analyzed so far.
    pub fn frame_count(&self) -> (n: u64)
        ensures
            n == self.frames(),
    {
        self.frame_count
    }

    /// Number of frequency bins in the spectral envelope and the aperiodicity.
    pub fn numbins(&self) -> (n: usize)
        ensures
            n == self.config().numbins,
    {
        self.cfg.numbins
    }

    /// Pitch of the most recent frame, zero when there was none. It is the raw
    /// pitch, whether or not the frame is voiced.
    pub fn fo(&self) -> (fo: T)
        ensures
            fo == self.last().fo,
    {
        self.last_fo
    }

    /// Pitch of the most recent frame in nanohertz.
    pub fn fo_nanohertz(&self) -> (fo: u64)
        ensures
            fo == self.last().nanohertz,
    {
        self.last_nanohertz
    }

    /// Pitch of the most recent frame where it is voiced, zero where it is not.
    pub fn voiced_fo(&self) -> (fo: T)
        ensures
            fo == (if self.last().voiced { self.last().fo } else { self.spec_zero() }),
    {
        if self.last_voiced {
            self.last_fo
        } else {
            self.zero
        }
    }

    /// Whether the most recent frame was judged voiced.
    pub fn voiced(&self) -> (yes: bool)
        ensures
            yes == self.last().voiced,
    {
        self.last_voiced
    }

    /// Whether the most recent frame was silence.
    pub fn silence(&self) -> (yes: bool)
        ensures
            yes == self.last().silence,
    {
        self.last_silence
    }

    /// Per-bin aperiodicity of the most recent frame.
    pub fn aperiodicity(&self) -> (ap: &[T])
        ensures
            ap@ == self.last().aperiodicity,
    {
        self.ap_buf.as_slice()
    }

    /// Per-bin spectral envelope of the most recent frame.
    pub fn spectral_envelope(&self) -> (sp: &[T])
        ensures
            sp@ == self.last().spectral_envelope,
    {
        self.sp_buf.as_slice()
    }

    /// Voicing features of the most recent frame.
    pub fn voicing_features(&self) -> (f: VoicingFeatures<T>)
        ensures
            f == self.last().features,
    {
        self.last_features
    }

    /// Voicing probability of the most recent frame.
    pub fn voicing_score(&self) -> (score: T)
        ensures
            score == self.last().score,
    {
        self.last_score
    }

    /// Set the least voicing probability of a voiced frame; at or below zero the
    /// score gate is off.
    pub fn set_voicing_score_min(&mut self, min: i64)
        requires
            old(self).wf(),
        ensures
            final(self).wf(),
            final(self).state() == old(self).state().with_score_min(min),
    {
        self.decider.score_min = min;
    }
}

/// Analysis and resynthesis in one: an analyzer and a synthesizer of the same
/// configuration.
pub struct Reim<T> {
    pub analyzer: Analyzer<T>,
    pub synth: Synthesizer<T>,
}

impl<T: Copy> Reim<T> {
    /// Both halves are in order and of the same configuration.
    pub open spec fn wf(&self) -> bool {
        &&& self.analyzer.wf()
        &&& self.synth.wf()
        &&& self.analyzer.config() == self.synth.config()
    }

    /// An analyzer and a synthesizer that have seen nothing yet.
    pub fn new(cfg: &Config, range: PitchRange, zero: T) -> (r: Self)
        requires
            cfg.ok(),
            cfg.fs >= 1000 * HERTZ,
            cfg.spec_period_max() + cfg.fftsize <= usize::MAX,
        ensures
            r.wf(),
            r.analyzer.state() == AnalyzerState::start(*cfg, range, zero),
            r.synth.state() == SynthState::start(*cfg, zero),
            r.synth.quiet(),
    {
        Reim { analyzer: Analyzer::new(cfg, range, zero), synth: Synthesizer::new(cfg, zero) }
    }

    /// An analyzer and a synthesizer with the default configuration for a sampling
    /// rate.
    pub fn with_defaults(fs: u64, range: PitchRange, zero: T) -> (r: Self)
        requires
            1600 * HERTZ < fs <= MAX_RATE,
        ensures
            r.wf(),
            r.analyzer.state() == AnalyzerState::start(default_config(fs), range, zero),
            r.synth.state() == SynthState::start(default_config(fs), zero),
            r.synth.quiet(),
    {
        Reim {
            analyzer: Analyzer::with_defaults(fs, range, zero),
            synth: Synthesizer::with_defaults(fs, zero),
        }
    }

    /// Analyze one input sample without synthesizing. Where a frame begins the
    /// caller analyzes it.
    pub fn analyze_sample(&mut self, input: T) -> (new_frame: bool)
        requires
            old(self).wf(),
        ensures
            final(self).wf(),
            final(self).synth == old(self).synth,
            new_frame == old(self).analyzer.state().begins(),
            final(self).analyzer.state() == old(self).analyzer.state().push(input),
    {
        self.analyzer.push_sample(input)
    }

    /// Hand the most recent frame to the synthesizer, as `Synthesizer::push_frame`
    /// takes it. The analyzer does not change.
    pub fn pass_frame(&mut self) -> (plan: FramePlan)
        requires
            old(self).wf(),
        ensures
            final(self).wf(),
            final(self).analyzer == old(self).analyzer,
            plan == final(self).synth.plan(),
            final(self).synth.state() == old(self).synth.state().framed(
                old(self).analyzer.last().nanohertz,
                if old(self).analyzer.last().voiced { 1 } else { 0 },
                old(self).analyzer.last().silence,
            ),
            old(self).analyzer.last().silence && old(self).synth.quiet()
                ==> final(self).synth.quiet(),
    {
        self.synth.push_frame(
            self.analyzer.fo_nanohertz(),
            self.analyzer.voiced(),
            self.analyzer.silence(),
        )
    }

    /// Number of frames analyzed so far.
    pub fn frame_count(&self) -> (n: u64)
        ensures
            n == self.analyzer.frames(),
    {
        self.analyzer.frame_count()
    }

    /// Pitch of the most recent frame, see `Analyzer::fo`.
    pub fn last_fo(&self) -> (fo: T)
        ensures
            fo == self.analyzer.last().fo,
    {
        self.analyzer.fo()
    }

    /// Whether the most recent frame was judged voiced.
    pub fn last_voiced(&self) -> (yes: bool)
        ensures
            yes == self.analyzer.last().voiced,
    {
        self.analyzer.voiced()
    }

    /// Whether the most recent frame was silence.
    pub fn last_silence(&self) -> (yes: bool)
        ensures
            yes == self.analyzer.last().silence,
    {
        self.analyzer.silence()
    }

    /// Per-bin aperiodicity of the most recent frame.
    pub fn last_aperiodicity(&self) -> (ap: &[T])
        ensures
            ap@ == self.analyzer.last().aperiodicity,
    {
        self.analyzer.aperiodicity()
    }

    /// Per-bin spectral envelope of the most recent frame.
    pub fn last_spectral_envelope(&self) -> (sp: &[T])
        ensures
            sp@ == self.analyzer.last().spectral_envelope,
    {
        self.analyzer.spectral_envelope()
    }

    /// Voicing features of the most recent frame.
    pub fn last_voicing_features(&self) -> (f: VoicingFeatures<T>)
        ensures
            f == self.analyzer.last().features,
    {
        self.analyzer.voicing_features()
    }

    /// Voicing probability of the most recent frame.
    pub fn last_voicing_score(&self) -> (score: T)
        ensures
            score == self.analyzer.last().score,
    {
        self.analyzer.voicing_score()
    }

    /// Set the least voicing probability of a voiced frame.
    pub fn set_voicing_score_min(&mut self, min: i64)
        requires
            old(self).wf(),
        ensures
            final(self).wf(),
            final(self).synth == old(self).synth,
            final(self).analyzer.state() == old(self).analyzer.state().with_score_min(min),
    {
        self.analyzer.set_voicing_score_min(min);
    }
}

// --- laws -------------------------------------------------------------------

/// Whether one sample of analysis alone leads from one vocoder to another: the
/// sample is pushed, a frame that it begins is analyzed, and the synthesizer is left
/// as it is.
pub open spec fn analyzed<T: Copy>(
    before: Reim<T>,
    input: T,
    kernel: spec_fn(AnalyzerState<T>) -> Findings<T>,
    full: T,
    floor: T,
    after: Reim<T>,
) -> bool {
    &&& after.analyzer.state() == before.analyzer.state().step(input, kernel, full, floor)
    &&& after.synth == before.synth
}

/// What the synthesizer is about to sound once it has been handed the frame that the
/// sample began, with the impulse of its noise; where none began, as before.
pub open spec fn handed<T: Copy>(
    synth: SynthState<T>,
    began: bool,
    frame: FrameView<T>,
    noise: Seq<T>,
) -> SynthState<T> {
    if began {
        let s = synth.framed(frame.nanohertz, if frame.voiced { 1 } else { 0 }, frame.silence);
        if s.plan.noise {
            s.loaded(noise)
        } else {
            s
        }
    } else {
        synth
    }
}

/// Whether one sample of analysis and synthesis leads from one vocoder to another,
/// and gives the output `sample`.
pub open spec fn processed<T: Copy, A: Fn(T, T) -> T>(
    before: Reim<T>,
    input: T,
    kernel: spec_fn(AnalyzerState<T>) -> Findings<T>,
    full: T,
    floor: T,
    noise: Seq<T>,
    pulse: Seq<T>,
    plus: A,
    sample: T,
    after: Reim<T>,
) -> bool {
    &&& after.analyzer.state() == before.analyzer.state().step(input, kernel, full, floor)
    &&& handed(
        before.synth.state(),
        before.analyzer.state().begins(),
        after.analyzer.last(),
        noise,
    ).sounds(pulse, plus, sample, after.synth.state())
}

/// Analysis alone gives the same frames as analysis with synthesis: two vocoders
/// whose analyzers know the same, fed the same samples, know the same at every
/// sample. The synthesizer of the one that only analyzes does not change.
pub proof fn lemma_analysis_alone<T: Copy, A: Fn(T, T) -> T>(
    alone: Seq<Reim<T>>,
    both: Seq<Reim<T>>,
    inputs: Seq<T>,
    kernel: spec_fn(AnalyzerState<T>) -> Findings<T>,
    full: T,
    floor: T,
    noises: Seq<Seq<T>>,
    pulses: Seq<Seq<T>>,
    plus: A,
    samples: Seq<T>,
    k: int,
)
    requires
        0 <= k <= inputs.len(),
        alone.len() == inputs.len() + 1,
        both.len() == inputs.len() + 1,
        alone[0].analyzer.state() == both[0].analyzer.state(),
        forall|i: int|
            0 <= i < inputs.len() ==> analyzed(
                #[trigger] alone[i],
                inputs[i],
                kernel,
                full,
                floor,
                alone[i + 1],
            ),
        forall|i: int|
            0 <= i < inputs.len() ==> processed(
                #[trigger] both[i],
                inputs[i],
                kernel,
                full,
                floor,
                noises[i],
                pulses[i],
                plus,
                samples[i],
                both[i + 1],
            ),
    ensures
        alone[k].analyzer.state() == both[k].analyzer.state(),
        alone[k].analyzer.last() == both[k].analyzer.last(),
        alone[k].analyzer.frames() == both[k].analyzer.frames(),
        alone[k].synth == alone[0].synth,
    decreases k,
{
    if k > 0 {
        lemma_analysis_alone(
            alone,
            both,
            inputs,
            kernel,
            full,
            floor,
            noises,
            pulses,
            plus,
            samples,
            k - 1,
        );
        let i = k - 1;
        assert(analyzed(alone[i], inputs[i], kernel, full, floor, alone[i + 1]));
        assert(processed(
            both[i],
            inputs[i],
            kernel,
            full,
            floor,
            noises[i],
            pulses[i],
            plus,
            samples[i],
            both[i + 1],
        ));
    }
}

/// Whether one sample through a separate analyzer and a separate synthesizer leads
/// from one pair of them to another, and gives the output `sample`: the sample is
/// pushed, a frame that it begins is analyzed and supplied to the synthesizer, and the
/// next sample is taken.
pub open spec fn composed<T: Copy, A: Fn(T, T) -> T>(
    analyzer: Analyzer<T>,
    synth: Synthesizer<T>,
    input: T,
    kernel: spec_fn(AnalyzerState<T>) -> Findings<T>,
    full: T,
    floor: T,
    noise: Seq<T>,
    pulse: Seq<T>,
    plus: A,
    sample: T,
    next_analyzer: Analyzer<T>,
    next_synth: Synthesizer<T>,
) -> bool {
    &&& next_analyzer.state() == analyzer.state().step(input, kernel, full, floor)
    &&& handed(
        synth.state(),
        analyzer.state().begins(),
        next_analyzer.last(),
        noise,
    ).sounds(pulse, plus, sample, next_synth.state())
}

/// The vocoder is its analyzer and its synthesizer composed: fed the same samples,
/// with the same findings about frames and the same impulses, it gives the samples
/// that a separate analyzer and a separate synthesizer give that began alike, bit for
/// bit, where addition is a function. What they know and are about to sound is the
/// same at every sample.
pub proof fn lemma_vocoder_is_composed<T: Copy, A: Fn(T, T) -> T>(
    fused: Seq<Reim<T>>,
    x: Seq<T>,
    analyzers: Seq<Analyzer<T>>,
    synths: Seq<Synthesizer<T>>,
    y: Seq<T>,
    inputs: Seq<T>,
    kernel: spec_fn(AnalyzerState<T>) -> Findings<T>,
    full: T,
    floor: T,
    noises: Seq<Seq<T>>,
    pulses: Seq<Seq<T>>,
    plus: A,
)
    requires
        is_function::<T, A>(plus),
        fused.len() == inputs.len() + 1,
        analyzers.len() == inputs.len() + 1,
        synths.len() == inputs.len() + 1,
        x.len() == inputs.len(),
        y.len() == inputs.len(),
        fused[0].analyzer.state() == analyzers[0].state(),
        fused[0].synth.state() == synths[0].state(),
        forall|i: int|
            0 <= i < inputs.len() ==> processed(
                #[trigger] fused[i],
                inputs[i],
                kernel,
                full,
                floor,
                noises[i],
                pulses[i],
                plus,
                x[i],
                fused[i + 1],
            ),
        forall|i: int|
            0 <= i < inputs.len() ==> composed(
                #[trigger] analyzers[i],
                synths[i],
                inputs[i],
                kernel,
                full,
                floor,
                noises[i],
                pulses[i],
                plus,
                y[i],
                analyzers[i + 1],
                synths[i + 1],
            ),
    ensures
        x == y,
        forall|k: int|
            0 <= k <= inputs.len() ==> (#[trigger] fused[k]).analyzer.state()
                == analyzers[k].state() && fused[k].synth.state() == synths[k].state(),
    decreases inputs.len(),
{
    let n = inputs.len() as int;
    if n > 0 {
        let m = n - 1;
        lemma_vocoder_is_composed(
            fused.take(n),
            x.take(m),
            analyzers.take(n),
            synths.take(n),
            y.take(m),
            inputs.take(m),
            kernel,
            full,
            floor,
            noises,
            pulses,
            plus,
        );
        assert(fused.take(n)[m] == fused[m]);
        assert(processed(
            fused[m],
            inputs[m],
            kernel,
            full,
            floor,
            noises[m],
            pulses[m],
            plus,
            x[m],
            fused[m + 1],
        ));
        assert(composed(
            analyzers[m],
            synths[m],
            inputs[m],
            kernel,
            full,
            floor,
            noises[m],
            pulses[m],
            plus,
            y[m],
            analyzers[m + 1],
            synths[m + 1],
        ));
        lemma_sounds_unique(
            handed(
                synths[m].state(),
                analyzers[m].state().begins(),
                analyzers[n].last(),
                noises[m],
            ),
            pulses[m],
            plus,
            x[m],
            fused[n].synth.state(),
            y[m],
            synths[n].state(),
        );
        assert forall|k: int| 0 <= k <= n implies (#[trigger] fused[k]).analyzer.state()
            == analyzers[k].state() && fused[k].synth.state() == synths[k].state() by {
            if k < n {
                assert(fused.take(n)[k] == fused[k]);
            }
        }
        assert forall|k: int| 0 <= k < n implies x[k] == y[k] by {
            if k < m {
                assert(x.take(m)[k] == y.take(m)[k]);
            }
        }
    }
    assert(x =~= y);
}

} // verus!
