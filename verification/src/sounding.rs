//! What a synthesizer is about to sound, and what holds of its output.

use crate::buffer::constant;
use crate::config::{Config, HERTZ};
use crate::ring::CircularQueue;
use crate::rng::seed;
use crate::synth::{
    drained, frame_has_pulse, front, mixed, FramePlan, NoiseState, PulseClock, QueueState, TICK,
};
use vstd::prelude::*;

verus! {

/// What a synthesizer is about to sound.
#[verifier::ext_equal]
pub struct SynthState<T> {
    pub config: Config,
    /// What the current frame sounds with.
    pub plan: FramePlan,
    pub pulse_clock: PulseClock,
    pub noise_clock: NoiseState,
    /// The impulse of a noise burst.
    pub noise_impulse: Seq<T>,
    /// The output that is still to come.
    pub queue: QueueState<T>,
    /// The silent sample.
    pub zero: T,
}

impl<T: Copy> SynthState<T> {
    /// No frame seen yet.
    pub open spec fn start(cfg: Config, zero: T) -> SynthState<T> {
        SynthState {
            config: cfg,
            plan: FramePlan { pulse: false, noise: false },
            pulse_clock: PulseClock {
                interval: (cfg.fs * TICK / (300 * HERTZ as int)) as u128,
                wait: 0,
                frac: 0,
            },
            noise_clock: NoiseState {
                velvet: (2 * cfg.fs + 2000 * HERTZ) / (4000 * HERTZ as int),
                chosen: 0,
                position: 0,
                register: seed(),
            },
            noise_impulse: constant(cfg.fftsize as nat, zero),
            queue: QueueState {
                samples: constant((cfg.spec_period_max() + cfg.fftsize) as nat, zero),
                pending: 0,
            },
            zero,
        }
    }

    /// With the next frame: its pitch in nanohertz, the rank of its voicing strength,
    /// and whether it is silence.
    pub open spec fn framed(self, fo: u64, strength: i64, silence: bool) -> SynthState<T> {
        let pulse = frame_has_pulse(self.config, fo, strength, silence);
        SynthState {
            plan: FramePlan { pulse, noise: !silence },
            pulse_clock: if pulse {
                PulseClock {
                    interval: (self.config.fs * TICK / fo as int) as u128,
                    ..self.pulse_clock
                }
            } else {
                self.pulse_clock
            },
            ..self
        }
    }

    /// With another impulse of the noise bursts.
    pub open spec fn loaded(self, impulse: Seq<T>) -> SynthState<T> {
        SynthState { noise_impulse: impulse, ..self }
    }

    /// Whether nothing sounds and nothing is pending.
    pub open spec fn quiet(self) -> bool {
        &&& !self.plan.pulse
        &&& !self.plan.noise
        &&& self.queue.pending == 0
    }

    /// No more is pending than one impulse, for which the queue has room.
    pub open spec fn within_impulse(self) -> bool {
        &&& self.queue.pending <= self.config.fftsize
        &&& self.config.fftsize <= self.queue.samples.len()
        &&& self.noise_impulse.len() == self.config.fftsize
    }

    /// Whether the next sample begins a pulse.
    pub open spec fn starts_pulse(self) -> bool {
        self.plan.pulse && self.pulse_clock.wait == 0
    }

    /// Whether the next sample begins a burst of noise.
    pub open spec fn starts_noise(self) -> bool {
        self.plan.noise && self.noise_clock.due()
    }

    /// The impulse that the next sample begins with, where it begins a pulse.
    pub open spec fn pulse_of(self, impulse: Seq<T>) -> Option<Seq<T>> {
        if self.starts_pulse() { Some(impulse) } else { None }
    }

    /// The impulse of the burst of noise that the next sample begins, where it
    /// begins one.
    pub open spec fn burst(self) -> Option<Seq<T>> {
        if self.starts_noise() { Some(self.noise_impulse) } else { None }
    }

    /// Whether `sample` comes out next and leaves `next`: a pulse that is due is
    /// mixed in, then a burst of noise that is due, then the next sample leaves.
    pub open spec fn sounds<A: Fn(T, T) -> T>(
        self,
        pulse: Seq<T>,
        plus: A,
        sample: T,
        next: SynthState<T>,
    ) -> bool {
        &&& next.config == self.config
        &&& next.plan == self.plan
        &&& next.noise_impulse == self.noise_impulse
        &&& next.zero == self.zero
        &&& next.pulse_clock == (if self.plan.pulse {
            self.pulse_clock.ticked()
        } else {
            self.pulse_clock
        })
        &&& next.noise_clock == (if self.plan.noise {
            self.noise_clock.ticked()
        } else {
            self.noise_clock
        })
        &&& exists|a: QueueState<T>, b: QueueState<T>| #[trigger]
            mixed(self.queue, self.pulse_of(pulse), a, plus) && #[trigger] mixed(
                a,
                self.burst(),
                b,
                plus,
            ) && sample == front(b, self.zero) && next.queue == drained(b, self.zero)
    }
}

/// Whether a run of samples comes out one after another: sample `k` from the state
/// `states[k]`, with the pulse impulse `pulses[k]`, and leaving `states[k + 1]`.
pub open spec fn sounds_all<T: Copy, A: Fn(T, T) -> T>(
    states: Seq<SynthState<T>>,
    pulses: Seq<Seq<T>>,
    plus: A,
    samples: Seq<T>,
) -> bool {
    &&& states.len() == samples.len() + 1
    &&& pulses.len() == samples.len()
    &&& forall|k: int|
        0 <= k < samples.len() ==> (#[trigger] states[k]).sounds(
            pulses[k],
            plus,
            samples[k],
            states[k + 1],
        )
}

/// A quiet synthesizer gives silence and stays quiet.
pub proof fn lemma_quiet_sounds<T: Copy, A: Fn(T, T) -> T>(
    s: SynthState<T>,
    pulse: Seq<T>,
    plus: A,
    sample: T,
    next: SynthState<T>,
)
    requires
        s.quiet(),
        s.sounds(pulse, plus, sample, next),
    ensures
        sample == s.zero,
        next.quiet(),
{
}

/// Nothing sounds after a silent frame but what was pending, one sample less with
/// every sample that comes out.
proof fn lemma_drains<T: Copy, A: Fn(T, T) -> T>(
    states: Seq<SynthState<T>>,
    pulses: Seq<Seq<T>>,
    plus: A,
    samples: Seq<T>,
    k: int,
)
    requires
        sounds_all(states, pulses, plus, samples),
        !states[0].plan.pulse,
        !states[0].plan.noise,
        0 <= k <= samples.len(),
    ensures
        states[k].plan == states[0].plan,
        states[k].zero == states[0].zero,
        states[k].queue.pending == (if k < states[0].queue.pending {
            states[0].queue.pending - k
        } else {
            0
        }),
    decreases k,
{
    if k > 0 {
        lemma_drains(states, pulses, plus, samples, k - 1);
        let s = states[k - 1];
        assert(s.sounds(pulses[k - 1], plus, samples[k - 1], states[k - 1 + 1]));
    }
}

/// A silent frame lets the synthesizer fall silent: once as many samples have come
/// out as an impulse has, all that comes is silence, until another frame is
/// supplied.
pub proof fn lemma_falls_silent<T: Copy, A: Fn(T, T) -> T>(
    before: SynthState<T>,
    fo: u64,
    strength: i64,
    states: Seq<SynthState<T>>,
    pulses: Seq<Seq<T>>,
    plus: A,
    samples: Seq<T>,
)
    requires
        before.within_impulse(),
        sounds_all(states, pulses, plus, samples),
        states[0] == before.framed(fo, strength, true),
    ensures
        forall|k: int|
            before.config.fftsize <= k < samples.len() ==> #[trigger] samples[k] == before.zero,
        forall|k: int|
            before.config.fftsize <= k <= samples.len() ==> (#[trigger] states[k]).quiet(),
{
    assert forall|k: int| before.config.fftsize <= k <= samples.len() implies (
    #[trigger] states[k]).quiet() by {
        lemma_drains(states, pulses, plus, samples, k);
    }
    assert forall|k: int| before.config.fftsize <= k < samples.len() implies #[trigger] samples[k]
        == before.zero by {
        lemma_drains(states, pulses, plus, samples, k);
        let s = states[k];
        assert(s.sounds(pulses[k], plus, samples[k], states[k + 1]));
        lemma_quiet_sounds(s, pulses[k], plus, samples[k], states[k + 1]);
    }
}

/// Before the first frame nothing sounds.
pub proof fn lemma_silent_at_first<T: Copy, A: Fn(T, T) -> T>(
    cfg: Config,
    states: Seq<SynthState<T>>,
    pulses: Seq<Seq<T>>,
    plus: A,
    samples: Seq<T>,
    zero: T,
)
    requires
        sounds_all(states, pulses, plus, samples),
        states[0] == SynthState::start(cfg, zero),
    ensures
        forall|k: int| 0 <= k < samples.len() ==> #[trigger] samples[k] == zero,
{
    assert forall|k: int| 0 <= k < samples.len() implies #[trigger] samples[k] == zero by {
        lemma_drains(states, pulses, plus, samples, k);
        let s = states[k];
        assert(s.sounds(pulses[k], plus, samples[k], states[k + 1]));
        lemma_quiet_sounds(s, pulses[k], plus, samples[k], states[k + 1]);
    }
}

/// What is pending never outgrows one impulse, as long as pulses have the length of
/// one.
pub proof fn lemma_within_impulse<T: Copy, A: Fn(T, T) -> T>(
    s: SynthState<T>,
    pulse: Seq<T>,
    plus: A,
    sample: T,
    next: SynthState<T>,
)
    requires
        s.within_impulse(),
        s.sounds(pulse, plus, sample, next),
        s.starts_pulse() ==> pulse.len() == s.config.fftsize,
    ensures
        next.within_impulse(),
{
}

/// Whether an addition gives one result for two samples.
pub open spec fn is_function<T: Copy, A: Fn(T, T) -> T>(plus: A) -> bool {
    forall|a: T, b: T, r: T, q: T| #[trigger]
        call_ensures(plus, (a, b), r) && #[trigger] call_ensures(plus, (a, b), q) ==> r == q
}

proof fn lemma_mixed_unique<T: Copy, A: Fn(T, T) -> T>(
    before: QueueState<T>,
    impulse: Option<Seq<T>>,
    a: QueueState<T>,
    b: QueueState<T>,
    plus: A,
)
    requires
        is_function::<T, A>(plus),
        mixed(before, impulse, a, plus),
        mixed(before, impulse, b, plus),
    ensures
        a == b,
{
    match impulse {
        None => {},
        Some(s) => {
            assert(CircularQueue::<T>::overlapped(before.samples, s, a.samples, plus));
            assert(CircularQueue::<T>::overlapped(before.samples, s, b.samples, plus));
            assert forall|j: int| 0 <= j < a.samples.len() implies #[trigger] a.samples[j]
                == b.samples[j] by {}
            assert(a.samples =~= b.samples);
        },
    }
}

/// From one state, with one pulse impulse, only one sample can come out and only
/// one state can follow, where addition is a function.
pub proof fn lemma_sounds_unique<T: Copy, A: Fn(T, T) -> T>(
    s: SynthState<T>,
    pulse: Seq<T>,
    plus: A,
    x: T,
    a: SynthState<T>,
    y: T,
    b: SynthState<T>,
)
    requires
        is_function::<T, A>(plus),
        s.sounds(pulse, plus, x, a),
        s.sounds(pulse, plus, y, b),
    ensures
        x == y,
        a == b,
{
    let p = s.pulse_of(pulse);
    let (a1, a2) = choose|a1: QueueState<T>, a2: QueueState<T>| #[trigger]
        mixed(s.queue, p, a1, plus) && #[trigger] mixed(a1, s.burst(), a2, plus) && x == front(
            a2,
            s.zero,
        ) && a.queue == drained(a2, s.zero);
    let (b1, b2) = choose|b1: QueueState<T>, b2: QueueState<T>| #[trigger]
        mixed(s.queue, p, b1, plus) && #[trigger] mixed(b1, s.burst(), b2, plus) && y == front(
            b2,
            s.zero,
        ) && b.queue == drained(b2, s.zero);
    lemma_mixed_unique(s.queue, p, a1, b1, plus);
    lemma_mixed_unique(a1, s.burst(), a2, b2, plus);
}

/// A voicing strength does what the voiced flag does that stands for it: pulses sound
/// with any strength above zero as with a voiced frame, and with none as with an
/// unvoiced one.
pub proof fn lemma_strength_as_flag<T: Copy>(
    s: SynthState<T>,
    fo: u64,
    voiced: bool,
    strength: i64,
    silence: bool,
)
    requires
        voiced == (strength > 0),
    ensures
        s.framed(fo, strength, silence) == s.framed(fo, if voiced { 1 } else { 0 }, silence),
{
}

/// Two synthesizers in one state, one given a voiced flag and the other a strength
/// that matches it, give the same samples ever after, where addition is a function
/// and their impulses are the same.
pub proof fn lemma_same_samples<T: Copy, A: Fn(T, T) -> T>(
    before: SynthState<T>,
    fo: u64,
    voiced: bool,
    strength: i64,
    silence: bool,
    a: Seq<SynthState<T>>,
    x: Seq<T>,
    b: Seq<SynthState<T>>,
    y: Seq<T>,
    pulses: Seq<Seq<T>>,
    plus: A,
)
    requires
        is_function::<T, A>(plus),
        voiced == (strength > 0),
        a[0] == before.framed(fo, if voiced { 1 } else { 0 }, silence),
        b[0] == before.framed(fo, strength, silence),
        sounds_all(a, pulses, plus, x),
        sounds_all(b, pulses, plus, y),
    ensures
        x == y,
        a == b,
{
    lemma_strength_as_flag(before, fo, voiced, strength, silence);
    assert forall|k: int| 0 <= k < a.len() implies #[trigger] a[k] == b[k] by {
        lemma_same_states(a, x, b, y, pulses, plus, k);
    }
    assert(a =~= b);
    assert forall|k: int| 0 <= k < x.len() implies #[trigger] x[k] == y[k] by {
        assert(a[k].sounds(pulses[k], plus, x[k], a[k + 1]));
        assert(b[k].sounds(pulses[k], plus, y[k], b[k + 1]));
        lemma_sounds_unique(a[k], pulses[k], plus, x[k], a[k + 1], y[k], b[k + 1]);
    }
    assert(x =~= y);
}

proof fn lemma_same_states<T: Copy, A: Fn(T, T) -> T>(
    a: Seq<SynthState<T>>,
    x: Seq<T>,
    b: Seq<SynthState<T>>,
    y: Seq<T>,
    pulses: Seq<Seq<T>>,
    plus: A,
    k: int,
)
    requires
        is_function::<T, A>(plus),
        a[0] == b[0],
        sounds_all(a, pulses, plus, x),
        sounds_all(b, pulses, plus, y),
        0 <= k < a.len(),
    ensures
        a[k] == b[k],
    decreases k,
{
    if k > 0 {
        lemma_same_states(a, x, b, y, pulses, plus, k - 1);
        assert(a[k - 1].sounds(pulses[k - 1], plus, x[k - 1], a[k - 1 + 1]));
        assert(b[k - 1].sounds(pulses[k - 1], plus, y[k - 1], b[k - 1 + 1]));
        lemma_sounds_unique(a[k - 1], pulses[k - 1], plus, x[k - 1], a[k], y[k - 1], b[k]);
    }
}

// --- one frame and one sample -----------------------------------------------

/// What a frame changes: it has pulses when it is voiced, not silent, and at a pitch in the range,
/// and then their distance is one period of the pitch, rounded down to a part of a sample; it has
/// noise when it is not silent. The clocks go on from where they are, and what is pending stays.
pub proof fn lemma_framed<T: Copy>(s: SynthState<T>, fo: u64, strength: i64, silence: bool)
    requires
        s.config.ok(),
    ensures
        ({
            let t = s.framed(fo, strength, silence);
            let within = s.config.fo_floor <= fo && fo <= s.config.fo_ceil;
            &&& t.plan.pulse <==> strength > 0 && !silence && within
            &&& t.plan.noise <==> !silence
            &&& t.plan.pulse ==> t.pulse_clock.interval * fo <= s.config.fs * 0x10_0000_0000_0000
                < (t.pulse_clock.interval + 1) * fo
            &&& !t.plan.pulse ==> t.pulse_clock == s.pulse_clock
            &&& t.pulse_clock.wait == s.pulse_clock.wait && t.pulse_clock.frac == s.pulse_clock.frac
            &&& t.noise_clock == s.noise_clock
            &&& t.noise_impulse == s.noise_impulse
            &&& t.queue == s.queue
            &&& t.config == s.config
            &&& t.zero == s.zero
        }),
{
    if frame_has_pulse(s.config, fo, strength, silence) {
        let a = s.config.fs * TICK;
        let b = fo as int;
        let q = a / b;
        vstd::arithmetic::div_mod::lemma_fundamental_div_mod(a, b);
        assert(q * b <= a < (q + 1) * b) by (nonlinear_arith)
            requires
                a == b * q + a % b,
                0 <= a % b < b,
        ;
        assert(0 <= q <= a) by (nonlinear_arith)
            requires
                q == a / b,
                a >= 0,
                b >= 1,
        ;
    }
}

/// How a synthesizer begins: no frame, nothing pending, a pulse distance of one period of 300 Hz,
/// and a stretch of noise of one two-thousandth of a second, to the nearest sample.
pub proof fn lemma_starts<T: Copy>(cfg: Config, zero: T)
    requires
        cfg.ok(),
    ensures
        ({
            let s = SynthState::start(cfg, zero);
            let interval = s.pulse_clock.interval as int;
            let velvet = s.noise_clock.velvet;
            &&& s.quiet()
            &&& s.config == cfg && s.zero == zero
            &&& interval * 300_000_000_000 <= cfg.fs * 0x10_0000_0000_0000 < (interval + 1)
                * 300_000_000_000
            &&& s.pulse_clock.wait == 0 && s.pulse_clock.frac == 0
            &&& velvet * 4_000_000_000_000 <= 2 * cfg.fs + 2_000_000_000_000 < (velvet + 1)
                * 4_000_000_000_000
            &&& s.noise_clock.due()
            &&& forall|i: int| 0 <= i < s.queue.samples.len() ==> #[trigger] s.queue.samples[i] == zero
            &&& forall|i: int| 0 <= i < s.noise_impulse.len() ==> #[trigger] s.noise_impulse[i] == zero
            &&& s.noise_impulse.len() == cfg.fftsize
            &&& (s.queue.samples.len() - cfg.fftsize) * cfg.fo_floor >= cfg.fs
        }),
{
    let a = cfg.fs * TICK;
    assert(0 <= a / (300 * HERTZ as int) <= a);
    crate::config::lemma_period_max(cfg);
    let b = cfg.fo_floor as int;
    let n = cfg.spec_period_max();
    assert(n >= 0) by (nonlinear_arith)
        requires
            n == (cfg.fs + b - 1) / b,
            b >= 1,
    ;
    let s = SynthState::start(cfg, zero);
    assert(s.queue.samples.len() - cfg.fftsize == n);
    let d = 300_000_000_000int;
    let q = a / d;
    vstd::arithmetic::div_mod::lemma_fundamental_div_mod(a, d);
    assert(s.pulse_clock.interval == q);
    assert(q * d <= a < (q + 1) * d);
    let v = 2 * cfg.fs + 2_000_000_000_000;
    assert(s.noise_clock.velvet == v / 4_000_000_000_000);
}

/// One sample without a pulse or a burst of noise: the first sample that is pending leaves, or
/// silence where none is, and the others move up.
pub proof fn lemma_sample_alone<T: Copy, A: Fn(T, T) -> T>(
    s: SynthState<T>,
    pulse: Seq<T>,
    plus: A,
    sample: T,
    next: SynthState<T>,
    j: int,
)
    requires
        s.sounds(pulse, plus, sample, next),
        s.within_impulse(),
        !s.plan.pulse || s.pulse_clock.wait > 0,
        !s.plan.noise || s.noise_clock.position != s.noise_clock.chosen,
        0 <= j < s.queue.samples.len() - 1,
    ensures
        s.queue.pending > 0 ==> sample == s.queue.samples[0] && next.queue.samples[j]
            == s.queue.samples[j + 1] && next.queue.pending == s.queue.pending - 1,
        s.queue.pending == 0 ==> sample == s.zero && next.queue == s.queue,
{
}

/// One sample with a pulse and without a burst of noise: the pulse is added to what is pending,
/// its first sample to the one that leaves.
pub proof fn lemma_sample_with_pulse<T: Copy, A: Fn(T, T) -> T>(
    s: SynthState<T>,
    pulse: Seq<T>,
    plus: A,
    sample: T,
    next: SynthState<T>,
    j: int,
)
    requires
        s.sounds(pulse, plus, sample, next),
        s.within_impulse(),
        s.config.fftsize >= 2,
        pulse.len() == s.config.fftsize,
        s.plan.pulse && s.pulse_clock.wait == 0,
        !s.plan.noise || s.noise_clock.position != s.noise_clock.chosen,
        0 <= j < s.queue.samples.len() - 1,
    ensures
        call_ensures(plus, (s.queue.samples[0], pulse[0]), sample),
        j + 1 < pulse.len() ==> call_ensures(
            plus,
            (s.queue.samples[j + 1], pulse[j + 1]),
            next.queue.samples[j],
        ),
        j + 1 >= pulse.len() ==> next.queue.samples[j] == s.queue.samples[j + 1],
        next.queue.pending == pulse.len() - 1,
{
    let (a, b) = choose|a: QueueState<T>, b: QueueState<T>| #[trigger]
        mixed(s.queue, s.pulse_of(pulse), a, plus) && #[trigger] mixed(
            a,
            s.burst(),
            b,
            plus,
        ) && sample == front(b, s.zero) && next.queue == drained(b, s.zero);
    assert(a.samples[0] == a.samples[0]);
    assert(next.queue.samples[j] == a.samples[j + 1]);
}

/// One sample with a burst of noise and without a pulse: the burst is added to what is pending,
/// its first sample to the one that leaves.
pub proof fn lemma_sample_with_burst<T: Copy, A: Fn(T, T) -> T>(
    s: SynthState<T>,
    pulse: Seq<T>,
    plus: A,
    sample: T,
    next: SynthState<T>,
    j: int,
)
    requires
        s.sounds(pulse, plus, sample, next),
        s.within_impulse(),
        s.config.fftsize >= 2,
        !s.plan.pulse || s.pulse_clock.wait > 0,
        s.plan.noise && s.noise_clock.position == s.noise_clock.chosen,
        0 <= j < s.queue.samples.len() - 1,
    ensures
        call_ensures(plus, (s.queue.samples[0], s.noise_impulse[0]), sample),
        j + 1 < s.noise_impulse.len() ==> call_ensures(
            plus,
            (s.queue.samples[j + 1], s.noise_impulse[j + 1]),
            next.queue.samples[j],
        ),
        j + 1 >= s.noise_impulse.len() ==> next.queue.samples[j] == s.queue.samples[j + 1],
        next.queue.pending == s.noise_impulse.len() - 1,
{
    let (a, b) = choose|a: QueueState<T>, b: QueueState<T>| #[trigger]
        mixed(s.queue, s.pulse_of(pulse), a, plus) && #[trigger] mixed(
            a,
            s.burst(),
            b,
            plus,
        ) && sample == front(b, s.zero) && next.queue == drained(b, s.zero);
    assert(b.samples[0] == b.samples[0]);
    assert(next.queue.samples[j] == b.samples[j + 1]);
}

/// One sample with both: the pulse is added first, then the burst of noise to the sum.
pub proof fn lemma_sample_with_both<T: Copy, A: Fn(T, T) -> T>(
    s: SynthState<T>,
    pulse: Seq<T>,
    plus: A,
    sample: T,
    next: SynthState<T>,
)
    requires
        s.sounds(pulse, plus, sample, next),
        s.within_impulse(),
        s.config.fftsize >= 2,
        pulse.len() == s.config.fftsize,
        s.plan.pulse && s.pulse_clock.wait == 0,
        s.plan.noise && s.noise_clock.position == s.noise_clock.chosen,
    ensures
        exists|sum: T| #[trigger]
            call_ensures(plus, (s.queue.samples[0], pulse[0]), sum) && call_ensures(
                plus,
                (sum, s.noise_impulse[0]),
                sample,
            ),
        next.queue.pending == s.config.fftsize - 1,
{
    let (a, b) = choose|a: QueueState<T>, b: QueueState<T>| #[trigger]
        mixed(s.queue, s.pulse_of(pulse), a, plus) && #[trigger] mixed(
            a,
            s.burst(),
            b,
            plus,
        ) && sample == front(b, s.zero) && next.queue == drained(b, s.zero);
    assert(a.samples[0] == a.samples[0] && b.samples[0] == b.samples[0]);
    assert(call_ensures(plus, (s.queue.samples[0], pulse[0]), a.samples[0]));
}

/// What one sample does to the clocks: each goes on where its sound is on, and stands where it is
/// off. Frame, impulse and configuration stay.
pub proof fn lemma_clocks_run_while_on<T: Copy, A: Fn(T, T) -> T>(
    s: SynthState<T>,
    pulse: Seq<T>,
    plus: A,
    sample: T,
    next: SynthState<T>,
)
    requires
        s.sounds(pulse, plus, sample, next),
    ensures
        !s.plan.pulse ==> next.pulse_clock == s.pulse_clock,
        s.plan.pulse && s.pulse_clock.wait > 0 ==> next.pulse_clock.wait == s.pulse_clock.wait - 1,
        s.plan.pulse ==> next.pulse_clock.interval == s.pulse_clock.interval,
        !s.plan.noise ==> next.noise_clock == s.noise_clock,
        s.plan.noise && 0 <= s.noise_clock.position < u64::MAX && s.noise_clock.position
            != s.noise_clock.velvet - 1 ==> next.noise_clock.position == s.noise_clock.position + 1
            && next.noise_clock.chosen == s.noise_clock.chosen,
        next.plan == s.plan,
        next.noise_impulse == s.noise_impulse,
        next.config == s.config,
        next.zero == s.zero,
{
}

} // verus!
