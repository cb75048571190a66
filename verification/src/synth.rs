//! Scheduling of the synthesizer: when a pulse or a burst of velvet noise is due,
//! and the overlap-add of their impulses.
//!
//! The impulses themselves are computed by the caller; everything that decides
//! when and where they sound is here.

use crate::buffer::{copy_into, filled};
use crate::config::{default_config, Config, HERTZ};
use crate::pitch::MAX_RATE;
use crate::ring::CircularQueue;
use crate::rng::{seed, stepped, Xorshift};
use crate::sounding::SynthState;
use vstd::prelude::*;

verus! {

/// Parts that one sample is counted in by the pulse clock.
pub const TICK: u128 = 0x10_0000_0000_0000;

// --- pulses -----------------------------------------------------------------

/// When pulses sound: the distance between them, the whole samples until the next
/// one, and the fraction of a sample by which it comes later.
#[derive(Clone, Copy, Debug, PartialEq, Eq, Structural)]
pub struct PulseClock {
    pub interval: u128,
    pub wait: u128,
    pub frac: u64,
}

impl PulseClock {
    /// The fraction is less than a sample, the interval at least one.
    pub open spec fn ok(&self) -> bool {
        &&& self.frac < TICK
        &&& TICK <= self.interval <= 0x10_0000_0000_0000_0000_0000_0000_0000
        &&& self.wait <= 0x1_0000_0000_0000_0000_0000
    }

    /// The clock one sample later: where a pulse was due, the next one is an
    /// interval away.
    pub open spec fn ticked(self) -> PulseClock {
        if self.wait == 0 {
            let next = self.frac + self.interval;
            PulseClock {
                wait: (next / (TICK as int) - 1) as u128,
                frac: (next % (TICK as int)) as u64,
                ..self
            }
        } else {
            PulseClock { wait: (self.wait - 1) as u128, ..self }
        }
    }

    /// Go on by one sample.
    pub fn tick(&mut self)
        requires
            old(self).ok(),
        ensures
            *final(self) == old(self).ticked(),
            final(self).ok(),
    {
        if self.wait == 0 {
            let next: u128 = self.frac as u128 + self.interval;
            self.wait = next / TICK - 1;
            self.frac = (next % TICK) as u64;
        } else {
            self.wait = self.wait - 1;
        }
    }

    /// The clock `n` samples later.
    pub open spec fn after(self, n: int) -> PulseClock
        decreases n,
    {
        if n <= 0 {
            self
        } else {
            self.after(n - 1).ticked()
        }
    }
}

proof fn lemma_after_keeps(c: PulseClock, n: int)
    requires
        c.ok(),
        n >= 0,
    ensures
        c.after(n).ok(),
        c.after(n).interval == c.interval,
    decreases n,
{
    if n > 0 {
        lemma_after_keeps(c, n - 1);
    }
}

proof fn lemma_after_adds(c: PulseClock, m: int, n: int)
    requires
        m >= 0,
        n >= 0,
    ensures
        c.after(m + n) == c.after(m).after(n),
    decreases n,
{
    if n > 0 {
        lemma_after_adds(c, m, n - 1);
    }
}

proof fn lemma_waits_out(c: PulseClock, n: int)
    requires
        0 <= n <= c.wait,
    ensures
        c.after(n) == (PulseClock { wait: (c.wait - n) as u128, ..c }),
    decreases n,
{
    if n > 0 {
        lemma_waits_out(c, n - 1);
    }
}

/// Pulses lie on an even grid: from a pulse with fraction `frac`, the `k`-th one
/// after it sounds at `k` intervals, its whole samples counted off and its
/// fraction kept.
pub proof fn lemma_pulse_grid(c: PulseClock, k: int)
    requires
        c.ok(),
        c.wait == 0,
        k >= 0,
    ensures
        ({
            let at = c.frac + k * c.interval;
            &&& at / (TICK as int) >= 0
            &&& c.after(at / (TICK as int)).wait == 0
            &&& c.after(at / (TICK as int)).frac == at % (TICK as int)
        }),
    decreases k,
{
    let d = TICK as int;
    let at = c.frac + k * c.interval;
    if k > 0 {
        let before = c.frac + (k - 1) * c.interval;
        lemma_pulse_grid(c, k - 1);
        let t0 = before / d;
        lemma_after_keeps(c, t0);
        let here = c.after(t0);
        let now = here.ticked();
        let next = here.frac + here.interval;
        assert(at == before + c.interval) by (nonlinear_arith)
            requires
                at == c.frac + k * c.interval,
                before == c.frac + (k - 1) * c.interval,
        ;
        assert(before == d * t0 + before % d) by {
            vstd::arithmetic::div_mod::lemma_fundamental_div_mod(before, d);
        }
        assert(at == d * t0 + next);
        vstd::arithmetic::div_mod::lemma_fundamental_div_mod(next, d);
        let whole = next / d;
        assert(at == d * (t0 + whole) + next % d) by (nonlinear_arith)
            requires
                at == d * t0 + next,
                next == d * whole + next % d,
        ;
        assert(0 <= next % d < d);
        vstd::arithmetic::div_mod::lemma_fundamental_div_mod_converse(
            at,
            d,
            t0 + whole,
            next % d,
        );
        assert(whole >= 1);
        assert(now.wait == whole - 1);
        lemma_waits_out(now, whole - 1);
        assert(here.after(1) == now) by {
            assert(here.after(0) == here);
        }
        lemma_after_adds(here, 1, whole - 1);
        lemma_after_adds(c, t0, whole);
    } else {
        assert(0 * c.interval == 0);
        assert(at / d == 0 && at % d == c.frac);
    }
}

// --- velvet noise -----------------------------------------------------------

/// When bursts of noise sound: once in every `velvet` samples, at a random one.
pub struct NoiseClock {
    velvet: u64,
    chosen: u64,
    position: u64,
    random: Xorshift,
}

/// What a noise clock shows.
#[verifier::ext_equal]
pub struct NoiseState {
    pub velvet: int,
    pub chosen: int,
    pub position: int,
    pub register: Seq<u32>,
}

impl NoiseState {
    /// Whether a burst is due.
    pub open spec fn due(self) -> bool {
        self.position == self.chosen
    }

    /// One sample later. At the end of each stretch a new sample is chosen for the
    /// next one.
    pub open spec fn ticked(self) -> NoiseState {
        if self.position == self.velvet - 1 {
            let register = stepped(self.register);
            NoiseState {
                chosen: register[0] * (self.velvet - 1) / u32::MAX as int,
                position: 1,
                register,
                ..self
            }
        } else {
            NoiseState {
                position: if self.position < u64::MAX {
                    self.position + 1
                } else {
                    self.position
                },
                ..self
            }
        }
    }
}

impl NoiseClock {
    /// What the clock shows.
    pub closed spec fn view(&self) -> NoiseState {
        NoiseState {
            velvet: self.velvet as int,
            chosen: self.chosen as int,
            position: self.position as int,
            register: self.random@,
        }
    }

    /// The stretch is not empty.
    pub closed spec fn wf(&self) -> bool {
        self.velvet >= 1
    }

    /// A clock that sounds once in every `velvet` samples.
    pub fn new(velvet: u64) -> (clock: Self)
        requires
            velvet >= 1,
        ensures
            clock.wf(),
            clock@ == (NoiseState {
                velvet: velvet as int,
                chosen: 0,
                position: 0,
                register: seed(),
            }),
    {
        NoiseClock { velvet, chosen: 0, position: 0, random: Xorshift::new() }
    }

    /// Whether a burst is due.
    pub fn due(&self) -> (yes: bool)
        ensures
            yes == self@.due(),
    {
        self.position == self.chosen
    }

    /// Go on by one sample.
    pub fn tick(&mut self)
        requires
            old(self).wf(),
        ensures
            final(self).wf(),
            final(self)@ == old(self)@.ticked(),
    {
        if self.position == self.velvet - 1 {
            self.chosen = self.random.below_or_at(self.velvet - 1);
            self.position = 1;
        } else if self.position < u64::MAX {
            self.position = self.position + 1;
        }
    }
}

// --- the synthesizer --------------------------------------------------------

/// The samples of a queue, next one first, and how many of them are pending.
#[verifier::ext_equal]
pub struct QueueState<T> {
    pub samples: Seq<T>,
    pub pending: nat,
}

/// Whether adding `impulse`, where there is one, turns one queue into another.
pub open spec fn mixed<T: Copy, A: Fn(T, T) -> T>(
    before: QueueState<T>,
    impulse: Option<Seq<T>>,
    after: QueueState<T>,
    plus: A,
) -> bool {
    match impulse {
        None => after == before,
        Some(s) => {
            &&& CircularQueue::<T>::overlapped(before.samples, s, after.samples, plus)
            &&& after.pending == (if s.len() > before.pending { s.len() } else { before.pending })
        },
    }
}

/// The queue after its next sample has left.
pub open spec fn drained<T>(q: QueueState<T>, zero: T) -> QueueState<T> {
    if q.pending == 0 {
        q
    } else {
        QueueState {
            samples: q.samples.drop_first().push(zero),
            pending: (q.pending - 1) as nat,
        }
    }
}

/// The next sample of a queue.
pub open spec fn front<T>(q: QueueState<T>, zero: T) -> T {
    if q.pending == 0 { zero } else { q.samples[0] }
}

/// What a frame asks the caller to compute.
#[derive(Clone, Copy, Debug, PartialEq, Eq, Structural)]
pub struct FramePlan {
    /// The pulse spectrum, for pulses an interval apart.
    pub pulse: bool,
    /// The noise spectrum and its impulse.
    pub noise: bool,
}

/// Whether a frame has pulses: some voicing strength, no silence, and a pitch in
/// the range.
pub open spec fn frame_has_pulse(cfg: Config, fo: u64, strength: i64, silence: bool) -> bool {
    strength > 0 && !silence && cfg.fo_floor <= fo <= cfg.fo_ceil
}

/// Pulse and velvet-noise overlap-add from per-frame parameters. One frame's
/// parameters go in per frame boundary, one output sample comes out per input
/// sample.
pub struct Synthesizer<T> {
    cfg: Config,
    has_pulse: bool,
    has_noise: bool,
    clock: PulseClock,
    noise: NoiseClock,
    impulse_noise: Vec<T>,
    buffer: CircularQueue<T>,
}

impl<T: Copy> Synthesizer<T> {
    /// The clocks are in order, and the queue has room for an impulse and holds no
    /// more than one.
    pub closed spec fn wf(&self) -> bool {
        &&& self.cfg.ok()
        &&& self.clock.frac < TICK
        &&& self.clock.wait <= 0x1_0000_0000_0000_0000_0000
        &&& self.has_pulse ==> self.clock.ok()
        &&& self.noise.wf()
        &&& self.impulse_noise@.len() == self.cfg.fftsize
        &&& self.buffer.wf()
        &&& self.buffer@.len() >= self.cfg.fftsize
        &&& self.buffer.pending() <= self.cfg.fftsize
    }

    /// The configuration.
    pub closed spec fn config(&self) -> Config {
        self.cfg
    }

    /// What the current frame sounds with.
    pub closed spec fn plan(&self) -> FramePlan {
        FramePlan { pulse: self.has_pulse, noise: self.has_noise }
    }

    /// The pulse clock.
    pub closed spec fn pulse_clock(&self) -> PulseClock {
        self.clock
    }

    /// The noise clock.
    pub closed spec fn noise_clock(&self) -> NoiseState {
        self.noise@
    }

    /// The impulse of a noise burst.
    pub closed spec fn noise_impulse(&self) -> Seq<T> {
        self.impulse_noise@
    }

    /// The output that is still to come.
    pub closed spec fn queue(&self) -> QueueState<T> {
        QueueState { samples: self.buffer@, pending: self.buffer.pending() }
    }

    /// The silent sample.
    pub closed spec fn zero(&self) -> T {
        self.buffer.silence()
    }

    /// What the synthesizer is about to sound.
    pub open spec fn state(&self) -> SynthState<T> {
        SynthState {
            config: self.config(),
            plan: self.plan(),
            pulse_clock: self.pulse_clock(),
            noise_clock: self.noise_clock(),
            noise_impulse: self.noise_impulse(),
            queue: self.queue(),
            zero: self.zero(),
        }
    }

    /// Whether nothing sounds and nothing is pending.
    pub open spec fn quiet(&self) -> bool {
        self.state().quiet()
    }

    /// No more is pending than one impulse.
    pub proof fn lemma_state(&self)
        requires
            self.wf(),
        ensures
            self.state().within_impulse(),
    {
    }

    /// A synthesizer that has seen no frame yet.
    pub fn new(cfg: &Config, zero: T) -> (s: Self)
        requires
            cfg.ok(),
            cfg.fs >= 1000 * HERTZ,
            cfg.spec_period_max() + cfg.fftsize <= usize::MAX,
        ensures
            s.wf(),
            s.state() == SynthState::start(*cfg, zero),
            s.quiet(),
    {
        let velvet: u128 = (2 * cfg.fs as u128 + 2000 * HERTZ as u128) / (4000 * HERTZ as u128);
        let capacity: usize = cfg.period_max() as usize + cfg.fftsize;
        Synthesizer {
            cfg: *cfg,
            has_pulse: false,
            has_noise: false,
            clock: PulseClock {
                interval: cfg.fs as u128 * TICK / (300 * HERTZ as u128),
                wait: 0,
                frac: 0,
            },
            noise: NoiseClock::new(velvet as u64),
            impulse_noise: filled(cfg.fftsize, zero),
            buffer: CircularQueue::new(capacity, zero),
        }
    }

    /// A synthesizer with the default configuration for a sampling rate, see
    /// `Config::with_defaults`.
    pub fn with_defaults(fs: u64, zero: T) -> (s: Self)
        requires
            1600 * HERTZ < fs <= MAX_RATE,
        ensures
            s.wf(),
            s.state() == SynthState::start(default_config(fs), zero),
            s.quiet(),
    {
        let cfg = Config::with_defaults(fs);
        proof {
            let a = cfg.fs + cfg.fo_floor - 1;
            assert(a / (71 * HERTZ as int) <= 200_000_000);
        }
        Synthesizer::new(&cfg, zero)
    }

    /// Supply the next frame: its pitch in nanohertz, whether it is voiced, and
    /// whether it is silence.
    pub fn push_frame(&mut self, fo: u64, voiced: bool, silence: bool) -> (plan: FramePlan)
        requires
            old(self).wf(),
        ensures
            final(self).wf(),
            plan == final(self).plan(),
            final(self).state() == old(self).state().framed(
                fo,
                if voiced { 1 } else { 0 },
                silence,
            ),
            silence && old(self).quiet() ==> final(self).quiet(),
    {
        self.push_frame_with_strength(fo, if voiced { 1 } else { 0 }, silence)
    }

    /// Like `push_frame`, with a voicing strength given by its rank. Pulses need
    /// some strength; what share of the energy they get is the caller's.
    pub fn push_frame_with_strength(&mut self, fo: u64, strength: i64, silence: bool) -> (plan:
        FramePlan)
        requires
            old(self).wf(),
        ensures
            final(self).wf(),
            plan == final(self).plan(),
            final(self).state() == old(self).state().framed(fo, strength, silence),
            silence && old(self).quiet() ==> final(self).quiet(),
    {
        self.has_pulse = strength > 0 && !silence && fo >= self.cfg.fo_floor && fo
            <= self.cfg.fo_ceil;
        if self.has_pulse {
            proof {
                let a = self.cfg.fs * TICK;
                let b = fo as int;
                assert(TICK <= a / b <= a) by (nonlinear_arith)
                    requires
                        a == self.cfg.fs * TICK,
                        self.cfg.fs > b,
                        b >= 1,
                ;
            }
            self.clock.interval = self.cfg.fs as u128 * TICK / fo as u128;
        }
        self.has_noise = !silence;
        FramePlan { pulse: self.has_pulse, noise: self.has_noise }
    }

    /// Supply the impulse of the noise bursts of the current frame.
    pub fn load_noise(&mut self, impulse: &[T])
        requires
            old(self).wf(),
            impulse@.len() == old(self).config().fftsize,
        ensures
            final(self).wf(),
            final(self).state() == old(self).state().loaded(impulse@),
    {
        copy_into(&mut self.impulse_noise, impulse);
    }

    /// Where the next sample begins a pulse, the fraction of a sample by which the
    /// pulse comes later, in parts of `TICK`.
    pub fn pulse_due(&self) -> (shift: Option<u64>)
        ensures
            shift is Some <==> self.state().starts_pulse(),
            shift matches Some(f) ==> f == self.pulse_clock().frac,
    {
        if self.has_pulse && self.clock.wait == 0 {
            Some(self.clock.frac)
        } else {
            None
        }
    }

    /// Produce one output sample: a pulse that is due is mixed in, then a burst of
    /// noise that is due, then the next sample leaves. `pulse` is the impulse of the
    /// pulse, `plus` the addition of samples.
    pub fn next_sample<A: Fn(T, T) -> T>(&mut self, pulse: &[T], plus: A) -> (sample: T)
        requires
            old(self).wf(),
            old(self).state().starts_pulse() ==> pulse@.len() == old(self).config().fftsize,
            forall|a: T, b: T| call_requires(plus, (a, b)),
        ensures
            final(self).wf(),
            old(self).state().sounds(pulse@, plus, sample, final(self).state()),
            old(self).quiet() ==> sample == old(self).zero() && final(self).quiet(),
    {
        proof {
            self.buffer.lemma_pending();
        }
        let ghost q0 = self.queue();
        let due: bool = self.has_pulse && self.clock.wait == 0;
        if due {
            self.buffer.push_additive(pulse, &plus);
        }
        if self.has_pulse {
            self.clock.tick();
        }
        proof {
            self.buffer.lemma_pending();
        }
        let ghost q1 = self.queue();
        let burst: bool = self.has_noise && self.noise.due();
        if burst {
            self.buffer.push_additive(self.impulse_noise.as_slice(), &plus);
        }
        if self.has_noise {
            self.noise.tick();
        }
        let ghost q2 = self.queue();
        let sample: T = self.buffer.pop();
        proof {
            let before = old(self).state();
            assert(mixed(before.queue, before.pulse_of(pulse@), q1, plus));
            assert(mixed(q1, before.burst(), q2, plus));
            assert(sample == front(q2, before.zero));
            assert(self.state().queue == drained(q2, before.zero));
            assert(before.sounds(pulse@, plus, sample, self.state()));
        }
        sample
    }
}

// --- laws of the noise clock ------------------------------------------------

impl NoiseState {
    /// The clock `n` samples later.
    pub open spec fn after(self, n: int) -> NoiseState
        decreases n,
    {
        if n <= 0 {
            self
        } else {
            self.after(n - 1).ticked()
        }
    }
}

/// Within a stretch of noise the sample that was chosen stays, and a burst is due at that sample
/// and at no other.
pub proof fn lemma_one_burst_in_a_stretch(c: NoiseState, n: int)
    requires
        2 <= c.velvet <= u64::MAX,
        c.position == 1,
        0 <= n <= c.velvet - 2,
    ensures
        c.after(n).position == 1 + n,
        c.after(n).chosen == c.chosen,
        c.after(n).register == c.register,
        c.after(n).velvet == c.velvet,
        c.after(n).due() <==> 1 + n == c.chosen,
    decreases n,
{
    if n > 0 {
        lemma_one_burst_in_a_stretch(c, n - 1);
    }
}

/// A stretch has one sample less than `velvet`; at its end the generator is stepped once, and
/// the sample of the next burst is its number, scaled from the full range of numbers to that of
/// samples and rounded down.
pub proof fn lemma_next_stretch(c: NoiseState)
    requires
        2 <= c.velvet <= u64::MAX,
        c.position == 1,
        c.register.len() == 4,
    ensures
        ({
            let d = c.after(c.velvet - 1);
            &&& d.position == 1
            &&& d.velvet == c.velvet
            &&& d.register == stepped(c.register)
            &&& 0 <= d.chosen <= c.velvet - 1
            &&& d.chosen * 0xffff_ffff <= d.register[0] * (c.velvet - 1) < (d.chosen + 1)
                * 0xffff_ffff
        }),
{
    lemma_one_burst_in_a_stretch(c, c.velvet - 2);
    let r = stepped(c.register)[0];
    let x = r * (c.velvet - 1);
    assert(0 <= x <= 0xffff_ffff * (c.velvet - 1)) by (nonlinear_arith)
        requires
            x == r * (c.velvet - 1),
            0 <= r <= 0xffff_ffff,
            c.velvet >= 1,
    ;
}

/// The first burst is due at the first sample, and the first stretch begins at the second.
pub proof fn lemma_first_burst(velvet: int, register: Seq<u32>)
    requires
        2 <= velvet,
    ensures
        ({
            let c = NoiseState { velvet, chosen: 0, position: 0, register };
            c.due() && c.after(1) == (NoiseState { position: 1, ..c })
        }),
{
    let c = NoiseState { velvet, chosen: 0, position: 0, register };
    assert(c.after(0) == c);
}

/// Pulses wait out whole samples: a clock that waits counts one sample less with every sample,
/// and one that does not sets out for the next pulse, an interval after this one.
pub proof fn lemma_pulse_clock(c: PulseClock)
    requires
        c.ok(),
    ensures
        c.wait > 0 ==> c.ticked().wait == c.wait - 1 && c.ticked().frac == c.frac,
        c.wait == 0 ==> (c.ticked().wait + 1) * 0x10_0000_0000_0000 + c.ticked().frac == c.frac
            + c.interval && c.ticked().frac < 0x10_0000_0000_0000,
        c.ticked().interval == c.interval,
{
    let next = c.frac + c.interval;
    vstd::arithmetic::div_mod::lemma_fundamental_div_mod(next, TICK as int);
}

/// One sample of the noise clock: at the end of a stretch it begins the next, with another sample chosen;
/// anywhere else it moves on, and stands still at the last sample that it can count.
pub proof fn lemma_noise_clock(c: NoiseState)
    ensures
        c.position == c.velvet - 1 ==> c.ticked().position == 1 && c.ticked().register == stepped(
            c.register,
        ),
        c.position != c.velvet - 1 ==> c.ticked().chosen == c.chosen && c.ticked().register
            == c.register,
        c.position != c.velvet - 1 && c.position < u64::MAX ==> c.ticked().position == c.position
            + 1,
        c.position != c.velvet - 1 && c.position >= u64::MAX ==> c.ticked().position == c.position,
        c.ticked().velvet == c.velvet,
        c.due() <==> c.position == c.chosen,
{
}

} // verus!
