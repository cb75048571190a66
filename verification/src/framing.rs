//! Framing: which input samples begin an analysis frame, and the window of the
//! most recent samples at each of them.

use crate::config::Config;
use crate::ring::CircularBuffer;
use vstd::prelude::*;

verus! {

/// Parts that one sample is counted in: a nanosecond at a nanohertz is one part.
pub const SAMPLE: u128 = 1_000_000_000_000_000_000;

/// The frame length of a configuration, in parts of a sample.
pub open spec fn frame_length(cfg: Config) -> int {
    cfg.period * cfg.fs
}

/// The position within the frame one sample later. Where frames are shorter than a
/// sample the position only ever grows: a frame begins at every sample until the
/// position has reached one sample, and none after.
pub open spec fn next_position(position: int, length: int) -> int {
    if length < SAMPLE {
        position + SAMPLE - length
    } else if position >= length - SAMPLE {
        position - (length - SAMPLE)
    } else {
        position + SAMPLE
    }
}

/// The position within the frame of sample `t`.
pub open spec fn position_at(length: int, t: int) -> int
    decreases t,
{
    if t <= 0 {
        0
    } else {
        next_position(position_at(length, t - 1), length)
    }
}

/// Whether a frame begins at sample `t`.
pub open spec fn begins_frame(length: int, t: int) -> bool {
    position_at(length, t) < SAMPLE
}

/// Emits a window of the most recent samples at each frame boundary.
pub struct Framer<T> {
    framesize: u128,
    position: u128,
    count: Ghost<nat>,
    buffer_in: CircularBuffer<T>,
}

impl<T: Copy> Framer<T> {
    /// The position is the one of the sample to come.
    pub closed spec fn wf(&self) -> bool {
        &&& self.buffer_in.wf()
        &&& self.buffer_in@.len() > 0
        &&& self.position == held_position(position_at(self.framesize as int, self.count@ as int))
        &&& self.framesize >= SAMPLE ==> self.position < self.framesize
    }

    /// The most recent samples, oldest first.
    pub closed spec fn history(&self) -> Seq<T> {
        self.buffer_in@
    }

    /// The frame length in parts of a sample.
    pub closed spec fn length(&self) -> int {
        self.framesize as int
    }

    /// How many samples have been pushed.
    pub closed spec fn pushed(&self) -> nat {
        self.count@
    }

    /// A framer with a history of zeros, one sample longer than the analysis size.
    pub fn new(cfg: &Config, zero: T) -> (framer: Self)
        requires
            cfg.ok(),
        ensures
            framer.wf(),
            framer.length() == frame_length(*cfg),
            framer.length() == cfg.period * cfg.fs,
            framer.pushed() == 0,
            framer.history() == Seq::new((cfg.fftsize + 1) as nat, |i: int| zero),
    {
        let ghost product = cfg.period * cfg.fs;
        assert(0 <= product <= 0xffff_ffff_ffff_ffff * 9_000_000_000_000_000_000)
            by (nonlinear_arith)
            requires
                product == cfg.period * cfg.fs,
                cfg.period <= 0xffff_ffff_ffff_ffff,
                cfg.fs <= 9_000_000_000_000_000_000,
        ;
        Framer {
            framesize: cfg.period as u128 * cfg.fs as u128,
            position: 0,
            count: Ghost(0),
            buffer_in: CircularBuffer::new(cfg.fftsize + 1, zero),
        }
    }

    /// Push one input sample. Where a frame begins, the history including that
    /// sample is copied into `frame_waveform`.
    pub fn next(&mut self, input: T, frame_waveform: &mut [T]) -> (has_new_frame: bool)
        requires
            old(self).wf(),
            old(frame_waveform)@.len() == old(self).history().len(),
        ensures
            final(self).wf(),
            final(self).length() == old(self).length(),
            final(self).pushed() == old(self).pushed() + 1,
            final(self).history() == old(self).history().drop_first().push(input),
            has_new_frame == begins_frame(old(self).length(), old(self).pushed() as int),
            final(frame_waveform)@ == (if has_new_frame {
                final(self).history()
            } else {
                old(frame_waveform)@
            }),
    {
        self.buffer_in.push(input);
        let has_new_frame: bool = self.position < SAMPLE;
        if has_new_frame {
            self.buffer_in.copy_all(frame_waveform);
            assert(frame_waveform@ =~= self.buffer_in@);
        }
        proof {
            lemma_position_nonnegative(self.framesize as int, self.count@ as int);
        }
        if self.framesize < SAMPLE {
            self.position = self.position.saturating_add(SAMPLE - self.framesize);
        } else if self.position >= self.framesize - SAMPLE {
            self.position = self.position - (self.framesize - SAMPLE);
        } else {
            self.position = self.position + SAMPLE;
        }
        self.count = Ghost(self.count@ + 1);
        has_new_frame
    }
}

/// The position as far as it is counted.
pub open spec fn held_position(p: int) -> int {
    if p > u128::MAX { u128::MAX as int } else { p }
}

proof fn lemma_position_nonnegative(length: int, t: int)
    requires
        length >= 0,
    ensures
        0 <= position_at(length, t),
    decreases t,
{
    if t > 0 {
        lemma_position_nonnegative(length, t - 1);
    }
}

/// The position of sample `t` is what whole frames leave of `t` samples.
pub proof fn lemma_position(length: int, t: int)
    requires
        length >= SAMPLE,
        t >= 0,
    ensures
        position_at(length, t) == (t * SAMPLE) % length,
        0 <= position_at(length, t) < length,
    decreases t,
{
    if t > 0 {
        lemma_position(length, t - 1);
        let p = position_at(length, t - 1);
        let q = ((t - 1) * SAMPLE) / length;
        vstd::arithmetic::div_mod::lemma_fundamental_div_mod((t - 1) * SAMPLE, length);
        let now = next_position(p, length);
        if p >= length - SAMPLE {
            assert(t * SAMPLE == (q + 1) * length + now) by (nonlinear_arith)
                requires
                    (t - 1) * SAMPLE == length * q + p,
                    now == p - (length - SAMPLE),
            ;
            vstd::arithmetic::div_mod::lemma_fundamental_div_mod_converse(
                t * SAMPLE,
                length,
                q + 1,
                now,
            );
        } else {
            assert(t * SAMPLE == q * length + now) by (nonlinear_arith)
                requires
                    (t - 1) * SAMPLE == length * q + p,
                    now == p + SAMPLE,
            ;
            vstd::arithmetic::div_mod::lemma_fundamental_div_mod_converse(
                t * SAMPLE,
                length,
                q,
                now,
            );
        }
    } else {
        assert(0 * SAMPLE == 0);
        vstd::arithmetic::div_mod::lemma_small_mod(0, length as nat);
    }
}

/// The sample at which frame `n` begins: `n` frame lengths, rounded up.
pub open spec fn frame_start(length: int, n: int) -> int {
    (n * length + SAMPLE - 1) / (SAMPLE as int)
}

/// Frames lie on an even grid: the frames are those that begin at a whole number
/// of frame lengths, rounded up to a sample.
pub proof fn lemma_frame_grid(length: int, t: int)
    requires
        length >= SAMPLE,
        t >= 0,
    ensures
        begins_frame(length, t) <==> exists|n: int| n >= 0 && #[trigger] frame_start(length, n) == t,
{
    lemma_position(length, t);
    let d = SAMPLE as int;
    if begins_frame(length, t) {
        let n = (t * d) / length;
        vstd::arithmetic::div_mod::lemma_fundamental_div_mod(t * d, length);
        assert(n >= 0) by (nonlinear_arith)
            requires
                n == (t * d) / length,
                t >= 0,
                d > 0,
                length > 0,
        ;
        let a = n * length + d - 1;
        assert(t * d <= a < t * d + d) by (nonlinear_arith)
            requires
                t * d == length * n + position_at(length, t),
                0 <= position_at(length, t) < d,
                a == n * length + d - 1,
        ;
        vstd::arithmetic::div_mod::lemma_fundamental_div_mod_converse(a, d, t, a - t * d);
        assert(frame_start(length, n) == t);
    }
    if exists|n: int| n >= 0 && #[trigger] frame_start(length, n) == t {
        let n = choose|n: int| n >= 0 && #[trigger] frame_start(length, n) == t;
        let a = n * length + d - 1;
        vstd::arithmetic::div_mod::lemma_fundamental_div_mod(a, d);
        let r = t * d - n * length;
        assert(0 <= r < d) by (nonlinear_arith)
            requires
                a == d * t + a % d,
                0 <= a % d < d,
                a == n * length + d - 1,
                r == t * d - n * length,
        ;
        assert(t * d == n * length + r);
        vstd::arithmetic::div_mod::lemma_fundamental_div_mod_converse(t * d, length, n, r);
    }
}

/// How many frames begin among samples 0 to `n - 1`.
pub open spec fn frames_begun(length: int, n: int) -> int
    decreases n,
{
    if n <= 0 {
        0
    } else {
        frames_begun(length, n - 1) + (if begins_frame(length, n - 1) { 1int } else { 0 })
    }
}

/// The first frame, and one more for every frame length that has gone by since the
/// first of `n` samples.
pub open spec fn frames_due(length: int, n: int) -> int {
    if n <= 0 { 0 } else { (n - 1) * SAMPLE / length + 1 }
}

/// Frames begin at the frame rate.
pub proof fn lemma_frames_begun(length: int, n: int)
    requires
        length >= SAMPLE,
        n >= 0,
    ensures
        frames_begun(length, n) == frames_due(length, n),
    decreases n,
{
    let d = SAMPLE as int;
    if n == 1 {
        assert(frames_begun(length, 0) == 0);
        assert(position_at(length, 0) == 0);
        assert(0 * d == 0);
        vstd::arithmetic::div_mod::lemma_small_mod(0, length as nat);
        assert(0int / length == 0) by (nonlinear_arith)
            requires
                length > 0,
        ;
    } else if n > 1 {
        lemma_frames_begun(length, n - 1);
        lemma_position(length, n - 1);
        let a = (n - 2) * d;
        let q = a / length;
        let r = a % length;
        vstd::arithmetic::div_mod::lemma_fundamental_div_mod(a, length);
        assert(0 <= r < length);
        assert((n - 1) * d == a + d) by (nonlinear_arith)
            requires
                a == (n - 2) * d,
        ;
        if r + d < length {
            assert(a + d == q * length + (r + d)) by (nonlinear_arith)
                requires
                    a == length * q + r,
            ;
            vstd::arithmetic::div_mod::lemma_fundamental_div_mod_converse(
                a + d,
                length,
                q,
                r + d,
            );
        } else {
            assert(a + d == (q + 1) * length + (r + d - length)) by (nonlinear_arith)
                requires
                    a == length * q + r,
            ;
            vstd::arithmetic::div_mod::lemma_fundamental_div_mod_converse(
                a + d,
                length,
                q + 1,
                r + d - length,
            );
        }
    }
}

/// Where frames are shorter than a sample, frames begin at the first samples, as long as what
/// the frames fall short of them is less than one sample, and then no more.
pub proof fn lemma_short_frames(length: int, t: int)
    requires
        0 <= length < SAMPLE,
        t >= 0,
    ensures
        position_at(length, t) == t * (SAMPLE - length),
        begins_frame(length, t) <==> t * (SAMPLE - length) < SAMPLE,
    decreases t,
{
    if t > 0 {
        lemma_short_frames(length, t - 1);
        assert(t * (SAMPLE - length) == (t - 1) * (SAMPLE - length) + (SAMPLE - length))
            by (nonlinear_arith);
    } else {
        assert(0 * (SAMPLE - length) == 0);
    }
}

/// A frame begins at a sample when the sample is the first at or after a whole number of frame
/// lengths: when, counted in parts, some multiple of the frame length lies less than one
/// sample before it or on it.
pub proof fn lemma_frame_begins_at_multiple(length: int, t: int, n: int)
    requires
        length >= SAMPLE,
        t >= 0,
        n >= 0,
    ensures
        t * SAMPLE - SAMPLE < n * length <= t * SAMPLE ==> begins_frame(length, t),
        n * length <= t * SAMPLE - SAMPLE && t * SAMPLE < (n + 1) * length ==> !begins_frame(
            length,
            t,
        ),
        begins_frame(length, 0),
{
    lemma_position(length, t);
    let d = SAMPLE as int;
    let x = t * d;
    let p = x % length;
    vstd::arithmetic::div_mod::lemma_fundamental_div_mod(x, length);
    if n * length <= x && x < (n + 1) * length {
        let r = x - n * length;
        assert(r < length) by (nonlinear_arith)
            requires
                x < (n + 1) * length,
                r == x - n * length,
        ;
        vstd::arithmetic::div_mod::lemma_fundamental_div_mod_converse(x, length, n, r);
    }
    if x - d < n * length <= x {
        assert(x < (n + 1) * length) by (nonlinear_arith)
            requires
                x - d < n * length,
                length >= d,
        ;
    }
}

} // verus!
