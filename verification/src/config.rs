//! Configuration of the vocoder. Frequencies are in nanohertz, durations in
//! nanoseconds.

use crate::pitch::MAX_RATE;
use vstd::arithmetic::power2::{is_pow2, pow2};
use vstd::prelude::*;

verus! {

/// One hertz.
pub const HERTZ: u64 = 1_000_000_000;

/// Largest analysis size, in samples.
pub const MAX_FFTSIZE: usize = 0x4000_0000;

/// The least number of samples that spans four periods of `fo_floor`.
pub open spec fn four_periods(fs: int, fo_floor: int) -> int {
    (4 * fs + fo_floor - 1) / fo_floor
}

/// The default analysis size: the least power of two that spans four periods of
/// `fo_floor`, held between 512 and 2048.
pub open spec fn default_size(fs: int, fo_floor: int) -> int {
    let needed = four_periods(fs, fo_floor);
    if needed <= 512 {
        512
    } else if needed <= 1024 {
        1024
    } else {
        2048
    }
}

/// The default analysis size for a sampling rate and a lowest pitch. It keeps the
/// window near a fixed time span across sampling rates.
pub fn default_fftsize(fs: u64, fo_floor: u64) -> (size: usize)
    requires
        fo_floor > 0,
    ensures
        size == default_size(fs as int, fo_floor as int),
        4 * fs <= 512 * fo_floor ==> size == 512,
        512 * fo_floor < 4 * fs <= 1024 * fo_floor ==> size == 1024,
        1024 * fo_floor < 4 * fs ==> size == 2048,
        is_pow2(size as int),
        size <= MAX_FFTSIZE,
{
    let needed: u128 = (4 * fs as u128 + fo_floor as u128 - 1) / fo_floor as u128;
    proof {
        lemma_default_size_exact(fs as int, fo_floor as int);
        vstd::arithmetic::power2::lemma2_to64();
        lemma_is_pow2(9);
        lemma_is_pow2(10);
        lemma_is_pow2(11);
    }
    if needed <= 512 {
        512
    } else if needed <= 1024 {
        1024
    } else {
        2048
    }
}

/// Powers of two are powers of two.
proof fn lemma_is_pow2(e: nat)
    ensures
        is_pow2(pow2(e) as int),
{
    vstd::arithmetic::power::lemma_pow_positive(2, e);
    assert(vstd::arithmetic::power::pow(2, e) == pow2(e));
    vstd::arithmetic::power2::is_pow2_equiv(pow2(e) as int);
}

/// The default size is the least power of two that spans four periods, as far as
/// the limits let it.
pub proof fn lemma_default_size_spans(fs: int, fo_floor: int)
    requires
        fs >= 0,
        fo_floor > 0,
    ensures
        512 <= default_size(fs, fo_floor) <= 2048,
        default_size(fs, fo_floor) < 2048 ==> default_size(fs, fo_floor) * fo_floor >= 4 * fs,
        default_size(fs, fo_floor) > 512 ==> default_size(fs, fo_floor) * fo_floor < 8 * fs + 2
            * fo_floor,
{
    let n = four_periods(fs, fo_floor);
    let a = 4 * fs + fo_floor - 1;
    let size = default_size(fs, fo_floor);
    assert(n * fo_floor <= a < n * fo_floor + fo_floor) by (nonlinear_arith)
        requires
            n == a / fo_floor,
            fo_floor > 0,
    ;
    if size < 2048 {
        assert(size * fo_floor >= n * fo_floor) by (nonlinear_arith)
            requires
                size >= n,
                fo_floor > 0,
        ;
    }
    if size > 512 {
        assert(size * fo_floor < 2 * (n * fo_floor)) by (nonlinear_arith)
            requires
                size < 2 * n,
                fo_floor > 0,
        ;
    }
}

/// The default size is 512 samples where those span four periods of the lowest pitch, 1024
/// where those do and 512 do not, and 2048 otherwise.
pub proof fn lemma_default_size_exact(fs: int, fo_floor: int)
    requires
        fs >= 0,
        fo_floor > 0,
    ensures
        4 * fs <= 512 * fo_floor ==> default_size(fs, fo_floor) == 512,
        512 * fo_floor < 4 * fs <= 1024 * fo_floor ==> default_size(fs, fo_floor) == 1024,
        1024 * fo_floor < 4 * fs ==> default_size(fs, fo_floor) == 2048,
{
    let n = four_periods(fs, fo_floor);
    let a = 4 * fs + fo_floor - 1;
    assert(n <= 512 <==> 4 * fs <= 512 * fo_floor) by (nonlinear_arith)
        requires
            n == a / fo_floor,
            a == 4 * fs + fo_floor - 1,
            fo_floor > 0,
    ;
    assert(n <= 1024 <==> 4 * fs <= 1024 * fo_floor) by (nonlinear_arith)
        requires
            n == a / fo_floor,
            a == 4 * fs + fo_floor - 1,
            fo_floor > 0,
    ;
}

proof fn lemma_pow2_is_even(n: int)
    requires
        is_pow2(n),
        n >= 2,
    ensures
        n % 2 == 0,
{
    vstd::arithmetic::power2::is_pow2_equiv(n);
    let k = choose|k: nat| vstd::arithmetic::power::pow(2, k) == n;
    assert(pow2(k) == n);
    vstd::arithmetic::power2::lemma2_to64();
    if k > 0 {
        vstd::arithmetic::power2::lemma_pow2_unfold(k);
    }
}

/// A period of the lowest pitch takes at most so many samples, and more than one sample less.
pub proof fn lemma_period_max(cfg: Config)
    requires
        cfg.fo_floor > 0,
    ensures
        (cfg.spec_period_max() - 1) * cfg.fo_floor < cfg.fs <= cfg.spec_period_max() * cfg.fo_floor,
{
    let b = cfg.fo_floor as int;
    let a = cfg.fs + b - 1;
    let n = a / b;
    assert((n - 1) * b < cfg.fs && cfg.fs <= n * b) by (nonlinear_arith)
        requires
            n == a / b,
            a == cfg.fs + b - 1,
            b > 0,
    ;
}

/// The bins of a configuration are half its analysis size and one, and those of the default
/// configuration for a sampling rate are as its parts are.
pub proof fn lemma_default_config(fs: u64)
    ensures
        default_config(fs).fs == fs,
        default_config(fs).period == 5_000_000,
        default_config(fs).fo_floor == 71_000_000_000,
        default_config(fs).fo_ceil == 800_000_000_000,
        default_config(fs).fftsize == default_size(fs as int, 71_000_000_000),
        2 * (default_config(fs).numbins - 1) == default_config(fs).fftsize,
{
}

/// Configuration of an analyzer or a synthesizer.
#[derive(Clone, Copy, Debug, PartialEq, Eq, Structural)]
pub struct Config {
    /// Frame period.
    pub period: u64,
    /// Sampling rate.
    pub fs: u64,
    /// Lowest pitch.
    pub fo_floor: u64,
    /// Highest pitch.
    pub fo_ceil: u64,
    /// Analysis size in samples.
    pub fftsize: usize,
    /// Number of frequency bins, half the analysis size and one.
    pub numbins: usize,
}

/// Whether the numbers make a configuration.
pub open spec fn valid(fftsize: usize, fo_floor: u64, fo_ceil: u64, fs: u64) -> bool {
    &&& is_pow2(fftsize as int)
    &&& 2 <= fftsize <= MAX_FFTSIZE
    &&& 0 < fo_floor < fo_ceil
    &&& 2 * fo_ceil < fs <= MAX_RATE
}

/// The configuration of the given numbers.
pub open spec fn config_of(
    period: u64,
    fftsize: usize,
    fo_floor: u64,
    fo_ceil: u64,
    fs: u64,
) -> Config {
    Config { period, fs, fo_floor, fo_ceil, fftsize, numbins: (fftsize / 2 + 1) as usize }
}

/// The default configuration for a sampling rate: a period of 5 ms, pitches from 71
/// to 800 Hz, and an analysis size to match.
pub open spec fn default_config(fs: u64) -> Config {
    config_of(
        5_000_000,
        default_size(fs as int, 71 * HERTZ) as usize,
        (71 * HERTZ) as u64,
        (800 * HERTZ) as u64,
        fs,
    )
}

impl Config {
    /// A power-of-two analysis size and a pitch range below half the sampling rate.
    pub open spec fn ok(&self) -> bool {
        &&& valid(self.fftsize, self.fo_floor, self.fo_ceil, self.fs)
        &&& self.numbins == self.fftsize / 2 + 1
    }

    /// Whether the numbers make a configuration.
    pub fn accepts(fftsize: usize, fo_floor: u64, fo_ceil: u64, fs: u64) -> (yes: bool)
        ensures
            yes == valid(fftsize, fo_floor, fo_ceil, fs),
            yes <==> is_pow2(fftsize as int) && 2 <= fftsize <= 0x4000_0000 && 0 < fo_floor
                && fo_floor < fo_ceil && 2 * fo_ceil < fs && fs <= 9_000_000_000_000_000_000,
    {
        if fftsize < 2 || fftsize > MAX_FFTSIZE {
            return false;
        }
        if fo_floor == 0 || fo_floor >= fo_ceil || fs > MAX_RATE {
            return false;
        }
        power_of_two(fftsize) && 2 * (fo_ceil as u128) < fs as u128
    }

    /// A configuration of the given numbers.
    pub fn new(period: u64, fftsize: usize, fo_floor: u64, fo_ceil: u64, fs: u64) -> (cfg: Self)
        requires
            valid(fftsize, fo_floor, fo_ceil, fs),
        ensures
            cfg.ok(),
            cfg == config_of(period, fftsize, fo_floor, fo_ceil, fs),
            cfg.period == period && cfg.fftsize == fftsize && cfg.fo_floor == fo_floor && cfg.fo_ceil
                == fo_ceil && cfg.fs == fs,
            2 * (cfg.numbins - 1) == fftsize,
    {
        proof {
            lemma_pow2_is_even(fftsize as int);
        }
        Config { period, fs, fo_floor, fo_ceil, fftsize, numbins: fftsize / 2 + 1 }
    }

    /// The default configuration for a sampling rate: a period of 5 ms, pitches
    /// from 71 to 800 Hz, and an analysis size to match.
    pub fn with_defaults(fs: u64) -> (cfg: Self)
        requires
            1600 * HERTZ < fs <= MAX_RATE,
        ensures
            cfg.ok(),
            cfg == default_config(fs),
            cfg.fs == fs,
            cfg.period == 5_000_000,
            cfg.fo_floor == 71_000_000_000,
            cfg.fo_ceil == 800_000_000_000,
    {
        let size: usize = default_fftsize(fs, 71 * HERTZ);
        Config::new(5_000_000, size, 71 * HERTZ, 800 * HERTZ, fs)
    }

    /// Whether a pitch in nanohertz lies in the range of pitches.
    pub fn tracks(&self, fo: u64) -> (yes: bool)
        ensures
            yes == (self.fo_floor <= fo <= self.fo_ceil),
    {
        fo >= self.fo_floor && fo <= self.fo_ceil
    }

    /// The most samples that one period of a tracked pitch takes.
    pub open spec fn spec_period_max(&self) -> int {
        (self.fs + self.fo_floor - 1) / self.fo_floor as int
    }

    /// The most samples that one period of a tracked pitch takes.
    pub fn period_max(&self) -> (n: u64)
        requires
            self.ok(),
        ensures
            n == self.spec_period_max(),
            n <= MAX_RATE,
            (n - 1) * self.fo_floor < self.fs <= n * self.fo_floor,
    {
        proof {
            lemma_period_max(*self);
            let a = self.fs + self.fo_floor - 1;
            let b = self.fo_floor as int;
            assert(a / b <= self.fs) by (nonlinear_arith)
                requires
                    a == self.fs + b - 1,
                    b >= 1,
                    self.fs >= 1,
            ;
        }
        (self.fs + self.fo_floor - 1) / self.fo_floor
    }
}

/// Whether a size is a power of two.
fn power_of_two(n: usize) -> (yes: bool)
    requires
        2 <= n <= MAX_FFTSIZE,
    ensures
        yes == is_pow2(n as int),
{
    let mut p: usize = 1;
    let ghost mut e: nat = 0;
    proof {
        vstd::arithmetic::power2::lemma2_to64();
    }
    while p < n
        invariant
            2 <= n <= MAX_FFTSIZE,
            1 <= p < 2 * n,
            p == pow2(e),
            e > 0 ==> pow2((e - 1) as nat) < n,
        decreases 2 * n - p,
    {
        proof {
            vstd::arithmetic::power2::lemma_pow2_unfold(e + 1);
            e = e + 1;
        }
        p = 2 * p;
    }
    proof {
        lemma_is_pow2(e);
        vstd::arithmetic::power2::is_pow2_equiv(n as int);
        if p != n && is_pow2(n as int) {
            let k = choose|k: nat| vstd::arithmetic::power::pow(2, k) == n as int;
            assert(pow2(k) == n);
            if k < e {
                if k < e - 1 {
                    vstd::arithmetic::power2::lemma_pow2_strictly_increases(k, (e - 1) as nat);
                }
            } else if k > e {
                vstd::arithmetic::power2::lemma_pow2_strictly_increases(e, k);
            }
        }
    }
    p == n
}

} // verus!
