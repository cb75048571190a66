//! Layout of the band-aperiodicity analysis: its transform size, its frequency
//! bands, and the samples under its windows.

use crate::config::HERTZ;
use crate::num::{lemma_rounded_between, min_of, round_div, rounded_quotient};
use crate::pitch::MAX_RATE;
use vstd::arithmetic::power2::pow2;
use vstd::prelude::*;

verus! {

/// Distance between aperiodicity bands.
pub const BAND_INTERVAL: u64 = 3_000_000_000_000;

/// Lowest pitch of the analysis.
pub const LOWEST_PITCH: u64 = 47_000_000_000;

/// Whether the transform of size `2^(e + 1)` is the one for a sampling rate: it is
/// the least power of two above four periods of the lowest pitch and one sample.
pub open spec fn is_size_exponent(fs: int, e: nat) -> bool {
    &&& LOWEST_PITCH * pow2(e) <= 4 * fs + LOWEST_PITCH
    &&& 4 * fs + LOWEST_PITCH < LOWEST_PITCH * pow2(e + 1)
}

/// The number of bands: those three kilohertz apart that stay three kilohertz away
/// from half the sampling rate, five at most.
pub open spec fn band_count(fs: int) -> int {
    let room = if fs > 2 * BAND_INTERVAL { fs - 2 * BAND_INTERVAL } else { 0 };
    min_of(room / (2 * BAND_INTERVAL), 5)
}

/// The bin in which band `i` is centred.
pub open spec fn band_center(fs: int, fft_size: int, i: int) -> int {
    BAND_INTERVAL * (i + 1) * fft_size / fs
}

/// Half the length of a band's window, in bins.
pub open spec fn half_window(fs: int, fft_size: int) -> int {
    BAND_INTERVAL * fft_size / fs
}

/// The largest bins of a band's spectrum that count as noise.
pub open spec fn noise_boundary(fs: int, fft_size: int) -> int {
    rounded_quotient(8 * fft_size, 2 * half_window(fs, fft_size) + 1)
}

/// Sizes of the band-aperiodicity analysis for a sampling rate.
#[derive(Clone, Copy, Debug, PartialEq, Eq, Structural)]
pub struct D4cLayout {
    pub fs: u64,
    pub fft_size: usize,
    pub bands: usize,
    pub half_window: usize,
    pub boundary: usize,
}

impl D4cLayout {
    /// The sizes are those for the sampling rate.
    pub open spec fn ok(&self) -> bool {
        &&& 2 * HERTZ <= self.fs <= MAX_RATE
        &&& exists|e: nat| #[trigger] is_size_exponent(self.fs as int, e) && self.fft_size == pow2(
            e + 1,
        )
        &&& 2 <= self.fft_size <= 0x8000_0000
        &&& self.bands == band_count(self.fs as int)
        &&& self.half_window == half_window(self.fs as int, self.fft_size as int)
        &&& self.boundary == noise_boundary(self.fs as int, self.fft_size as int)
    }

    /// The layout for a sampling rate.
    pub fn new(fs: u64) -> (layout: Self)
        requires
            2 * HERTZ <= fs <= MAX_RATE,
        ensures
            layout.ok(),
            layout.fs == fs,
            layout.boundary < layout.fft_size / 2,
    {
        let top: u128 = 4 * fs as u128 + LOWEST_PITCH as u128;
        let mut reach: u128 = LOWEST_PITCH as u128;
        let mut size: u64 = 2;
        let ghost mut e: nat = 0;
        proof {
            vstd::arithmetic::power2::lemma2_to64();
            assert(LOWEST_PITCH * 1 == LOWEST_PITCH);
        }
        while 2 * reach <= top
            invariant
                2 * HERTZ <= fs <= MAX_RATE,
                top == 4 * fs + LOWEST_PITCH,
                reach == LOWEST_PITCH * pow2(e),
                size == pow2(e + 1),
                2 <= size,
                size * LOWEST_PITCH == 2 * reach,
                reach >= LOWEST_PITCH,
                reach <= top,
            decreases top - reach,
        {
            proof {
                vstd::arithmetic::power2::lemma_pow2_unfold(e + 1);
                vstd::arithmetic::power2::lemma_pow2_unfold(e + 2);
                e = e + 1;
            }
            reach = 2 * reach;
            size = 2 * size;
        }
        proof {
            vstd::arithmetic::power2::lemma_pow2_unfold(e + 1);
            assert(is_size_exponent(fs as int, e));
        }
        let room: u64 = if fs > 2 * BAND_INTERVAL { fs - 2 * BAND_INTERVAL } else { 0 };
        let many: u64 = room / (2 * BAND_INTERVAL);
        let bands: usize = if many < 5 { many as usize } else { 5 };
        let wide: u128 = BAND_INTERVAL as u128 * size as u128 / fs as u128;
        proof {
            lemma_half_window(fs as int, size as int);
        }
        let half: usize = wide as usize;
        proof {
            let l = 2 * half + 1;
            let x = 8 * size;
            assert(x <= x * l) by (nonlinear_arith)
                requires
                    x >= 0,
                    l >= 1,
            ;
            assert(0 * l == 0);
            lemma_rounded_between(x, l, 0, x);
            lemma_boundary(size as int, half as int);
        }
        let boundary: i128 = round_div(8 * size as i128, 2 * half as i128 + 1);
        D4cLayout {
            fs,
            fft_size: size as usize,
            bands,
            half_window: half,
            boundary: boundary as usize,
        }
    }

    /// The bin in which band `i` is centred.
    pub fn center_of_band(&self, i: usize) -> (bin: usize)
        requires
            self.ok(),
            i < self.bands,
        ensures
            bin == band_center(self.fs as int, self.fft_size as int, i as int),
            self.half_window <= bin,
            bin + self.half_window <= self.fft_size / 2,
    {
        proof {
            lemma_band_window(*self, i as int);
            assert(BAND_INTERVAL * (i + 1) * self.fft_size <= 0x1_0000_0000_0000_0000_0000)
                by (nonlinear_arith)
                requires
                    0 <= i <= 5,
                    0 <= self.fft_size <= 0x8000_0000,
            ;
        }
        let at: u128 = BAND_INTERVAL as u128 * (i as u128 + 1) * self.fft_size as u128
            / self.fs as u128;
        at as usize
    }
}

/// The transform is not huge, and the window of a band is at least 255 bins long on
/// either side.
proof fn lemma_half_window(fs: int, size: int)
    requires
        2 * HERTZ <= fs <= MAX_RATE,
        4 * fs + LOWEST_PITCH < LOWEST_PITCH * size <= 2 * (4 * fs + LOWEST_PITCH),
    ensures
        255 <= half_window(fs, size) <= 4000,
        2 <= size <= 0x8000_0000,
        0 <= BAND_INTERVAL * size <= 0x1_0000_0000_0000_0000_0000,
{
    let x = BAND_INTERVAL * size;
    assert(x >= 255 * fs);
    assert(x <= 4000 * fs);
    assert(255 <= x / fs <= 4000) by (nonlinear_arith)
        requires
            255 * fs <= x <= 4000 * fs,
            fs > 0,
    ;
}

/// The noise boundary leaves room in the half spectrum.
proof fn lemma_boundary(size: int, half: int)
    requires
        size >= 2,
        half >= 255,
    ensures
        0 <= rounded_quotient(8 * size, 2 * half + 1) < size / 2,
{
    let l = 2 * half + 1;
    let b = rounded_quotient(8 * size, l);
    let top = 16 * size + l;
    assert(b == top / (2 * l));
    assert(0 <= b && b * (2 * l) <= top) by (nonlinear_arith)
        requires
            b == top / (2 * l),
            top >= 0,
            l >= 1,
    ;
    if b >= 1 {
        assert(511 * (2 * b - 1) <= 16 * size) by (nonlinear_arith)
            requires
                b * (2 * l) <= 16 * size + l,
                l >= 511,
                b >= 1,
        ;
    }
}

/// The window of every band lies within the half spectrum.
pub proof fn lemma_band_window(layout: D4cLayout, i: int)
    requires
        layout.ok(),
        0 <= i < layout.bands,
    ensures
        layout.half_window <= band_center(layout.fs as int, layout.fft_size as int, i),
        band_center(layout.fs as int, layout.fft_size as int, i) + layout.half_window
            <= layout.fft_size / 2,
{
    let fs = layout.fs as int;
    let n = layout.fft_size as int;
    let x = BAND_INTERVAL * n;
    let y = BAND_INTERVAL * (i + 1) * n;
    let center = band_center(fs, n, i);
    let half = half_window(fs, n);
    assert(x >= 0 && y == x * (i + 1)) by (nonlinear_arith)
        requires
            x == BAND_INTERVAL * n,
            y == BAND_INTERVAL * (i + 1) * n,
            n >= 0,
    ;
    assert(x <= y) by (nonlinear_arith)
        requires
            y == x * (i + 1),
            x >= 0,
            i >= 0,
    ;
    vstd::arithmetic::div_mod::lemma_div_is_ordered(x, y, fs);
    vstd::arithmetic::div_mod::lemma_fundamental_div_mod(x, fs);
    vstd::arithmetic::div_mod::lemma_fundamental_div_mod(y, fs);
    assert(fs * (center + half) <= x + y) by (nonlinear_arith)
        requires
            x == fs * half + x % fs,
            y == fs * center + y % fs,
            x % fs >= 0,
            y % fs >= 0,
    ;
    let room = fs - 2 * BAND_INTERVAL;
    let d = 2 * BAND_INTERVAL;
    assert(fs > d && i + 1 <= room / d);
    assert(d * (i + 1) <= room) by (nonlinear_arith)
        requires
            i + 1 <= room / d,
            d > 0,
    ;
    assert(d * (i + 1) == 2 * BAND_INTERVAL * (i + 1));
    assert(2 * (x + y) <= fs * n) by (nonlinear_arith)
        requires
            y == x * (i + 1),
            x == BAND_INTERVAL * n,
            2 * BAND_INTERVAL * (i + 2) <= fs,
            n >= 0,
    ;
    assert(2 * (center + half) <= n) by (nonlinear_arith)
        requires
            2 * (fs * (center + half)) <= fs * n,
            fs > 0,
    ;
}

// --- windows ----------------------------------------------------------------

/// Half the length in samples of a window of four periods of a pitch.
pub fn half_window_length(fs: u64, fo: u64) -> (half: u64)
    requires
        0 < fo,
        fs <= MAX_RATE,
    ensures
        half == rounded_quotient(2 * fs, fo as int),
        -fo <= 2 * (2 * fs - half * fo) < fo,
{
    proof {
        crate::num::lemma_rounded_quotient(2 * fs, fo as int, 0);
        crate::num::lemma_rounded_bound(2 * fs, fo as int);
    }
    round_div(2 * fs as i128, fo as i128) as u64
}

/// The sample under tap `j` of a window of `2 * half + 1` taps around `center`, held
/// within the waveform.
pub open spec fn tap(center: int, half: int, j: int, len: int) -> int {
    let at = center + j - half;
    if at < 0 {
        0
    } else if at > len - 1 {
        len - 1
    } else {
        at
    }
}

/// Put the samples under a window of `2 * half + 1` taps around `center` into `taps`.
pub fn window_taps<T: Copy>(x: &[T], center: usize, half: usize, taps: &mut Vec<T>)
    requires
        0 < x@.len(),
        center + 2 * half + 1 <= usize::MAX,
    ensures
        final(taps)@ == Seq::new(
            (2 * half + 1) as nat,
            |j: int| x@[tap(center as int, half as int, j, x@.len() as int)],
        ),
{
    let last: usize = x.len() - 1;
    taps.clear();
    let mut j: usize = 0;
    while j < 2 * half + 1
        invariant
            center + 2 * half + 1 <= usize::MAX,
            last == x@.len() - 1,
            j <= 2 * half + 1,
            taps@ == Seq::new(
                j as nat,
                |k: int| x@[tap(center as int, half as int, k, x@.len() as int)],
            ),
        decreases 2 * half + 1 - j,
    {
        let at: usize = if center + j < half {
            0
        } else if center + j - half > last {
            last
        } else {
            center + j - half
        };
        taps.push(x[at]);
        j = j + 1;
    }
}

/// The two samples a quarter period to either side of `center`, held within a
/// waveform of `len` samples.
pub fn quarter_period_centers(fs: u64, fo: u64, center: usize, len: usize) -> (c: (usize, usize))
    requires
        0 < fo,
        fs <= MAX_RATE,
        0 < len,
        center < len,
    ensures
        ({
            let off = rounded_quotient(fs as int, 4 * fo);
            &&& c.0 == tap(center as int, off, 0, len as int)
            &&& c.1 == min_of(center + off, len - 1)
            &&& -(4 * fo) <= 2 * (fs - off * (4 * fo)) < 4 * fo
            &&& center - off >= 0 ==> c.0 == center - off
            &&& center - off < 0 ==> c.0 == 0
            &&& center + off <= len - 1 ==> c.1 == center + off
            &&& center + off > len - 1 ==> c.1 == len - 1
        }),
{
    proof {
        crate::num::lemma_rounded_quotient(fs as int, 4 * fo, 0);
        crate::num::lemma_rounded_bound(fs as int, 4 * fo);
    }
    let off: i128 = round_div(fs as i128, 4 * fo as i128);
    let left: i128 = center as i128 - off;
    let right: i128 = center as i128 + off;
    let last: i128 = len as i128 - 1;
    (
        if left < 0 { 0 } else { left as usize },
        if right > last { len - 1 } else { right as usize },
    )
}

// --- interpolation buckets --------------------------------------------------

/// How many of the first `k` points lie at or below a query.
pub open spec fn points_at_or_below(x: Seq<i64>, q: i64, k: int) -> int
    decreases k,
{
    if k <= 0 {
        0
    } else {
        points_at_or_below(x, q, k - 1) + (if x[k - 1] <= q { 1int } else { 0 })
    }
}

/// The upper end of the interval between points that a query is interpolated in;
/// queries beyond the points use the interval at that end.
pub open spec fn bucket(x: Seq<i64>, q: i64) -> int {
    let n = points_at_or_below(x, q, x.len() as int);
    if n < 1 {
        1
    } else if n > x.len() - 1 {
        x.len() - 1
    } else {
        n
    }
}

/// Whether each value is larger than those before it.
pub open spec fn increasing(x: Seq<i64>) -> bool {
    forall|i: int, j: int| 0 <= i < j < x.len() ==> x[i] < x[j]
}

/// Whether no value is smaller than one before it.
pub open spec fn non_decreasing(x: Seq<i64>) -> bool {
    forall|i: int, j: int| 0 <= i <= j < x.len() ==> x[i] <= x[j]
}

/// Among increasing points, those at or below a query come first.
proof fn lemma_points_at_or_below(x: Seq<i64>, q: i64, k: int, c: int)
    requires
        increasing(x),
        0 <= c <= k <= x.len(),
        c > 0 ==> x[c - 1] <= q,
        c < k ==> q < x[c],
    ensures
        points_at_or_below(x, q, k) == c,
    decreases k,
{
    if k > 0 {
        if c == k {
            if c > 1 {
                assert(x[c - 2] < x[c - 1]);
            }
            lemma_points_at_or_below(x, q, k - 1, c - 1);
        } else {
            if c < k - 1 {
                assert(x[c] < x[k - 1]);
            }
            lemma_points_at_or_below(x, q, k - 1, c);
        }
    }
}

/// The interval for a query holds it, unless the query lies beyond the points.
pub proof fn lemma_bucket(x: Seq<i64>, q: i64)
    requires
        increasing(x),
        x.len() >= 2,
    ensures
        1 <= bucket(x, q) <= x.len() - 1,
        x[0] <= q < x[x.len() - 1] ==> x[bucket(x, q) - 1] <= q < x[bucket(x, q)],
        q < x[0] ==> bucket(x, q) == 1,
        q >= x[x.len() - 1] ==> bucket(x, q) == x.len() - 1,
{
    let n = x.len() as int;
    if q < x[0] {
        lemma_points_at_or_below(x, q, n, 0);
    } else if q >= x[n - 1] {
        lemma_points_at_or_below(x, q, n, n);
    } else {
        let c = find_split(x, q, 0, n - 1);
        lemma_points_at_or_below(x, q, n, c);
    }
}

proof fn find_split(x: Seq<i64>, q: i64, lo: int, hi: int) -> (c: int)
    requires
        0 <= lo < hi < x.len(),
        x[lo] <= q < x[hi],
    ensures
        lo < c <= hi,
        x[c - 1] <= q < x[c],
    decreases hi - lo,
{
    if x[lo + 1] <= q {
        find_split(x, q, lo + 1, hi)
    } else {
        lo + 1
    }
}

/// The interpolation interval of every query, the queries being in order.
pub fn buckets(x: &[i64], xi: &[i64]) -> (k: Vec<usize>)
    requires
        2 <= x@.len(),
        increasing(x@),
        non_decreasing(xi@),
    ensures
        k@.len() == xi@.len(),
        forall|i: int| 0 <= i < xi@.len() ==> #[trigger] k@[i] == bucket(x@, xi@[i]),
{
    let n: usize = x.len();
    let mut k: Vec<usize> = Vec::with_capacity(xi.len());
    let mut count: usize = 1;
    let mut i: usize = 0;
    while i < xi.len()
        invariant
            n == x@.len(),
            2 <= n,
            increasing(x@),
            non_decreasing(xi@),
            1 <= count <= n - 1,
            i <= xi@.len(),
            k@.len() == i,
            count > 1 && i < xi@.len() ==> x@[count - 1] <= xi@[i as int],
            forall|j: int| 0 <= j < i ==> #[trigger] k@[j] == bucket(x@, xi@[j]),
        decreases xi@.len() - i,
    {
        let q: i64 = xi[i];
        while count < n - 1 && x[count] <= q
            invariant
                n == x@.len(),
                2 <= n,
                1 <= count <= n - 1,
                count > 1 ==> x@[count - 1] <= q,
            decreases n - count,
        {
            count = count + 1;
        }
        proof {
            if q < x@[0] {
                lemma_points_at_or_below(x@, q, n as int, 0);
                if count > 1 {
                    assert(x@[0] < x@[count - 1]);
                }
            } else if x@[count as int] <= q {
                lemma_points_at_or_below(x@, q, n as int, n as int);
            } else {
                lemma_points_at_or_below(x@, q, n as int, count as int);
            }
            if i + 1 < xi@.len() {
                assert(xi@[i as int] <= xi@[i + 1]);
            }
        }
        k.push(count);
        i = i + 1;
    }
    k
}

// --- laws -------------------------------------------------------------------

/// How a layout follows from the sampling rate. The transform is the least power of two above four
/// periods of 47 Hz and one sample. There are as many bands three kilohertz apart as have three
/// kilohertz above them up to half the sampling rate, and five at most. The window of a band reaches
/// three kilohertz to either side, down to a bin. Noise is the nearest number of bins to eight
/// transforms over the window's length.
pub proof fn lemma_layout(layout: D4cLayout, i: int)
    requires
        layout.ok(),
        0 <= i,
    ensures
        ({
            let fs = layout.fs as int;
            let n = layout.fft_size as int;
            let w = 2 * layout.half_window + 1;
            &&& exists|e: nat| n == #[trigger] pow2(e)
            &&& 47_000_000_000 * n > 4 * fs + 47_000_000_000
            &&& 47_000_000_000 * n <= 2 * (4 * fs + 47_000_000_000)
            &&& i < layout.bands <==> i < 5 && 6_000_000_000_000 * (i + 2) <= fs
            &&& layout.half_window * fs <= 3_000_000_000_000 * n < (layout.half_window + 1) * fs
            &&& -w <= 2 * (8 * n - layout.boundary * w) < w
        }),
{
    let fs = layout.fs as int;
    let n = layout.fft_size as int;
    let e = choose|e: nat| #[trigger] is_size_exponent(fs, e) && n == pow2(e + 1);
    vstd::arithmetic::power2::lemma_pow2_unfold(e + 1);
    assert(n == pow2(e + 1));
    let x = BAND_INTERVAL * n;
    let h = x / fs;
    vstd::arithmetic::div_mod::lemma_fundamental_div_mod(x, fs);
    assert(h * fs <= x < (h + 1) * fs) by (nonlinear_arith)
        requires
            x == fs * h + x % fs,
            0 <= x % fs < fs,
    ;
    crate::num::lemma_rounded_quotient(8 * n, 2 * layout.half_window + 1, 0);
    let room = if fs > 2 * BAND_INTERVAL { fs - 2 * BAND_INTERVAL } else { 0 };
    let d = 2 * BAND_INTERVAL;
    assert(i < room / d <==> (i + 1) * d <= room) by (nonlinear_arith)
        requires
            d > 0,
    ;
    assert((i + 1) * d == 6_000_000_000_000 * (i + 1));
}

/// A band is centred in the bin at or just below its frequency, a multiple of three kilohertz.
pub proof fn lemma_band_center(fs: int, fft_size: int, i: int)
    requires
        fs > 0,
    ensures
        band_center(fs, fft_size, i) * fs <= 3_000_000_000_000 * (i + 1) * fft_size < (band_center(
            fs,
            fft_size,
            i,
        ) + 1) * fs,
{
    let x = BAND_INTERVAL * (i + 1) * fft_size;
    let q = x / fs;
    vstd::arithmetic::div_mod::lemma_fundamental_div_mod(x, fs);
    assert(q * fs <= x < (q + 1) * fs) by (nonlinear_arith)
        requires
            x == fs * q + x % fs,
            0 <= x % fs < fs,
    ;
}

/// A window stands evenly around its centre: its middle tap is the centre, and taps as far to one
/// side as to the other lie as far from it, as long as the waveform reaches; beyond its ends the
/// samples there stand.
pub proof fn lemma_taps_around_center(center: int, half: int, k: int, len: int)
    requires
        0 <= center < len,
        0 <= k <= half,
    ensures
        tap(center, half, half, len) == center,
        center + k < len ==> tap(center, half, half + k, len) == center + k,
        center - k >= 0 ==> tap(center, half, half - k, len) == center - k,
        center + k >= len ==> tap(center, half, half + k, len) == len - 1,
        center - k < 0 ==> tap(center, half, half - k, len) == 0,
{
}

} // verus!
