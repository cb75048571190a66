//! Weighted smoothing and autocorrelation of fixed-point tracks.

use crate::contour::{bounded, MAX_FRAMES};
use crate::num::{lemma_rounded_between, min_of, round_div, rounded_quotient};
use vstd::prelude::*;

verus! {

/// A symmetric-length smoothing kernel of `2 * radius + 1` integer weights.
pub struct Kernel {
    weights: Vec<u32>,
    total: u64,
}

/// The sum of the first `k` weights.
pub open spec fn weight_sum(weights: Seq<u32>, k: int) -> int
    decreases k,
{
    if k <= 0 {
        0
    } else {
        weight_sum(weights, k - 1) + weights[k - 1]
    }
}

proof fn lemma_weight_sum_bound(weights: Seq<u32>, k: int)
    requires
        0 <= k <= weights.len(),
    ensures
        0 <= weight_sum(weights, k) <= k * 0xffff_ffff,
    decreases k,
{
    if k > 0 {
        lemma_weight_sum_bound(weights, k - 1);
    }
}

impl Kernel {
    /// The weights, first to last.
    pub closed spec fn view(&self) -> Seq<u32> {
        self.weights@
    }

    /// How far the kernel reaches to either side.
    pub open spec fn radius(&self) -> int {
        (self@.len() - 1) / 2
    }

    /// Odd length, a positive sum, and no longer than a contour may be.
    pub closed spec fn wf(&self) -> bool {
        &&& self.weights@.len() % 2 == 1
        &&& self.weights@.len() <= 2 * MAX_FRAMES + 1
        &&& self.total == weight_sum(self.weights@, self.weights@.len() as int)
        &&& self.total > 0
        &&& self.total <= 0x800_0001 * 0xffff_ffff
    }

    /// What `wf` says of the weights.
    pub proof fn lemma_wf(&self)
        requires
            self.wf(),
        ensures
            self@.len() % 2 == 1,
            self@.len() == 2 * self.radius() + 1,
            0 <= self.radius() <= MAX_FRAMES,
            0 < weight_sum(self@, self@.len() as int) <= 0x800_0001 * 0xffff_ffff,
    {
    }

    /// A kernel of the given weights: there is one when their number is odd and
    /// not above `2 * MAX_FRAMES + 1`, and their sum is positive.
    pub fn new(weights: Vec<u32>) -> (kernel: Option<Kernel>)
        ensures
            kernel is Some <==> {
                &&& weights@.len() % 2 == 1
                &&& weights@.len() <= 2 * MAX_FRAMES + 1
                &&& weight_sum(weights@, weights@.len() as int) > 0
            },
            kernel matches Some(k) ==> k.wf() && k@ == weights@,
    {
        if weights.len() % 2 != 1 || weights.len() > 2 * MAX_FRAMES + 1 {
            return None;
        }
        let mut total: u64 = 0;
        let mut i: usize = 0;
        while i < weights.len()
            invariant
                i <= weights@.len() <= 2 * MAX_FRAMES + 1,
                total == weight_sum(weights@, i as int),
                total <= i * 0xffff_ffff,
            decreases weights@.len() - i,
        {
            proof {
                lemma_weight_sum_bound(weights@, i + 1);
            }
            total = total + weights[i] as u64;
            i = i + 1;
        }
        if total == 0 {
            None
        } else {
            Some(Kernel { weights, total })
        }
    }

    /// How far the kernel reaches to either side.
    pub fn reach(&self) -> (r: usize)
        requires
            self.wf(),
        ensures
            r == self.radius(),
    {
        (self.weights.len() - 1) / 2
    }
}

/// The sample that stands at position `p` of a signal of `n` samples padded by
/// `radius` reflected samples on either side.
pub open spec fn reflected(n: int, radius: int, p: int) -> int {
    if p < radius {
        min_of(radius - p, n - 1)
    } else if p < radius + n {
        p - radius
    } else if n >= 2 + (p - radius - n) {
        n - 2 - (p - radius - n)
    } else {
        0
    }
}

/// The padded samples under the first `k` weights at sample `i`, weighted and summed.
pub open spec fn weighted(signal: Seq<i64>, weights: Seq<u32>, i: int, k: int) -> int
    decreases k,
{
    if k <= 0 {
        0
    } else {
        let radius = (weights.len() - 1) / 2;
        weighted(signal, weights, i, k - 1) + signal[reflected(
            signal.len() as int,
            radius,
            i + k - 1,
        )] * weights[k - 1]
    }
}

/// The smoothed signal: the weighted mean around each sample, the signal being
/// reflected at its ends. A kernel of one weight, or a signal of at most one
/// sample, leaves the signal as it is.
pub open spec fn lowpassed(signal: Seq<i64>, weights: Seq<u32>) -> Seq<i64> {
    if weights.len() <= 1 || signal.len() <= 1 {
        signal
    } else {
        Seq::new(
            signal.len(),
            |i: int|
                rounded_quotient(
                    weighted(signal, weights, i, weights.len() as int),
                    weight_sum(weights, weights.len() as int),
                ) as i64,
        )
    }
}

proof fn lemma_weighted_bound(signal: Seq<i64>, weights: Seq<u32>, i: int, k: int, limit: int)
    requires
        bounded(signal, limit),
        signal.len() > 0,
        0 <= i < signal.len(),
        0 <= k <= weights.len(),
        weights.len() % 2 == 1,
        limit >= 0,
    ensures
        -(limit * weight_sum(weights, k)) <= weighted(signal, weights, i, k) <= limit
            * weight_sum(weights, k),
    decreases k,
{
    if k > 0 {
        lemma_weighted_bound(signal, weights, i, k - 1, limit);
        let radius = (weights.len() - 1) / 2;
        let v = signal[reflected(signal.len() as int, radius, i + k - 1)] as int;
        let w = weights[k - 1] as int;
        let s = weight_sum(weights, k - 1);
        assert(0 <= reflected(signal.len() as int, radius, i + k - 1) < signal.len());
        assert(-(limit * w) <= v * w <= limit * w) by (nonlinear_arith)
            requires
                -limit <= v <= limit,
                w >= 0,
        ;
        assert(limit * (s + w) == limit * s + limit * w) by (nonlinear_arith);
    } else {
        assert(limit * 0 == 0);
    }
}

/// A weighted mean of bounded values is bounded.
proof fn lemma_mean_bound(sum: int, total: int, limit: int)
    requires
        total > 0,
        limit >= 0,
        -(limit * total) <= sum <= limit * total,
    ensures
        -limit <= rounded_quotient(sum, total) <= limit,
{
    let x = 2 * sum + total;
    let d = 2 * total;
    assert(x <= limit * d + total) by (nonlinear_arith)
        requires
            x == 2 * sum + total,
            d == 2 * total,
            sum <= limit * total,
    ;
    assert(x >= (-limit) * d + total) by (nonlinear_arith)
        requires
            x == 2 * sum + total,
            d == 2 * total,
            sum >= -(limit * total),
    ;
    assert(x / d <= limit) by (nonlinear_arith)
        requires
            x <= limit * d + total,
            d == 2 * total,
            total > 0,
    ;
    assert(x / d >= -limit) by (nonlinear_arith)
        requires
            x >= (-limit) * d + total,
            d == 2 * total,
            total > 0,
    ;
}

/// Smoothing keeps the number of samples and any bound on them.
pub proof fn lemma_lowpassed_bound(signal: Seq<i64>, kernel: Kernel, limit: int)
    requires
        kernel.wf(),
        bounded(signal, limit),
        0 <= limit <= 0x7fff_ffff_ffff_ffff,
    ensures
        lowpassed(signal, kernel@).len() == signal.len(),
        bounded(lowpassed(signal, kernel@), limit),
{
    let out = lowpassed(signal, kernel@);
    if kernel@.len() > 1 && signal.len() > 1 {
        let len = kernel@.len() as int;
        assert forall|i: int| 0 <= i < out.len() implies -limit <= #[trigger] out[i] <= limit by {
            lemma_weighted_bound(signal, kernel@, i, len, limit);
            lemma_mean_bound(
                weighted(signal, kernel@, i, len),
                weight_sum(kernel@, len),
                limit,
            );
        }
    }
}

/// A weighted mean fits where its samples do.
pub proof fn lemma_mean_within(signal: Seq<i64>, kernel: Kernel, limit: int, i: int)
    requires
        kernel.wf(),
        bounded(signal, limit),
        0 <= limit,
        0 <= i < signal.len(),
    ensures
        ({
            let len = kernel@.len() as int;
            let mean = rounded_quotient(
                weighted(signal, kernel@, i, len),
                weight_sum(kernel@, len),
            );
            -limit <= mean <= limit
        }),
{
    let len = kernel@.len() as int;
    lemma_weighted_bound(signal, kernel@, i, len, limit);
    lemma_mean_bound(weighted(signal, kernel@, i, len), weight_sum(kernel@, len), limit);
}

proof fn lemma_weighted_steady(signal: Seq<i64>, weights: Seq<u32>, i: int, k: int, c: int)
    requires
        forall|j: int| 0 <= j < signal.len() ==> #[trigger] signal[j] == c,
        signal.len() > 0,
        0 <= i < signal.len(),
        0 <= k <= weights.len(),
        weights.len() % 2 == 1,
    ensures
        weighted(signal, weights, i, k) == c * weight_sum(weights, k),
    decreases k,
{
    if k > 0 {
        lemma_weighted_steady(signal, weights, i, k - 1, c);
        let radius = (weights.len() - 1) / 2;
        assert(0 <= reflected(signal.len() as int, radius, i + k - 1) < signal.len());
        let w = weights[k - 1] as int;
        let s = weight_sum(weights, k - 1);
        assert(c * (s + w) == c * s + c * w) by (nonlinear_arith);
    } else {
        assert(c * 0 == 0);
    }
}

/// Smoothing leaves a steady signal as it is.
pub proof fn lemma_lowpassed_steady(signal: Seq<i64>, kernel: Kernel, c: i64)
    requires
        kernel.wf(),
        forall|i: int| 0 <= i < signal.len() ==> #[trigger] signal[i] == c,
    ensures
        lowpassed(signal, kernel@) == signal,
{
    let out = lowpassed(signal, kernel@);
    if kernel@.len() > 1 && signal.len() > 1 {
        let len = kernel@.len() as int;
        let total = weight_sum(kernel@, len);
        assert forall|i: int| 0 <= i < out.len() implies #[trigger] out[i] == signal[i] by {
            lemma_weighted_steady(signal, kernel@, i, len, c as int);
            lemma_rounded_between(c * total, total, c as int, c as int);
        }
        assert(out =~= signal);
    }
}

/// Smooth `signal` with the kernel.
pub fn gaussian_lowpass(signal: &[i64], kernel: &Kernel) -> (out: Vec<i64>)
    requires
        kernel.wf(),
        signal@.len() <= MAX_FRAMES,
        bounded(signal@, 0x7fff_ffff_ffff_ffff),
    ensures
        out@ == lowpassed(signal@, kernel@),
        out@.len() == signal@.len(),
{
    let n: usize = signal.len();
    let radius: usize = kernel.reach();
    let mut out: Vec<i64> = Vec::new();
    if radius == 0 || n <= 1 {
        let mut i: usize = 0;
        while i < n
            invariant
                n == signal@.len(),
                i <= n,
                out@ == signal@.take(i as int),
            decreases n - i,
        {
            out.push(signal[i]);
            assert(out@ =~= signal@.take(i + 1));
            i = i + 1;
        }
        assert(out@ =~= signal@);
        return out;
    }
    let len: usize = kernel.weights.len();
    let mut i: usize = 0;
    while i < n
        invariant
            n == signal@.len(),
            1 < n <= MAX_FRAMES,
            kernel.wf(),
            len == kernel@.len(),
            radius == kernel.radius(),
            len == 2 * radius + 1,
            len > 1,
            bounded(signal@, 0x7fff_ffff_ffff_ffff),
            i <= n,
            out@.len() == i,
            forall|m: int| 0 <= m < i ==> #[trigger] out@[m] == lowpassed(signal@, kernel@)[m],
        decreases n - i,
    {
        let mut acc: i128 = 0;
        let mut k: usize = 0;
        while k < len
            invariant
                n == signal@.len(),
                1 < n <= MAX_FRAMES,
                i < n,
                kernel.wf(),
                len == kernel@.len(),
                radius == kernel.radius(),
                len == 2 * radius + 1,
                radius <= MAX_FRAMES,
                bounded(signal@, 0x7fff_ffff_ffff_ffff),
                k <= len,
                acc == weighted(signal@, kernel@, i as int, k as int),
                -(0x7fff_ffff_ffff_ffff * weight_sum(kernel@, k as int)) <= acc
                    <= 0x7fff_ffff_ffff_ffff * weight_sum(kernel@, k as int),
                0 <= weight_sum(kernel@, k as int) <= k * 0xffff_ffff,
            decreases len - k,
        {
            let p: usize = i + k;
            let at: usize = if p < radius {
                if radius - p < n - 1 { radius - p } else { n - 1 }
            } else if p < radius + n {
                p - radius
            } else if n >= 2 + (p - radius - n) {
                n - 2 - (p - radius - n)
            } else {
                0
            };
            assert(at == reflected(n as int, radius as int, p as int));
            proof {
                lemma_weighted_bound(signal@, kernel@, i as int, k + 1, 0x7fff_ffff_ffff_ffff);
                lemma_weight_sum_bound(kernel@, k + 1);
            }
            let v: i128 = signal[at] as i128;
            let w: i128 = kernel.weights[k] as i128;
            assert(-0x7fff_ffff_ffff_ffff * 0xffff_ffff <= v * w <= 0x7fff_ffff_ffff_ffff
                * 0xffff_ffff) by (nonlinear_arith)
                requires
                    -0x7fff_ffff_ffff_ffff <= v <= 0x7fff_ffff_ffff_ffff,
                    0 <= w <= 0xffff_ffff,
            ;
            acc = acc + v * w;
            k = k + 1;
        }
        proof {
            lemma_mean_bound(acc as int, kernel.total as int, 0x7fff_ffff_ffff_ffff);
        }
        let mean: i128 = round_div(acc, kernel.total as i128);
        out.push(mean as i64);
        i = i + 1;
    }
    assert(out@ =~= lowpassed(signal@, kernel@));
    out
}

// --- autocorrelation --------------------------------------------------------

/// The products of samples `lag` apart, summed over the first `k` pairs.
pub open spec fn lagged_sum(signal: Seq<i64>, lag: int, k: int) -> int
    decreases k,
{
    if k <= 0 {
        0
    } else {
        lagged_sum(signal, lag, k - 1) + signal[k - 1] * signal[k - 1 + lag]
    }
}

/// The autocorrelation of a signal at one lag.
pub open spec fn autocorrelation_at(signal: Seq<i64>, lag: int) -> int {
    lagged_sum(signal, lag, signal.len() - lag)
}

/// The autocorrelation at one lag.
pub fn correlate_lag(signal: &[i64], lag: usize) -> (sum: i128)
    requires
        lag < signal@.len() <= MAX_FRAMES,
        bounded(signal@, 480_000_000_000_000),
    ensures
        sum == autocorrelation_at(signal@, lag as int),
        -16_000_000_000_000_000_000_000_000_000_000_000_000 < sum
            < 16_000_000_000_000_000_000_000_000_000_000_000_000,
{
    let n: usize = signal.len();
    let mut sum: i128 = 0;
    let mut i: usize = 0;
    while i < n - lag
        invariant
            n == signal@.len(),
            lag < n <= MAX_FRAMES,
            bounded(signal@, 480_000_000_000_000),
            i <= n - lag,
            sum == lagged_sum(signal@, lag as int, i as int),
            -(i * 230_400_000_000_000_000_000_000_000_000) <= sum <= i
                * 230_400_000_000_000_000_000_000_000_000,
        decreases n - lag - i,
    {
        let a: i128 = signal[i] as i128;
        let b: i128 = signal[i + lag] as i128;
        assert(-230_400_000_000_000_000_000_000_000_000 <= a * b
            <= 230_400_000_000_000_000_000_000_000_000) by (nonlinear_arith)
            requires
                -480_000_000_000_000 <= a <= 480_000_000_000_000,
                -480_000_000_000_000 <= b <= 480_000_000_000_000,
        ;
        sum = sum + a * b;
        i = i + 1;
    }
    sum
}

/// The autocorrelation at every lag up to `max_lag`, as far as the signal reaches.
pub fn autocorrelation(signal: &[i64], max_lag: usize) -> (result: Vec<i128>)
    requires
        0 < signal@.len() <= MAX_FRAMES,
        bounded(signal@, 480_000_000_000_000),
    ensures
        result@.len() == min_of(max_lag as int, signal@.len() - 1) + 1,
        forall|lag: int|
            0 <= lag < result@.len() ==> #[trigger] result@[lag] == autocorrelation_at(
                signal@,
                lag,
            ),
        forall|lag: int|
            0 <= lag < result@.len() ==> -16_000_000_000_000_000_000_000_000_000_000_000_000
                < #[trigger] result@[lag] < 16_000_000_000_000_000_000_000_000_000_000_000_000,
{
    let last: usize = if max_lag < signal.len() - 1 { max_lag } else { signal.len() - 1 };
    let mut result: Vec<i128> = Vec::new();
    let mut lag: usize = 0;
    while lag <= last
        invariant
            0 < signal@.len() <= MAX_FRAMES,
            bounded(signal@, 480_000_000_000_000),
            last < signal@.len(),
            lag <= last + 1,
            result@.len() == lag,
            forall|m: int|
                0 <= m < lag ==> #[trigger] result@[m] == autocorrelation_at(signal@, m),
            forall|m: int|
                0 <= m < lag ==> -16_000_000_000_000_000_000_000_000_000_000_000_000 < #[trigger] result@[m]
                    < 16_000_000_000_000_000_000_000_000_000_000_000_000,
        decreases last + 1 - lag,
    {
        let sum: i128 = correlate_lag(signal, lag);
        result.push(sum);
        lag = lag + 1;
    }
    result
}

} // verus!
