//! Pitch tracking: candidates from the landmarks of band-limited waveforms, and
//! the choice between candidates.
//!
//! Waveform samples, pitches and scores take part by their rank: an integer that
//! orders as the value does and is zero for zero. A value that is not a number
//! has no rank, and no comparison with it holds.

use crate::natural::Natural;
use crate::num::{min_of, round_div, rounded_quotient};
use vstd::prelude::*;

verus! {

/// Largest number of samples of an analysed waveform.
pub const MAX_WINDOW: usize = 0x4000_0000;

/// Largest sampling rate, in nanohertz: nine gigahertz, which is more than 32 bits
/// of whole hertz hold.
pub const MAX_RATE: u64 = 9_000_000_000_000_000_000;

// --- landmarks --------------------------------------------------------------

/// The landmarks of a waveform.
pub enum Landmark {
    /// Crosses zero upwards.
    Rise,
    /// Crosses zero downwards.
    Fall,
    /// Stops falling.
    Valley,
    /// Stops rising.
    Crest,
}

/// Whether the waveform has the landmark at sample `i`.
pub open spec fn has_landmark(x: Seq<i64>, kind: Landmark, i: int) -> bool {
    match kind {
        Landmark::Rise => x[i - 1] < 0 && x[i] >= 0,
        Landmark::Fall => x[i - 1] > 0 && x[i] <= 0,
        Landmark::Valley => x[i] < x[i - 1] && x[i + 1] >= x[i],
        Landmark::Crest => x[i] > x[i - 1] && x[i + 1] <= x[i],
    }
}

/// The last landmark among samples 1 to `i`, or zero.
pub open spec fn last_landmark(x: Seq<i64>, kind: Landmark, i: int) -> int
    decreases i,
{
    if i <= 0 {
        0
    } else if has_landmark(x, kind, i) {
        i
    } else {
        last_landmark(x, kind, i - 1)
    }
}

/// The interval that ends at sample `i`: the distance from the landmark there to
/// the one before it, zero where there is none. A first crest at sample 1 starts
/// no interval.
pub open spec fn interval_at(x: Seq<i64>, kind: Landmark, i: int) -> int {
    let before = last_landmark(x, kind, i - 1);
    if has_landmark(x, kind, i) && before > (if kind is Crest { 1int } else { 0 }) {
        i - before
    } else {
        0
    }
}

/// The intervals that end among samples 1 to `k`, summed.
pub open spec fn interval_sum(x: Seq<i64>, kind: Landmark, k: int) -> int
    decreases k,
{
    if k <= 0 {
        0
    } else {
        interval_sum(x, kind, k - 1) + interval_at(x, kind, k)
    }
}

/// The intervals that end among samples 1 to `k`, counted.
pub open spec fn interval_count(x: Seq<i64>, kind: Landmark, k: int) -> int
    decreases k,
{
    if k <= 0 {
        0
    } else {
        interval_count(x, kind, k - 1) + (if interval_at(x, kind, k) > 0 { 1int } else { 0 })
    }
}

/// A fraction.
pub struct Fraction {
    pub num: int,
    pub den: int,
}

impl Fraction {
    /// The fraction and the inverse of an interval, which zero has none of.
    pub open spec fn plus_inverse(self, interval: int) -> Fraction {
        if interval > 0 {
            Fraction { num: self.num * interval + self.den, den: self.den * interval }
        } else {
            self
        }
    }
}

/// The inverses of the intervals of all kinds that end among samples 1 to `k`,
/// summed.
pub open spec fn inverse_sum(x: Seq<i64>, k: int) -> Fraction
    decreases k,
{
    if k <= 0 {
        Fraction { num: 0, den: 1 }
    } else {
        inverse_sum(x, k - 1).plus_inverse(interval_at(x, Landmark::Rise, k)).plus_inverse(
            interval_at(x, Landmark::Fall, k),
        ).plus_inverse(interval_at(x, Landmark::Valley, k)).plus_inverse(
            interval_at(x, Landmark::Crest, k),
        )
    }
}

proof fn lemma_plus_inverse(f: Fraction, interval: int)
    requires
        f.num >= 0,
        f.den >= 1,
    ensures
        f.plus_inverse(interval).num >= 0,
        f.plus_inverse(interval).den >= 1,
{
    if interval > 0 {
        assert(f.num * interval >= 0) by (nonlinear_arith)
            requires
                f.num >= 0,
                interval > 0,
        ;
        assert(f.den * interval >= 1) by (nonlinear_arith)
            requires
                f.den >= 1,
                interval >= 1,
        ;
    }
}

/// The sum of inverses is a fraction: not negative, over a positive denominator.
pub proof fn lemma_inverse_sum(x: Seq<i64>, k: int)
    ensures
        inverse_sum(x, k).num >= 0,
        inverse_sum(x, k).den >= 1,
    decreases k,
{
    if k > 0 {
        lemma_inverse_sum(x, k - 1);
        let a = inverse_sum(x, k - 1);
        let b = a.plus_inverse(interval_at(x, Landmark::Rise, k));
        let c = b.plus_inverse(interval_at(x, Landmark::Fall, k));
        let d = c.plus_inverse(interval_at(x, Landmark::Valley, k));
        lemma_plus_inverse(a, interval_at(x, Landmark::Rise, k));
        lemma_plus_inverse(b, interval_at(x, Landmark::Fall, k));
        lemma_plus_inverse(c, interval_at(x, Landmark::Valley, k));
        lemma_plus_inverse(d, interval_at(x, Landmark::Crest, k));
    }
}

proof fn lemma_last_landmark(x: Seq<i64>, kind: Landmark, i: int)
    ensures
        0 <= last_landmark(x, kind, i),
        i >= 0 ==> last_landmark(x, kind, i) <= i,
    decreases i,
{
    if i > 0 && !has_landmark(x, kind, i) {
        lemma_last_landmark(x, kind, i - 1);
    }
}

/// Intervals of one kind do not overlap, so they add up to no more than the
/// waveform.
proof fn lemma_interval_bounds(x: Seq<i64>, kind: Landmark, k: int)
    requires
        0 <= k,
    ensures
        0 <= interval_sum(x, kind, k) <= last_landmark(x, kind, k) <= k,
        0 <= interval_count(x, kind, k) <= k,
        interval_count(x, kind, k) <= interval_sum(x, kind, k),
        k > 0 ==> 0 <= interval_at(x, kind, k) <= k,
    decreases k,
{
    if k > 0 {
        lemma_interval_bounds(x, kind, k - 1);
        lemma_last_landmark(x, kind, k - 1);
    }
}

/// All intervals of a waveform, summed over the four kinds.
pub open spec fn total_interval(x: Seq<i64>, k: int) -> int {
    interval_sum(x, Landmark::Rise, k) + interval_sum(x, Landmark::Fall, k) + interval_sum(
        x,
        Landmark::Valley,
        k,
    ) + interval_sum(x, Landmark::Crest, k)
}

/// All intervals of a waveform, counted.
pub open spec fn total_count(x: Seq<i64>, k: int) -> int {
    interval_count(x, Landmark::Rise, k) + interval_count(x, Landmark::Fall, k) + interval_count(
        x,
        Landmark::Valley,
        k,
    ) + interval_count(x, Landmark::Crest, k)
}

/// Whether intervals are too irregular for a pitch: the variance of their
/// frequencies, weighted by interval and taken in square hertz, is above their
/// mean frequency in hertz.
pub open spec fn irregular(fs: int, count: int, total: int, inverse: Fraction) -> bool {
    fs * total * inverse.num > inverse.den * (fs * count * count) + inverse.den * (1_000_000_000
        * count * total)
}

/// The pitch of a waveform in nanohertz: the mean frequency of its intervals. There
/// is one when the waveform has intervals, when their mean frequency is above zero and
/// not above half the sampling rate, and when they are regular.
pub open spec fn landmark_pitch(x: Seq<i64>, fs: int) -> Option<int> {
    let last = x.len() - 2;
    let count = total_count(x, last);
    let total = total_interval(x, last);
    if total <= 0 || fs <= 0 || 2 * count > total || irregular(
        fs,
        count,
        total,
        inverse_sum(x, last),
    ) {
        None
    } else {
        Some(rounded_quotient(fs * count, total))
    }
}

/// The intervals of one kind of landmark, as a waveform is walked through.
struct Tally {
    last: usize,
    sum: i128,
    count: i128,
}

impl Tally {
    spec fn holds(&self, x: Seq<i64>, kind: Landmark, k: int) -> bool {
        &&& self.last == last_landmark(x, kind, k)
        &&& self.sum == interval_sum(x, kind, k)
        &&& self.count == interval_count(x, kind, k)
    }

    fn new() -> (t: Self)
        ensures
            forall|x: Seq<i64>, kind: Landmark| #[trigger] t.holds(x, kind, 0),
    {
        Tally { last: 0, sum: 0, count: 0 }
    }

    /// Take note of sample `i`; `start` is the first sample that can start an
    /// interval. Returns the interval that ends at the sample, zero for none.
    fn advance(
        &mut self,
        i: usize,
        there: bool,
        start: usize,
        Ghost(x): Ghost<Seq<i64>>,
        Ghost(kind): Ghost<Landmark>,
    ) -> (interval: u64)
        requires
            old(self).holds(x, kind, i - 1),
            1 <= i <= MAX_WINDOW,
            there == has_landmark(x, kind, i as int),
            start == (if kind is Crest { 2int } else { 1 }),
        ensures
            final(self).holds(x, kind, i as int),
            interval == interval_at(x, kind, i as int),
    {
        proof {
            lemma_interval_bounds(x, kind, i - 1);
            lemma_last_landmark(x, kind, i - 1);
        }
        let mut interval: u64 = 0;
        if there {
            if self.last >= start {
                interval = (i - self.last) as u64;
                self.sum = self.sum + interval as i128;
                self.count = self.count + 1;
            }
            self.last = i;
        }
        interval
    }
}

/// The landmarks of all kinds, as a waveform is walked through.
struct Walk {
    rise: Tally,
    fall: Tally,
    valley: Tally,
    crest: Tally,
}

impl Walk {
    spec fn holds(&self, x: Seq<i64>, k: int) -> bool {
        &&& self.rise.holds(x, Landmark::Rise, k)
        &&& self.fall.holds(x, Landmark::Fall, k)
        &&& self.valley.holds(x, Landmark::Valley, k)
        &&& self.crest.holds(x, Landmark::Crest, k)
    }

    fn new() -> (walk: Self)
        ensures
            forall|x: Seq<i64>| #[trigger] walk.holds(x, 0),
    {
        Walk { rise: Tally::new(), fall: Tally::new(), valley: Tally::new(), crest: Tally::new() }
    }

    /// Go on to sample `i`. Returns the intervals of each kind that end there.
    fn step(&mut self, x: &[i64], i: usize) -> (ends: (u64, u64, u64, u64))
        requires
            old(self).holds(x@, i - 1),
            1 <= i < x@.len() - 1,
            x@.len() <= MAX_WINDOW,
        ensures
            final(self).holds(x@, i as int),
            ends.0 == interval_at(x@, Landmark::Rise, i as int),
            ends.1 == interval_at(x@, Landmark::Fall, i as int),
            ends.2 == interval_at(x@, Landmark::Valley, i as int),
            ends.3 == interval_at(x@, Landmark::Crest, i as int),
    {
        let before: i64 = x[i - 1];
        let here: i64 = x[i];
        let after: i64 = x[i + 1];
        let a: u64 = self.rise.advance(
            i,
            before < 0 && here >= 0,
            1,
            Ghost(x@),
            Ghost(Landmark::Rise),
        );
        let b: u64 = self.fall.advance(
            i,
            before > 0 && here <= 0,
            1,
            Ghost(x@),
            Ghost(Landmark::Fall),
        );
        let c: u64 = self.valley.advance(
            i,
            here < before && after >= here,
            1,
            Ghost(x@),
            Ghost(Landmark::Valley),
        );
        let d: u64 = self.crest.advance(
            i,
            here > before && after <= here,
            2,
            Ghost(x@),
            Ghost(Landmark::Crest),
        );
        (a, b, c, d)
    }
}

/// The parts that a rough sum of inverses is counted in.
const ROUGH_UNIT: u128 = 0x10_0000_0000;

/// A sum of inverses to within one part for each term.
struct RoughSum {
    low: u128,
    terms: u64,
}

impl RoughSum {
    /// Whether a fraction lies between the sum and one part more for each term.
    spec fn brackets(&self, f: Fraction) -> bool {
        &&& self.low * f.den <= ROUGH_UNIT * f.num <= (self.low + self.terms) * f.den
        &&& self.low <= self.terms * ROUGH_UNIT
        &&& f.den >= 1
        &&& f.num >= 0
    }

    fn take_inverse(&mut self, interval: u64, Ghost(f): Ghost<Fraction>)
        requires
            old(self).brackets(f),
            old(self).terms < 0x1_0000_0000,
        ensures
            final(self).brackets(f.plus_inverse(interval as int)),
            final(self).terms == old(self).terms + (if interval > 0 { 1int } else { 0 }),
    {
        if interval > 0 {
            let part: u128 = ROUGH_UNIT / interval as u128;
            proof {
                lemma_plus_inverse(f, interval as int);
                let d = interval as int;
                let u = ROUGH_UNIT as int;
                let low = self.low as int;
                let terms = self.terms as int;
                vstd::arithmetic::div_mod::lemma_fundamental_div_mod(u, d);
                let p = part as int;
                assert(p * d <= u < (p + 1) * d) by (nonlinear_arith)
                    requires
                        u == d * p + u % d,
                        0 <= u % d < d,
                ;
                assert((low + p) * (f.den * d) <= u * (f.num * d + f.den)) by (nonlinear_arith)
                    requires
                        low * f.den <= u * f.num,
                        p * d <= u,
                        d >= 1,
                        f.den >= 1,
                ;
                assert(u * (f.num * d + f.den) <= (low + p + terms + 1) * (f.den * d))
                    by (nonlinear_arith)
                    requires
                        u * f.num <= (low + terms) * f.den,
                        u <= (p + 1) * d,
                        d >= 1,
                        f.den >= 1,
                ;
                crate::num::lemma_quotient_bound(u, d);
            }
            self.low = self.low + part;
            self.terms = self.terms + 1;
        }
    }

    /// Whether the intervals are irregular, where the sum is near enough to tell.
    fn tells_irregular(
        &self,
        fs: u64,
        count: u64,
        total: u64,
        Ghost(f): Ghost<Fraction>,
    ) -> (verdict: Option<bool>)
        requires
            self.brackets(f),
            self.terms == count,
            2 * count <= total,
        ensures
            verdict matches Some(yes) ==> yes == irregular(
                fs as int,
                count as int,
                total as int,
                f,
            ),
    {
        if fs > 0x4_0000_0000_0000 || total > 0x20_0000 {
            return None;
        }
        let rate: u128 = fs as u128;
        let n: u128 = count as u128;
        let t: u128 = total as u128;
        proof {
            assert(0 <= rate * t <= 0x4_0000_0000_0000 * 0x20_0000) by (nonlinear_arith)
                requires
                    0 <= rate <= 0x4_0000_0000_0000,
                    0 <= t <= 0x20_0000,
            ;
            assert(0 <= n * n <= 0x10_0000 * 0x10_0000 && 0 <= n * t <= 0x10_0000 * 0x20_0000)
                by (nonlinear_arith)
                requires
                    0 <= n <= 0x10_0000,
                    0 <= t <= 0x20_0000,
            ;
            assert(0 <= rate * (n * n) <= 0x4_0000_0000_0000 * 0x100_0000_0000)
                by (nonlinear_arith)
                requires
                    0 <= rate <= 0x4_0000_0000_0000,
                    0 <= n * n <= 0x100_0000_0000,
            ;
        }
        let left: u128 = rate * t;
        let right: u128 = rate * (n * n) + 1_000_000_000 * (n * t);
        let high: u128 = self.low + n;
        proof {
            assert(self.low <= 0x10_0000 * 0x10_0000_0000);
            assert(0 <= left * high <= 0x80_0000_0000_0000_0000 * 0x100_0000_0010_0000)
                by (nonlinear_arith)
                requires
                    0 <= left <= 0x80_0000_0000_0000_0000,
                    0 <= high <= 0x100_0000_0010_0000,
            ;
            assert(0 <= left * self.low <= left * high) by (nonlinear_arith)
                requires
                    0 <= left,
                    0 <= self.low <= high,
            ;
            let (l, r, u) = (left as int, right as int, ROUGH_UNIT as int);
            assert(fs * total * f.num == l * f.num);
            assert(f.den * (fs * count * count) + f.den * (1_000_000_000 * count * total) == f.den
                * r) by (nonlinear_arith)
                requires
                    r == fs * (count * count) + 1_000_000_000 * (count * total),
            ;
            let low = self.low as int;
            if l * low > u * r {
                assert(l * f.num > f.den * r) by (nonlinear_arith)
                    requires
                        l * low > u * r,
                        low * f.den <= u * f.num,
                        f.den >= 1,
                        l >= 0,
                        u > 0,
                ;
            }
            if l * high <= u * r {
                assert(l * f.num <= f.den * r) by (nonlinear_arith)
                    requires
                        l * high <= u * r,
                        u * f.num <= high * f.den,
                        f.den >= 1,
                        l >= 0,
                        u > 0,
                ;
            }
        }
        if left * self.low > ROUGH_UNIT * right {
            Some(true)
        } else if left * high <= ROUGH_UNIT * right {
            Some(false)
        } else {
            None
        }
    }
}

/// A sum of inverses, exact.
struct InverseSum {
    num: Natural,
    den: Natural,
}

impl InverseSum {
    spec fn view(&self) -> Fraction {
        Fraction { num: self.num@, den: self.den@ }
    }

    fn new() -> (sum: Self)
        ensures
            sum@ == (Fraction { num: 0, den: 1 }),
    {
        InverseSum { num: Natural::zero(), den: Natural::one() }
    }

    fn take_inverse(&mut self, interval: u64)
        ensures
            final(self)@ == old(self)@.plus_inverse(interval as int),
    {
        if interval > 0 {
            self.num.scale(interval);
            self.num.increase(&self.den);
            self.den.scale(interval);
        }
    }

    /// Whether the intervals are irregular.
    fn tells_irregular(&self, fs: u64, count: u64, total: u64) -> (yes: bool)
        ensures
            yes == irregular(fs as int, count as int, total as int, self@),
    {
        let mut left: Natural = self.num.copied();
        left.scale(fs);
        left.scale(total);
        let mut right: Natural = self.den.copied();
        right.scale(fs);
        right.scale(count);
        right.scale(count);
        let mut mean: Natural = self.den.copied();
        mean.scale(1_000_000_000);
        mean.scale(count);
        mean.scale(total);
        right.increase(&mean);
        proof {
            let n = self.num@;
            let d = self.den@;
            assert(n * fs * total == fs * total * n) by (nonlinear_arith);
            assert(d * fs * count * count == d * (fs * count * count)) by (nonlinear_arith);
            assert(d * 1_000_000_000 * count * total == d * (1_000_000_000 * count * total))
                by (nonlinear_arith);
        }
        left.above(&right)
    }
}

/// Whether the intervals of a waveform are irregular, by exact arithmetic.
fn exactly_irregular(x: &[i64], fs: u64, count: u64, total: u64) -> (yes: bool)
    requires
        2 <= x@.len() <= MAX_WINDOW,
    ensures
        yes == irregular(
            fs as int,
            count as int,
            total as int,
            inverse_sum(x@, x@.len() - 2),
        ),
{
    let mut walk = Walk::new();
    let mut inverse = InverseSum::new();
    let n: usize = x.len();
    let mut i: usize = 1;
    while i < n - 1
        invariant
            n == x@.len(),
            2 <= n <= MAX_WINDOW,
            1 <= i <= n - 1,
            walk.holds(x@, i - 1),
            inverse@ == inverse_sum(x@, i - 1),
        decreases n - 1 - i,
    {
        let ends: (u64, u64, u64, u64) = walk.step(x, i);
        inverse.take_inverse(ends.0);
        inverse.take_inverse(ends.1);
        inverse.take_inverse(ends.2);
        inverse.take_inverse(ends.3);
        i = i + 1;
    }
    inverse.tells_irregular(fs, count, total)
}

/// Estimate the pitch of a band-limited waveform of ranks from the distances
/// between its zero crossings and between its turning points.
pub fn analyze_fo_with_zerocross(x: &[i64], fs: u64) -> (fo: Option<u64>)
    requires
        2 <= x@.len() <= MAX_WINDOW,
        fs <= MAX_RATE,
    ensures
        match fo {
            Some(f) => landmark_pitch(x@, fs as int) == Some(f as int),
            None => landmark_pitch(x@, fs as int) is None,
        },
{
    let mut walk = Walk::new();
    let mut rough = RoughSum { low: 0, terms: 0 };
    let n: usize = x.len();
    let mut i: usize = 1;
    while i < n - 1
        invariant
            n == x@.len(),
            2 <= n <= MAX_WINDOW,
            1 <= i <= n - 1,
            walk.holds(x@, i - 1),
            rough.brackets(inverse_sum(x@, i - 1)),
            rough.terms == total_count(x@, i - 1),
            rough.terms <= 4 * (i - 1),
        decreases n - 1 - i,
    {
        let ends: (u64, u64, u64, u64) = walk.step(x, i);
        let ghost f = inverse_sum(x@, i - 1);
        let ghost f1 = f.plus_inverse(ends.0 as int);
        let ghost f2 = f1.plus_inverse(ends.1 as int);
        let ghost f3 = f2.plus_inverse(ends.2 as int);
        rough.take_inverse(ends.0, Ghost(f));
        rough.take_inverse(ends.1, Ghost(f1));
        rough.take_inverse(ends.2, Ghost(f2));
        rough.take_inverse(ends.3, Ghost(f3));
        i = i + 1;
    }
    proof {
        lemma_interval_bounds(x@, Landmark::Rise, n - 2);
        lemma_interval_bounds(x@, Landmark::Fall, n - 2);
        lemma_interval_bounds(x@, Landmark::Valley, n - 2);
        lemma_interval_bounds(x@, Landmark::Crest, n - 2);
    }
    let total: i128 = walk.rise.sum + walk.fall.sum + walk.valley.sum + walk.crest.sum;
    let count: i128 = walk.rise.count + walk.fall.count + walk.valley.count + walk.crest.count;
    if total <= 0 || fs == 0 || 2 * count > total {
        return None;
    }
    let verdict: Option<bool> = rough.tells_irregular(
        fs,
        count as u64,
        total as u64,
        Ghost(inverse_sum(x@, n - 2)),
    );
    let irregular_intervals: bool = match verdict {
        Some(yes) => yes,
        None => exactly_irregular(x, fs, count as u64, total as u64),
    };
    if irregular_intervals {
        return None;
    }
    let rate: i128 = fs as i128;
    proof {
        assert(0 <= rate * count <= 9_000_000_000_000_000_000 * 0x1_0000_0000)
            by (nonlinear_arith)
            requires
                0 <= rate <= 9_000_000_000_000_000_000,
                0 <= count <= 0x1_0000_0000,
        ;
        assert(rate * count <= rate * total) by (nonlinear_arith)
            requires
                0 <= rate,
                count <= total,
        ;
        crate::num::lemma_rounded_between(rate * count, total as int, 0, rate as int);
        assert(0 * total == 0);
    }
    let mean: i128 = round_div(rate * count, total);
    Some(mean as u64)
}

// --- choice of a candidate --------------------------------------------------

/// A value with its rank; no rank for what is not a number.
#[derive(Clone, Copy, Debug)]
pub struct Ranked<T> {
    pub value: T,
    pub rank: Option<i64>,
}

/// A pitch candidate and how well its harmonics score.
#[derive(Clone, Copy, Debug)]
pub struct Candidate<T> {
    pub fo: Ranked<T>,
    /// The pitch in nanohertz.
    pub nanohertz: u64,
    pub score: Ranked<T>,
}

/// Whether `a` is below `b`; false when either has no rank.
pub open spec fn below(a: Option<i64>, b: Option<i64>) -> bool {
    a is Some && b is Some && a->0 < b->0
}

/// The range of pitches that is followed.
#[derive(Clone, Copy, Debug, PartialEq, Eq, Structural)]
pub struct PitchRange {
    pub floor: i64,
    pub ceil: i64,
}

impl PitchRange {
    /// Whether a pitch lies below the floor or above the ceiling. One without a
    /// rank does neither.
    pub open spec fn excludes(&self, fo: Option<i64>) -> bool {
        fo is Some && (fo->0 < self.floor || fo->0 > self.ceil)
    }

    /// Whether a pitch lies in the range.
    pub open spec fn holds(&self, fo: Option<i64>) -> bool {
        fo is Some && self.floor <= fo->0 <= self.ceil
    }

    /// Whether a pitch lies below the floor or above the ceiling.
    pub fn out_of_range(&self, fo: Option<i64>) -> (out: bool)
        ensures
            out == self.excludes(fo),
            out <==> (fo matches Some(r) && !(self.floor <= r <= self.ceil)),
    {
        match fo {
            Some(r) => r < self.floor || r > self.ceil,
            None => false,
        }
    }

    /// Whether a pitch lies in the range.
    pub fn in_range(&self, fo: Option<i64>) -> (inside: bool)
        ensures
            inside == self.holds(fo),
            inside <==> (fo matches Some(r) && self.floor <= r && r <= self.ceil),
    {
        match fo {
            Some(r) => r >= self.floor && r <= self.ceil,
            None => false,
        }
    }
}

/// The pitch that refinement settles on: the refined one, unless it leaves the range
/// or moves by more than the pitch itself. `gap` is the rank of how far it moves.
pub open spec fn settled<T>(
    range: PitchRange,
    fo: Ranked<T>,
    refined: Ranked<T>,
    gap: Option<i64>,
) -> Ranked<T> {
    if range.excludes(refined.rank) || below(fo.rank, gap) {
        fo
    } else {
        refined
    }
}

/// Settle on a refined pitch, or keep the one it came from.
pub fn settle_refined<T: Copy>(
    range: PitchRange,
    fo: Ranked<T>,
    refined: Ranked<T>,
    gap: Option<i64>,
) -> (settled_fo: Ranked<T>)
    ensures
        settled_fo == settled(range, fo, refined, gap),
        ({
            let reached = refined.rank matches Some(r) ==> range.floor <= r <= range.ceil;
            let near = (fo.rank is Some && gap is Some) ==> gap->0 <= fo.rank->0;
            settled_fo == (if reached && near { refined } else { fo })
        }),
{
    let far: bool = match (fo.rank, gap) {
        (Some(a), Some(b)) => a < b,
        _ => false,
    };
    if range.out_of_range(refined.rank) || far {
        fo
    } else {
        refined
    }
}

/// Refinement never leads out of the range.
pub proof fn lemma_settled_in_range<T>(
    range: PitchRange,
    fo: Ranked<T>,
    refined: Ranked<T>,
    gap: Option<i64>,
)
    requires
        !range.excludes(fo.rank),
    ensures
        !range.excludes(settled(range, fo, refined, gap).rank),
{
}

/// The best of the first `k` candidates after `best`: each takes over when its
/// score is above the best so far.
pub open spec fn best_of<T>(best: Candidate<T>, candidates: Seq<Candidate<T>>, k: int) -> Candidate<
    T,
>
    decreases k,
{
    if k <= 0 {
        best
    } else {
        let b = best_of(best, candidates, k - 1);
        if below(b.score.rank, candidates[k - 1].score.rank) {
            candidates[k - 1]
        } else {
            b
        }
    }
}

/// Whether the best candidate is a pitch: within the range, with a score that is
/// not negative.
pub open spec fn accepted<T>(range: PitchRange, best: Candidate<T>) -> bool {
    !range.excludes(best.fo.rank) && !below(best.score.rank, Some(0i64))
}

/// What one frame of tracking found.
#[derive(Clone, Copy, Debug)]
pub struct Outcome<T> {
    /// The best candidate, a pitch or not.
    pub best: Candidate<T>,
    /// Whether the best candidate is taken as the pitch.
    pub found: bool,
}

/// The pitch tracker: remembers the last pitch and chooses the best candidate of
/// each frame.
pub struct FoTracker<T> {
    range: PitchRange,
    previous: Ranked<T>,
}

impl<T: Copy> FoTracker<T> {
    /// The pitch of the last frame that had one.
    pub closed spec fn spec_previous(&self) -> Ranked<T> {
        self.previous
    }

    /// The range of pitches that is followed.
    pub closed spec fn spec_range(&self) -> PitchRange {
        self.range
    }

    /// A tracker that has seen no pitch yet; `zero` stands for that.
    pub fn new(range: PitchRange, zero: T) -> (tracker: Self)
        ensures
            tracker.spec_range() == range,
            tracker.spec_previous() == (Ranked { value: zero, rank: Some(0i64) }),
    {
        FoTracker { range, previous: Ranked { value: zero, rank: Some(0) } }
    }

    /// The range of pitches that is followed.
    pub fn range(&self) -> (range: PitchRange)
        ensures
            range == self.spec_range(),
    {
        self.range
    }

    /// The last pitch, to be refined and scored anew, where it is above the floor.
    pub fn seed(&self) -> (fo: Option<T>)
        ensures
            fo is Some <==> below(
                Some(self.spec_range().floor),
                self.spec_previous().rank,
            ),
            fo matches Some(v) ==> v == self.spec_previous().value,
            fo is Some <==> self.spec_previous().rank is Some && self.spec_previous().rank->0
                > self.spec_range().floor,
    {
        match self.previous.rank {
            Some(r) => if r > self.range.floor { Some(self.previous.value) } else { None },
            None => None,
        }
    }

    /// Choose the best of a frame's candidates, starting from `start`, and
    /// remember it when it is a pitch.
    pub fn choose_best(&mut self, start: Candidate<T>, candidates: &[Candidate<T>]) -> (outcome:
        Outcome<T>)
        ensures
            outcome.best == best_of(start, candidates@, candidates@.len() as int),
            outcome.found == accepted(old(self).spec_range(), outcome.best),
            outcome.found <==> (outcome.best.fo.rank matches Some(r) ==> old(
                self,
            ).spec_range().floor <= r <= old(self).spec_range().ceil) && (
            outcome.best.score.rank matches Some(v) ==> v >= 0),
            final(self).spec_range() == old(self).spec_range(),
            final(self).spec_previous() == (if outcome.found {
                outcome.best.fo
            } else {
                old(self).spec_previous()
            }),
    {
        let mut best = start;
        let mut k: usize = 0;
        while k < candidates.len()
            invariant
                k <= candidates@.len(),
                best == best_of(start, candidates@, k as int),
            decreases candidates@.len() - k,
        {
            let c = candidates[k];
            let better: bool = match (best.score.rank, c.score.rank) {
                (Some(a), Some(b)) => a < b,
                _ => false,
            };
            if better {
                best = c;
            }
            k = k + 1;
        }
        let negative: bool = match best.score.rank {
            Some(r) => r < 0,
            None => false,
        };
        let found: bool = !self.range.out_of_range(best.fo.rank) && !negative;
        if found {
            self.previous = best.fo;
        }
        Outcome { best, found }
    }
}

/// A pitch that the tracker takes lies in its range, as long as it is a number.
pub proof fn lemma_accepted_in_range<T>(range: PitchRange, best: Candidate<T>)
    requires
        accepted(range, best),
        best.fo.rank is Some,
    ensures
        range.holds(best.fo.rank),
{
}

/// No candidate beats the chosen one: where all scores are numbers, none is above
/// the best.
pub proof fn lemma_best_is_best<T>(
    best: Candidate<T>,
    candidates: Seq<Candidate<T>>,
    k: int,
    i: int,
)
    requires
        best.score.rank is Some,
        forall|j: int| 0 <= j < candidates.len() ==> (#[trigger] candidates[j]).score.rank is Some,
        0 <= i < k <= candidates.len(),
    ensures
        best_of(best, candidates, k).score.rank is Some,
        candidates[i].score.rank->0 <= best_of(best, candidates, k).score.rank->0,
        best.score.rank->0 <= best_of(best, candidates, k).score.rank->0,
    decreases k,
{
    lemma_best_has_rank(best, candidates, k - 1);
    if i < k - 1 {
        lemma_best_is_best(best, candidates, k - 1, i);
    }
    assert(candidates[k - 1].score.rank is Some);
}

proof fn lemma_best_has_rank<T>(best: Candidate<T>, candidates: Seq<Candidate<T>>, k: int)
    requires
        best.score.rank is Some,
        forall|j: int| 0 <= j < candidates.len() ==> (#[trigger] candidates[j]).score.rank is Some,
        0 <= k <= candidates.len(),
    ensures
        best_of(best, candidates, k).score.rank is Some,
        best.score.rank->0 <= best_of(best, candidates, k).score.rank->0,
    decreases k,
{
    if k > 0 {
        lemma_best_has_rank(best, candidates, k - 1);
    }
}

// --- sizes ------------------------------------------------------------------

/// Whether `m` half-octave channels reach from `floor` to `ceil`.
pub open spec fn channels_reach(floor: int, ceil: int, m: nat) -> bool {
    ceil * ceil <= floor * floor * vstd::arithmetic::power2::pow2(m)
}

/// The number of half-octave channels between two frequencies: the least that
/// reaches.
pub fn channel_count(floor: u64, ceil: u64) -> (m: usize)
    requires
        0 < floor < ceil <= MAX_RATE,
    ensures
        channels_reach(floor as int, ceil as int, m as nat),
        forall|k: nat| k < m ==> !#[trigger] channels_reach(floor as int, ceil as int, k),
        m <= 128,
{
    let f: u128 = floor as u128;
    let c: u128 = ceil as u128;
    assert(c * c <= 9_000_000_000_000_000_000 * 9_000_000_000_000_000_000) by (nonlinear_arith)
        requires
            0 <= c <= 9_000_000_000_000_000_000,
    ;
    assert(1 <= f * f <= c * c) by (nonlinear_arith)
        requires
            1 <= f <= c,
    ;
    let target: u128 = c * c;
    let mut reach: u128 = f * f;
    let mut m: usize = 0;
    proof {
        vstd::arithmetic::power2::lemma2_to64();
        assert(f * f * 1 == f * f);
    }
    while reach < target
        invariant
            f == floor,
            c == ceil,
            target == c * c,
            target <= 81_000_000_000_000_000_000_000_000_000_000_000_000,
            reach == f * f * vstd::arithmetic::power2::pow2(m as nat),
            1 <= f * f,
            m <= 128,
            reach >= vstd::arithmetic::power2::pow2(m as nat),
            reach >= 1,
            forall|k: nat| k < m ==> !#[trigger] channels_reach(floor as int, ceil as int, k),
        decreases 2 * target - reach,
    {
        proof {
            vstd::arithmetic::power2::lemma_pow2_unfold((m + 1) as nat);
            let p = vstd::arithmetic::power2::pow2(m as nat) as int;
            assert(2 * (f * f * p) == f * f * (2 * p)) by (nonlinear_arith);
            assert(!channels_reach(floor as int, ceil as int, m as nat));
            if m >= 128 {
                vstd::arithmetic::power2::lemma_pow2_adds(64, 64);
                vstd::arithmetic::power2::lemma2_to64_rest();
                assert(vstd::arithmetic::power2::pow2(128) == 0x1_0000_0000_0000_0000
                    * 0x1_0000_0000_0000_0000);
            }
        }
        reach = 2 * reach;
        m = m + 1;
    }
    m
}

/// Whether `l` samples hold one period of channel `ch`, whose frequency lies `ch`
/// half octaves above the first, itself half an octave above `floor`.
pub open spec fn holds_period(fs: int, floor: int, ch: nat, l: int) -> bool {
    l * l * (floor * floor * vstd::arithmetic::power2::pow2(ch + 1)) >= fs * fs
}

/// The length of the filter of channel `ch` in samples: one period of its
/// frequency, rounded up.
pub fn channel_length(fs: u64, floor: u64, ceil: u64, ch: usize) -> (l: usize)
    requires
        0 < floor < ceil <= fs <= MAX_RATE,
        !channels_reach(floor as int, ceil as int, ch as nat),
        fs <= floor * MAX_WINDOW,
    ensures
        holds_period(fs as int, floor as int, ch as nat, l as int),
        l > 0 && !holds_period(fs as int, floor as int, ch as nat, l - 1),
        l <= MAX_WINDOW,
{
    let f: u128 = floor as u128;
    let r: u128 = fs as u128;
    let ghost c = ceil as int;
    assert(1 <= f * f <= r * r <= 81_000_000_000_000_000_000_000_000_000_000_000_000) by (nonlinear_arith)
        requires
            1 <= f <= r <= 9_000_000_000_000_000_000,
    ;
    assert(c * c <= r * r) by (nonlinear_arith)
        requires
            0 < c <= r,
    ;
    assert(f * f < c * c) by (nonlinear_arith)
        requires
            1 <= f < c,
    ;
    let target: u128 = r * r;
    let mut d: u128 = f * f;
    let mut k: usize = 0;
    proof {
        vstd::arithmetic::power2::lemma2_to64();
        assert(f * f * 1 == f * f);
    }
    while k < ch
        invariant
            f == floor,
            c == ceil,
            0 < f,
            c * c <= 81_000_000_000_000_000_000_000_000_000_000_000_000,
            k <= ch,
            d == f * f * vstd::arithmetic::power2::pow2(k as nat),
            d < c * c || k == 0,
            f * f < c * c,
            !channels_reach(floor as int, ceil as int, ch as nat),
        decreases ch - k,
    {
        proof {
            let p = vstd::arithmetic::power2::pow2(k as nat) as int;
            vstd::arithmetic::power2::lemma_pow2_unfold((k + 1) as nat);
            assert(2 * (f * f * p) == f * f * (2 * p)) by (nonlinear_arith);
            if k + 1 < ch {
                vstd::arithmetic::power2::lemma_pow2_strictly_increases((k + 1) as nat, ch as nat);
            }
            let q = vstd::arithmetic::power2::pow2((k + 1) as nat) as int;
            let w = vstd::arithmetic::power2::pow2(ch as nat) as int;
            assert(f * f * q <= f * f * w) by (nonlinear_arith)
                requires
                    q <= w,
                    f >= 0,
            ;
        }
        d = 2 * d;
        k = k + 1;
    }
    proof {
        let p = vstd::arithmetic::power2::pow2(ch as nat) as int;
        vstd::arithmetic::power2::lemma_pow2_unfold((ch + 1) as nat);
        assert(2 * (f * f * p) == f * f * (2 * p)) by (nonlinear_arith);
    }
    d = 2 * d;
    let ghost full = d as int;
    proof {
        let p = vstd::arithmetic::power2::pow2((ch + 1) as nat) as int;
        assert(full == f * f * p);
        vstd::arithmetic::power2::lemma_pow2_pos((ch + 1) as nat);
        assert(f * f <= full) by (nonlinear_arith)
            requires
                full == f * f * p,
                p >= 1,
                f >= 0,
        ;
    }
    let mut l: usize = 1;
    let mut area: u128 = d;
    assert((l - 1) * (l - 1) * full == 0 && l * l * full == full) by (nonlinear_arith)
        requires
            l == 1,
    ;
    while area < target
        invariant
            f == floor,
            r == fs,
            target == r * r,
            target <= 81_000_000_000_000_000_000_000_000_000_000_000_000,
            d == full,
            full == f * f * vstd::arithmetic::power2::pow2((ch + 1) as nat),
            f * f <= full,
            full >= 1,
            1 <= l <= MAX_WINDOW,
            area == l * l * full,
            (l - 1) * (l - 1) * full < target,
            r <= f * MAX_WINDOW,
        decreases MAX_WINDOW - l,
    {
        proof {
            let n = MAX_WINDOW as int;
            if l >= n {
                assert(n * n * full >= r * r) by (nonlinear_arith)
                    requires
                        r <= f * n,
                        f * f <= full,
                        n >= 0,
                        r >= 0,
                        f >= 0,
                ;
            }
            assert((l + 1) * (l + 1) * full <= 4 * (l * l * full)) by (nonlinear_arith)
                requires
                    l >= 1,
                    full >= 0,
            ;
            assert((l + 1) * (l + 1) * full == l * l * full + (2 * l + 1) * full)
                by (nonlinear_arith);
            assert((2 * l + 1) * full >= 0) by (nonlinear_arith)
                requires
                    l >= 1,
                    full >= 0,
            ;
        }
        let more: u128 = (2 * l as u128 + 1) * d;
        area = area + more;
        l = l + 1;
    }
    l
}

/// Whether a frame of `len` samples fits one period of overlap at `lag`, and over
/// how many samples it is then compared with itself.
pub fn overlap_at_lag(len: usize, lag: usize) -> (span: Option<usize>)
    ensures
        span == (if lag > 0 && 2 * lag <= len {
            Some((len - lag) as usize)
        } else {
            None
        }),
{
    if lag == 0 || lag > len || len - lag < lag {
        None
    } else {
        Some(len - lag)
    }
}

/// The quefrencies of the pitch range, first to last, where there is more than one.
pub fn quefrency_range(fs: u64, floor: u64, ceil: u64, numbins: usize) -> (range: Option<
    (usize, usize),
>)
    requires
        0 < floor,
        0 < ceil,
        0 < numbins,
    ensures
        ({
            let lo = (fs + ceil - 1) / ceil as int;
            let hi = min_of(fs as int / floor as int, numbins - 1);
            match range {
                Some(r) => lo < hi && r.0 == lo && r.1 == hi,
                None => lo >= hi,
            }
        }),
{
    let lo: u128 = (fs as u128 + ceil as u128 - 1) / ceil as u128;
    let wide: u128 = fs as u128 / floor as u128;
    let hi: usize = if wide < (numbins - 1) as u128 { wide as usize } else { numbins - 1 };
    if lo >= hi as u128 {
        None
    } else {
        Some((lo as usize, hi))
    }
}

} // verus!
