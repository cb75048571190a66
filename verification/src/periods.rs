//! Laws of pitch estimation: what the landmarks of a waveform say of its period, and which
//! candidate is chosen.

use crate::num::{lemma_rounded_quotient, rounded_quotient};
use crate::pitch::{
    accepted, best_of, channels_reach, has_landmark, holds_period, interval_at, interval_count,
    interval_sum, inverse_sum, irregular, landmark_pitch, last_landmark, settled, total_count,
    total_interval, Candidate, Fraction, Landmark, PitchRange, Ranked,
};
use vstd::arithmetic::power2::pow2;
use vstd::prelude::*;

verus! {

// --- landmarks --------------------------------------------------------------

/// The kind that a landmark becomes when the waveform is turned upside down.
pub open spec fn turned(kind: Landmark) -> Landmark {
    match kind {
        Landmark::Rise => Landmark::Fall,
        Landmark::Fall => Landmark::Rise,
        Landmark::Valley => Landmark::Crest,
        Landmark::Crest => Landmark::Valley,
    }
}

/// Landmarks do not depend on the size of a waveform, and turn with it: upside down, its
/// rises are falls and its crests are valleys.
pub proof fn lemma_landmarks_turn(x: Seq<i64>, y: Seq<i64>, scale: int, kind: Landmark, i: int)
    requires
        y.len() == x.len(),
        1 <= i < x.len() - 1,
        scale != 0,
        forall|j: int| 0 <= j < x.len() ==> #[trigger] y[j] == scale * x[j],
    ensures
        scale > 0 ==> has_landmark(y, kind, i) == has_landmark(x, kind, i),
        scale < 0 ==> has_landmark(y, turned(kind), i) == has_landmark(x, kind, i),
{
    let a = x[i - 1] as int;
    let b = x[i] as int;
    let c = x[i + 1] as int;
    assert(y[i - 1] == scale * a && y[i] == scale * b && y[i + 1] == scale * c);
    lemma_sign(scale, a);
    lemma_sign(scale, b);
    lemma_sign(scale, a - b);
    lemma_sign(scale, c - b);
    assert(scale * (a - b) == scale * a - scale * b && scale * (c - b) == scale * c - scale * b)
        by (nonlinear_arith);
}

proof fn lemma_sign(scale: int, v: int)
    requires
        scale != 0,
    ensures
        scale > 0 ==> (scale * v > 0 <==> v > 0) && (scale * v < 0 <==> v < 0),
        scale < 0 ==> (scale * v > 0 <==> v < 0) && (scale * v < 0 <==> v > 0),
{
    assert(scale > 0 ==> (scale * v > 0 <==> v > 0) && (scale * v < 0 <==> v < 0))
        by (nonlinear_arith);
    assert(scale < 0 ==> (scale * v > 0 <==> v < 0) && (scale * v < 0 <==> v > 0))
        by (nonlinear_arith);
}

/// What the four landmarks are: a rise goes from below zero to zero or above, a fall from
/// above zero to zero or below, a valley is below what comes before and not above what
/// comes after, and a crest is above what comes before and not below what comes after.
pub proof fn lemma_landmarks(x: Seq<i64>, i: int)
    ensures
        has_landmark(x, Landmark::Rise, i) <==> x[i - 1] < 0 <= x[i],
        has_landmark(x, Landmark::Fall, i) <==> x[i] <= 0 < x[i - 1],
        has_landmark(x, Landmark::Valley, i) <==> x[i - 1] > x[i] && x[i] <= x[i + 1],
        has_landmark(x, Landmark::Crest, i) <==> x[i - 1] < x[i] && x[i] >= x[i + 1],
{
}

proof fn lemma_last_landmark_is(x: Seq<i64>, kind: Landmark, j: int, i: int)
    requires
        0 <= j <= i,
        j > 0 ==> has_landmark(x, kind, j),
        forall|m: int| j < m <= i ==> !#[trigger] has_landmark(x, kind, m),
    ensures
        last_landmark(x, kind, i) == j,
    decreases i - j,
{
    if j < i {
        assert(!has_landmark(x, kind, i));
        lemma_last_landmark_is(x, kind, j, i - 1);
    }
}

/// An interval is the distance between two landmarks of a kind with none of that kind between
/// them. A sample without a landmark ends none, and neither does the first landmark; a crest
/// at sample 1 begins none.
pub proof fn lemma_interval_between_landmarks(x: Seq<i64>, kind: Landmark, j: int, i: int)
    requires
        0 <= j < i,
        j > 0 ==> has_landmark(x, kind, j),
        forall|m: int| j < m < i ==> !#[trigger] has_landmark(x, kind, m),
    ensures
        !has_landmark(x, kind, i) || j == 0 ==> interval_at(x, kind, i) == 0,
        has_landmark(x, kind, i) && j > 0 && !(kind is Crest && j == 1) ==> interval_at(x, kind, i)
            == i - j,
        kind is Crest && j == 1 ==> interval_at(x, kind, i) == 0,
{
    lemma_last_landmark_is(x, kind, j, i - 1);
}

/// How many landmarks of a kind lie among samples `a + 1` to `k`.
pub open spec fn landmarks_after(x: Seq<i64>, kind: Landmark, a: int, k: int) -> int
    decreases k - a,
{
    if k <= a {
        0
    } else {
        landmarks_after(x, kind, a, k - 1) + (if has_landmark(x, kind, k) { 1int } else { 0 })
    }
}

/// The intervals of a kind fill the way from its first landmark to its last, and there is one
/// for each landmark but the first.
pub proof fn lemma_intervals_fill(x: Seq<i64>, kind: Landmark, a: int, k: int)
    requires
        1 <= a <= k,
        kind is Crest ==> a >= 2,
        has_landmark(x, kind, a),
        forall|m: int| 1 <= m < a ==> !#[trigger] has_landmark(x, kind, m),
    ensures
        a <= last_landmark(x, kind, k) <= k,
        has_landmark(x, kind, last_landmark(x, kind, k)),
        interval_sum(x, kind, k) == last_landmark(x, kind, k) - a,
        interval_count(x, kind, k) == landmarks_after(x, kind, a, k),
    decreases k,
{
    if k > a {
        lemma_intervals_fill(x, kind, a, k - 1);
    } else {
        lemma_no_intervals(x, kind, a - 1);
        assert(last_landmark(x, kind, a - 1) == 0) by {
            lemma_last_landmark_is(x, kind, 0, a - 1);
        }
    }
}

proof fn lemma_no_intervals(x: Seq<i64>, kind: Landmark, k: int)
    requires
        forall|m: int| 1 <= m <= k ==> !#[trigger] has_landmark(x, kind, m),
    ensures
        interval_sum(x, kind, k) == 0,
        interval_count(x, kind, k) == 0,
    decreases k,
{
    if k > 0 {
        lemma_no_intervals(x, kind, k - 1);
        assert(!has_landmark(x, kind, k));
    }
}

// --- pitch ------------------------------------------------------------------

/// Whether every interval of every kind that ends among samples 1 to `k` is `d` long.
pub open spec fn evenly_spaced(x: Seq<i64>, d: int, k: int) -> bool {
    forall|i: int|
        #![trigger interval_at(x, Landmark::Rise, i)]
        1 <= i <= k ==> {
            &&& interval_at(x, Landmark::Rise, i) == 0 || interval_at(x, Landmark::Rise, i) == d
            &&& interval_at(x, Landmark::Fall, i) == 0 || interval_at(x, Landmark::Fall, i) == d
            &&& interval_at(x, Landmark::Valley, i) == 0 || interval_at(x, Landmark::Valley, i)
                == d
            &&& interval_at(x, Landmark::Crest, i) == 0 || interval_at(x, Landmark::Crest, i) == d
        }
}

/// Whether a fraction is `count` times the inverse of `d`.
spec fn is_multiple(f: Fraction, count: int, d: int) -> bool {
    f.den >= 1 && f.num * d == count * f.den
}

proof fn lemma_one_inverse(f: Fraction, count: int, d: int, interval: int)
    requires
        d >= 1,
        is_multiple(f, count, d),
        interval == 0 || interval == d,
    ensures
        is_multiple(
            f.plus_inverse(interval),
            count + (if interval > 0 {
                1int
            } else {
                0
            }),
            d,
        ),
{
    if interval > 0 {
        let n = f.num * d + f.den;
        let m = f.den * d;
        assert(n * d == (count + 1) * m) by (nonlinear_arith)
            requires
                n == f.num * d + f.den,
                m == f.den * d,
                f.num * d == count * f.den,
        ;
        assert(m >= 1) by (nonlinear_arith)
            requires
                m == f.den * d,
                f.den >= 1,
                d >= 1,
        ;
    }
}

proof fn lemma_even_sums(x: Seq<i64>, d: int, k: int)
    requires
        d >= 1,
        evenly_spaced(x, d, k),
    ensures
        total_interval(x, k) == d * total_count(x, k),
        total_count(x, k) >= 0,
        is_multiple(inverse_sum(x, k), total_count(x, k), d),
    decreases k,
{
    if k > 0 {
        assert(evenly_spaced(x, d, k - 1));
        lemma_even_sums(x, d, k - 1);
        let r = interval_at(x, Landmark::Rise, k);
        let f = interval_at(x, Landmark::Fall, k);
        let v = interval_at(x, Landmark::Valley, k);
        let c = interval_at(x, Landmark::Crest, k);
        let one = |i: int| if i > 0 { 1int } else { 0 };
        let n = total_count(x, k - 1);
        let i0 = inverse_sum(x, k - 1);
        let i1 = i0.plus_inverse(r);
        let i2 = i1.plus_inverse(f);
        let i3 = i2.plus_inverse(v);
        lemma_one_inverse(i0, n, d, r);
        lemma_one_inverse(i1, n + one(r), d, f);
        lemma_one_inverse(i2, n + one(r) + one(f), d, v);
        lemma_one_inverse(i3, n + one(r) + one(f) + one(v), d, c);
        let more = one(r) + one(f) + one(v) + one(c);
        assert(d * (n + more) == d * n + d * more) by (nonlinear_arith);
        assert(d * one(r) == r && d * one(f) == f && d * one(v) == v && d * one(c) == c)
            by (nonlinear_arith)
            requires
                one(r) == (if r > 0 { 1int } else { 0 }),
                one(f) == (if f > 0 { 1int } else { 0 }),
                one(v) == (if v > 0 { 1int } else { 0 }),
                one(c) == (if c > 0 { 1int } else { 0 }),
                r == 0 || r == d,
                f == 0 || f == d,
                v == 0 || v == d,
                c == 0 || c == d,
                d >= 1,
        ;
        assert(d * more == d * one(r) + d * one(f) + d * one(v) + d * one(c)) by (nonlinear_arith)
            requires
                more == one(r) + one(f) + one(v) + one(c),
        ;
        assert(total_count(x, k) == n + more);
    } else {
        assert(0 * d == 0 && d * 0 == 0);
    }
}

/// A waveform whose landmarks all come `d` samples apart has the pitch `fs / d`, to the
/// nearest nanohertz.
pub proof fn lemma_even_landmarks_tell_pitch(x: Seq<i64>, fs: int, d: int)
    requires
        x.len() >= 2,
        fs > 0,
        d >= 2,
        evenly_spaced(x, d, x.len() - 2),
        total_count(x, x.len() - 2) > 0,
    ensures
        landmark_pitch(x, fs) matches Some(p) && -d <= 2 * (fs - p * d) < d,
{
    let last = x.len() - 2;
    lemma_even_sums(x, d, last);
    let n = total_count(x, last);
    let t = total_interval(x, last);
    let f = inverse_sum(x, last);
    assert(t >= 2 * n && t > 0) by (nonlinear_arith)
        requires
            t == d * n,
            d >= 2,
            n > 0,
    ;
    assert(!irregular(fs, n, t, f)) by {
        assert(fs * t * f.num == f.den * (fs * n * n)) by (nonlinear_arith)
            requires
                t == d * n,
                f.num * d == n * f.den,
        ;
        assert(f.den * (1_000_000_000 * n * t) >= 0) by (nonlinear_arith)
            requires
                f.den >= 1,
                n > 0,
                t > 0,
        ;
    }
    let p = rounded_quotient(fs * n, t);
    lemma_rounded_quotient(fs * n, t, 0);
    assert(-d <= 2 * (fs - p * d) < d) by (nonlinear_arith)
        requires
            -t <= 2 * (fs * n - p * t) < t,
            t == d * n,
            n > 0,
    ;
}

/// When two intervals are too irregular for a pitch: when the variance of their frequencies
/// is above their mean, which is when the square of their difference, at the sampling rate,
/// is above two hertz times their sum and their product.
pub proof fn lemma_two_intervals_irregular(fs: int, a: int, b: int)
    requires
        a > 0,
        b > 0,
    ensures
        irregular(fs, 2, a + b, Fraction { num: a + b, den: a * b }) <==> fs * ((a - b) * (a - b))
            > 2_000_000_000 * ((a + b) * (a * b)),
{
    let t = a + b;
    let m = a * b;
    assert(fs * t * t == fs * ((a - b) * (a - b)) + 4 * (fs * m)) by (nonlinear_arith)
        requires
            t == a + b,
            m == a * b,
    ;
    assert(m * (fs * 2 * 2) == 4 * (fs * m)) by (nonlinear_arith);
    assert(m * (1_000_000_000 * 2 * t) == 2_000_000_000 * (t * m)) by (nonlinear_arith);
}

/// A fraction and an inverse make the fraction of their sum.
pub proof fn lemma_plus_inverse_adds(f: Fraction, d: int)
    requires
        d > 0,
    ensures
        f.plus_inverse(d).num * (f.den * d) == f.plus_inverse(d).den * (f.num * d + f.den),
        f.den > 0 ==> f.plus_inverse(d).den > 0,
        f.plus_inverse(0) == f,
{
    let n = f.num * d + f.den;
    let m = f.den * d;
    assert(n * m == m * n) by (nonlinear_arith);
    assert(f.den > 0 ==> m > 0) by (nonlinear_arith)
        requires
            m == f.den * d,
            d > 0,
    ;
}

/// A pitch that is found is the mean frequency of the intervals, to the nearest nanohertz, and
/// lies above zero and not above half the sampling rate, as far as rounding allows.
pub proof fn lemma_pitch_is_mean_frequency(x: Seq<i64>, fs: int)
    requires
        x.len() >= 2,
        landmark_pitch(x, fs) is Some,
    ensures
        ({
            let p = landmark_pitch(x, fs)->0;
            let n = total_count(x, x.len() - 2);
            let t = total_interval(x, x.len() - 2);
            &&& t > 0 && 2 * n <= t && fs > 0
            &&& -t <= 2 * (fs * n - p * t) < t
            &&& 2 * p <= fs + 1
        }),
{
    let n = total_count(x, x.len() - 2);
    let t = total_interval(x, x.len() - 2);
    let p = landmark_pitch(x, fs)->0;
    lemma_rounded_quotient(fs * n, t, 0);
    assert(2 * p <= fs + 1) by (nonlinear_arith)
        requires
            -t <= 2 * (fs * n - p * t),
            2 * n <= t,
            t > 0,
            fs > 0,
    ;
}

// --- candidates -------------------------------------------------------------

/// Which candidate is chosen: of those whose score is highest, the first, and the one that
/// the search begins with only where none is above it.
pub proof fn lemma_first_of_the_best<T>(best: Candidate<T>, candidates: Seq<Candidate<T>>, i: int)
    requires
        best.score.rank is Some,
        forall|j: int| 0 <= j < candidates.len() ==> (#[trigger] candidates[j]).score.rank is Some,
        -1 <= i < candidates.len(),
        ({
            let top = if i >= 0 { candidates[i].score.rank->0 } else { best.score.rank->0 };
            &&& i >= 0 ==> best.score.rank->0 < top
            &&& forall|j: int|
                0 <= j < i ==> (#[trigger] candidates[j]).score.rank->0 < top
            &&& forall|j: int|
                i < j < candidates.len() ==> (#[trigger] candidates[j]).score.rank->0 <= top
        }),
    ensures
        best_of(best, candidates, candidates.len() as int) == (if i >= 0 {
            candidates[i]
        } else {
            best
        }),
{
    lemma_best_prefix(best, candidates, i, candidates.len() as int);
}

proof fn lemma_best_prefix<T>(best: Candidate<T>, candidates: Seq<Candidate<T>>, i: int, k: int)
    requires
        best.score.rank is Some,
        forall|j: int| 0 <= j < candidates.len() ==> (#[trigger] candidates[j]).score.rank is Some,
        -1 <= i < candidates.len(),
        0 <= k <= candidates.len(),
        ({
            let top = if i >= 0 { candidates[i].score.rank->0 } else { best.score.rank->0 };
            &&& i >= 0 ==> best.score.rank->0 < top
            &&& forall|j: int|
                0 <= j < i ==> (#[trigger] candidates[j]).score.rank->0 < top
            &&& forall|j: int|
                i < j < candidates.len() ==> (#[trigger] candidates[j]).score.rank->0 <= top
        }),
    ensures
        ({
            let top = if i >= 0 { candidates[i].score.rank->0 } else { best.score.rank->0 };
            let b = best_of(best, candidates, k);
            &&& b.score.rank is Some
            &&& k > i ==> b == (if i >= 0 { candidates[i] } else { best })
            &&& k <= i ==> b.score.rank->0 < top
        }),
    decreases k,
{
    if k > 0 {
        lemma_best_prefix(best, candidates, i, k - 1);
        assert(candidates[k - 1].score.rank is Some);
    }
}

/// A candidate without a score that is a number is never chosen, and one that the search
/// begins with stays where its own score is none.
pub proof fn lemma_scoreless_never_chosen<T>(
    best: Candidate<T>,
    candidates: Seq<Candidate<T>>,
    k: int,
)
    requires
        0 <= k <= candidates.len(),
    ensures
        best.score.rank is None ==> best_of(best, candidates, k) == best,
        best.score.rank is Some ==> best_of(best, candidates, k).score.rank is Some,
    decreases k,
{
    if k > 0 {
        lemma_scoreless_never_chosen(best, candidates, k - 1);
    }
}

/// The best candidate is taken as the pitch when its pitch is not a number outside the range
/// and its score is not a negative number.
pub proof fn lemma_accepted<T>(range: PitchRange, best: Candidate<T>)
    ensures
        accepted(range, best) <==> (best.fo.rank is None || range.floor <= best.fo.rank->0
            <= range.ceil) && (best.score.rank is None || best.score.rank->0 >= 0),
{
}

/// Refinement is taken unless it leads to a number outside the range or further than the
/// pitch itself.
pub proof fn lemma_settled<T>(
    range: PitchRange,
    fo: Ranked<T>,
    refined: Ranked<T>,
    gap: Option<i64>,
)
    ensures
        (refined.rank is None || range.floor <= refined.rank->0 <= range.ceil) && (fo.rank is None
            || gap is None || gap->0 <= fo.rank->0) ==> settled(range, fo, refined, gap) == refined,
        refined.rank is Some && (refined.rank->0 < range.floor || refined.rank->0 > range.ceil)
            ==> settled(range, fo, refined, gap) == fo,
        fo.rank is Some && gap is Some && gap->0 > fo.rank->0 ==> settled(range, fo, refined, gap)
            == fo,
{
}

// --- channels ---------------------------------------------------------------

/// Two channels are an octave: one octave more takes two channels more, none reaches the
/// frequency that it starts from, and two reach twice that.
pub proof fn lemma_channels_are_half_octaves(floor: int, ceil: int, m: nat)
    requires
        floor > 0,
        ceil > 0,
    ensures
        channels_reach(floor, 2 * ceil, m + 2) == channels_reach(floor, ceil, m),
        channels_reach(floor, ceil, 0) <==> ceil <= floor,
        channels_reach(floor, ceil, 2) <==> ceil <= 2 * floor,
        channels_reach(floor, ceil, m) ==> channels_reach(floor, ceil, m + 1),
{
    vstd::arithmetic::power2::lemma2_to64();
    vstd::arithmetic::power2::lemma_pow2_pos(m);
    vstd::arithmetic::power2::lemma_pow2_unfold(m + 1);
    vstd::arithmetic::power2::lemma_pow2_unfold(m + 2);
    let p = pow2(m) as int;
    let f = floor * floor;
    let c = ceil * ceil;
    assert((2 * ceil) * (2 * ceil) == 4 * c && f * (4 * p) == 4 * (f * p) && f * (2 * p) == 2 * (f
        * p)) by (nonlinear_arith)
        requires
            c == ceil * ceil,
    ;
    assert(f * 1 == f);
    assert(f * p >= 0) by (nonlinear_arith)
        requires
            f == floor * floor,
            p >= 0,
    ;
    assert(c <= f <==> ceil <= floor) by (nonlinear_arith)
        requires
            c == ceil * ceil,
            f == floor * floor,
            ceil > 0,
            floor > 0,
    ;
    assert(c <= f * 4 <==> ceil <= 2 * floor) by (nonlinear_arith)
        requires
            c == ceil * ceil,
            f == floor * floor,
            ceil > 0,
            floor > 0,
    ;
}

/// A channel two further up is an octave higher: its period is that of the same channel above
/// twice the floor. The second channel lies an octave above the floor: `l` samples hold its
/// period when twice the floor over the sampling rate is at least one in `l`.
pub proof fn lemma_channel_periods(fs: int, floor: int, ch: nat, l: int)
    requires
        fs > 0,
        floor > 0,
        l >= 0,
    ensures
        holds_period(fs, floor, ch + 2, l) == holds_period(fs, 2 * floor, ch, l),
        holds_period(fs, floor, 1, l) <==> l * (2 * floor) >= fs,
        holds_period(fs, floor, 0, l) <==> 2 * (l * floor) * (l * floor) >= fs * fs,
        holds_period(fs, floor, ch, l) ==> holds_period(fs, floor, ch, l + 1),
{
    vstd::arithmetic::power2::lemma2_to64();
    vstd::arithmetic::power2::lemma_pow2_pos(ch + 1);
    vstd::arithmetic::power2::lemma_pow2_unfold(ch + 2);
    vstd::arithmetic::power2::lemma_pow2_unfold(ch + 3);
    let p = pow2(ch + 1) as int;
    let f = floor * floor;
    assert((2 * floor) * (2 * floor) == 4 * f && f * (4 * p) == 4 * f * p) by (nonlinear_arith)
        requires
            f == floor * floor,
    ;
    let a = l * (2 * floor);
    assert(l * l * (f * 4) == a * a) by (nonlinear_arith)
        requires
            f == floor * floor,
            a == l * (2 * floor),
    ;
    assert(a >= 0) by (nonlinear_arith)
        requires
            a == l * (2 * floor),
            l >= 0,
            floor > 0,
    ;
    assert(a * a >= fs * fs <==> a >= fs) by (nonlinear_arith)
        requires
            a >= 0,
            fs > 0,
    ;
    assert(l * l * (f * 2) == 2 * (l * floor) * (l * floor)) by (nonlinear_arith)
        requires
            f == floor * floor,
    ;
    let q = f * p;
    assert(q >= 0) by (nonlinear_arith)
        requires
            q == f * p,
            f == floor * floor,
            p >= 0,
    ;
    assert(l * l * q <= (l + 1) * (l + 1) * q) by (nonlinear_arith)
        requires
            q >= 0,
            l >= 0,
    ;
}

// --- sums of intervals ------------------------------------------------------

/// Sums and counts take every interval once, and the sum of inverses takes the inverse of each, of all
/// four kinds.
pub proof fn lemma_intervals_add_up(x: Seq<i64>, kind: Landmark, k: int)
    requires
        k >= 1,
    ensures
        interval_sum(x, kind, 0) == 0,
        interval_count(x, kind, 0) == 0,
        interval_sum(x, kind, k) - interval_sum(x, kind, k - 1) == interval_at(x, kind, k),
        interval_count(x, kind, k) - interval_count(x, kind, k - 1) == (if interval_at(x, kind, k)
            > 0 {
            1int
        } else {
            0
        }),
        total_interval(x, k) - total_interval(x, k - 1) == interval_at(x, Landmark::Rise, k)
            + interval_at(x, Landmark::Fall, k) + interval_at(x, Landmark::Valley, k) + interval_at(
            x,
            Landmark::Crest,
            k,
        ),
        inverse_sum(x, 0) == (Fraction { num: 0, den: 1 }),
        inverse_sum(x, k) == inverse_sum(x, k - 1).plus_inverse(
            interval_at(x, Landmark::Rise, k),
        ).plus_inverse(interval_at(x, Landmark::Fall, k)).plus_inverse(
            interval_at(x, Landmark::Valley, k),
        ).plus_inverse(interval_at(x, Landmark::Crest, k)),
{
}

/// When intervals are too irregular: when the mean square of their frequencies less the square of their
/// mean, both weighted by the intervals and in hertz, is above their mean.
pub proof fn lemma_irregular_is_variance_above_mean(fs: int, count: int, total: int, f: Fraction)
    ensures
        irregular(fs, count, total, f) <==> fs * (total * f.num - f.den * (count * count))
            > 1_000_000_000 * (f.den * (count * total)),
{
    let a = total * f.num;
    let b = f.den * (count * count);
    assert(fs * total * f.num == fs * a) by (nonlinear_arith)
        requires
            a == total * f.num,
    ;
    assert(f.den * (fs * count * count) == fs * b) by (nonlinear_arith)
        requires
            b == f.den * (count * count),
    ;
    assert(fs * (a - b) == fs * a - fs * b) by (nonlinear_arith);
    assert(f.den * (1_000_000_000 * count * total) == 1_000_000_000 * (f.den * (count * total)))
        by (nonlinear_arith);
}

/// A waveform has a pitch exactly if it has intervals, the sampling rate is above zero, their mean
/// frequency is not above half of it, and they are not too irregular.
pub proof fn lemma_when_there_is_a_pitch(x: Seq<i64>, fs: int)
    requires
        x.len() >= 2,
    ensures
        ({
            let k = x.len() - 2;
            landmark_pitch(x, fs) is Some <==> total_interval(x, k) > 0 && fs > 0 && 2 * total_count(
                x,
                k,
            ) <= total_interval(x, k) && !irregular(
                fs,
                total_count(x, k),
                total_interval(x, k),
                inverse_sum(x, k),
            )
        }),
{
}

} // verus!
