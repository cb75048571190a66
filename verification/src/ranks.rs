//! Medians by counting: where the upper median stands among its samples.

use crate::contour::{
    clean_source, cleaned_cents, cleaned_fo, first_at, voiced_fo, window_end, window_start, Frame,
};
use crate::median::{ascending, lemma_ascending, lemma_ascending_unique, upper_median};
use vstd::multiset::Multiset;
use vstd::prelude::*;

verus! {

/// How many of the first `k` samples lie below `v`.
pub open spec fn count_below(s: Seq<i64>, v: int, k: int) -> int
    decreases k,
{
    if k <= 0 {
        0
    } else {
        count_below(s, v, k - 1) + (if s[k - 1] < v { 1int } else { 0 })
    }
}

/// How many of the first `k` samples lie above `v`.
pub open spec fn count_above(s: Seq<i64>, v: int, k: int) -> int
    decreases k,
{
    if k <= 0 {
        0
    } else {
        count_above(s, v, k - 1) + (if s[k - 1] > v { 1int } else { 0 })
    }
}

spec fn lower(v: int) -> spec_fn(i64) -> bool {
    |x: i64| x < v
}

spec fn higher(v: int) -> spec_fn(i64) -> bool {
    |x: i64| x > v
}

proof fn lemma_filter_insert(m: Multiset<i64>, f: spec_fn(i64) -> bool, x: i64)
    ensures
        m.insert(x).filter(f).len() == m.filter(f).len() + (if f(x) {
            1int
        } else {
            0
        }),
{
    broadcast use vstd::multiset::group_multiset_axioms;

    if f(x) {
        assert(m.insert(x).filter(f) =~= m.filter(f).insert(x));
    } else {
        assert(m.insert(x).filter(f) =~= m.filter(f));
    }
}

proof fn lemma_counts_by_multiset(s: Seq<i64>, v: int, k: int)
    requires
        0 <= k <= s.len(),
    ensures
        count_below(s, v, k) == s.take(k).to_multiset().filter(lower(v)).len(),
        count_above(s, v, k) == s.take(k).to_multiset().filter(higher(v)).len(),
    decreases k,
{
    broadcast use vstd::seq_lib::group_to_multiset_ensures;
    broadcast use vstd::multiset::group_multiset_axioms;

    if k > 0 {
        lemma_counts_by_multiset(s, v, k - 1);
        let before = s.take(k - 1);
        assert(s.take(k) =~= before.push(s[k - 1]));
        lemma_filter_insert(before.to_multiset(), lower(v), s[k - 1]);
        lemma_filter_insert(before.to_multiset(), higher(v), s[k - 1]);
    } else {
        assert(s.take(0) =~= Seq::<i64>::empty());
        assert(s.take(0).to_multiset().len() == 0);
        assert(s.take(0).to_multiset() =~= Multiset::empty());
        assert(s.take(0).to_multiset().filter(lower(v)) =~= Multiset::empty());
        assert(s.take(0).to_multiset().filter(higher(v)) =~= Multiset::empty());
    }
}

proof fn lemma_counts_of_sorted(r: Seq<i64>, h: int, k: int)
    requires
        0 <= h < r.len(),
        0 <= k <= r.len(),
        forall|i: int, j: int| 0 <= i <= j < r.len() ==> r[i] <= r[j],
    ensures
        count_below(r, r[h] as int, k) <= (if k <= h { k } else { h }),
        count_above(r, r[h] as int, k) <= (if k <= h { 0 } else { k - h - 1 }),
    decreases k,
{
    if k > 0 {
        lemma_counts_of_sorted(r, h, k - 1);
        if k - 1 >= h {
            assert(r[h] <= r[k - 1]);
        }
        if k - 1 <= h {
            assert(r[k - 1] <= r[h]);
        }
    }
}

/// At most half of the samples lie below the upper median, and fewer than half above it.
pub proof fn lemma_median_counts(s: Seq<i64>)
    requires
        s.len() > 0,
    ensures
        ({
            let n = s.len() as int;
            &&& 2 * count_below(s, upper_median(s) as int, n) <= n
            &&& 2 * count_above(s, upper_median(s) as int, n) < n
        }),
{
    let n = s.len() as int;
    let m = upper_median(s);
    let r = ascending(s);
    lemma_ascending(s);
    lemma_counts_by_multiset(s, m as int, n);
    lemma_counts_by_multiset(r, m as int, n);
    assert(s.take(n) =~= s);
    assert(r.take(n) =~= r);
    lemma_counts_of_sorted(r, n / 2, n);
}

proof fn lemma_counts_overlap(s: Seq<i64>, low: int, high: int, k: int)
    requires
        low < high,
        0 <= k <= s.len(),
    ensures
        count_above(s, low, k) + count_below(s, high, k) >= k,
    decreases k,
{
    if k > 0 {
        lemma_counts_overlap(s, low, high, k - 1);
    }
}

/// The upper median is the only number with at most half of the samples below it and fewer
/// than half above it.
pub proof fn lemma_median_by_counts(s: Seq<i64>, m: int)
    requires
        s.len() > 0,
        2 * count_below(s, m, s.len() as int) <= s.len(),
        2 * count_above(s, m, s.len() as int) < s.len(),
    ensures
        upper_median(s) == m,
{
    let n = s.len() as int;
    lemma_median_counts(s);
    let u = upper_median(s) as int;
    if m < u {
        lemma_counts_overlap(s, m, u, n);
    }
    if u < m {
        lemma_counts_overlap(s, u, m, n);
    }
}

/// The upper median is the sample in the middle of any arrangement in order, the upper of
/// the two where their number is even.
pub proof fn lemma_median_is_in_the_middle(s: Seq<i64>, r: Seq<i64>)
    requires
        s.len() > 0,
        r.to_multiset() == s.to_multiset(),
        forall|i: int, j: int| 0 <= i <= j < r.len() ==> r[i] <= r[j],
    ensures
        upper_median(s) == r[s.len() as int / 2],
{
    lemma_ascending_unique(s, r);
}

proof fn lemma_counts_shift(s: Seq<i64>, t: Seq<i64>, c: int, v: int, k: int)
    requires
        0 <= k <= s.len(),
        t.len() == s.len(),
        forall|i: int| 0 <= i < s.len() ==> #[trigger] t[i] == s[i] + c,
    ensures
        count_below(t, v + c, k) == count_below(s, v, k),
        count_above(t, v + c, k) == count_above(s, v, k),
    decreases k,
{
    if k > 0 {
        lemma_counts_shift(s, t, c, v, k - 1);
    }
}

/// Moving all samples moves their median with them.
pub proof fn lemma_median_moves(s: Seq<i64>, t: Seq<i64>, c: int)
    requires
        s.len() > 0,
        t.len() == s.len(),
        forall|i: int| 0 <= i < s.len() ==> #[trigger] t[i] == s[i] + c,
    ensures
        upper_median(t) == upper_median(s) + c,
{
    let n = s.len() as int;
    let m = upper_median(s) as int;
    lemma_median_counts(s);
    lemma_counts_shift(s, t, c, m, n);
    lemma_median_by_counts(t, m + c);
}

proof fn lemma_counts_turn(s: Seq<i64>, t: Seq<i64>, c: int, v: int, k: int)
    requires
        0 <= k <= s.len(),
        t.len() == s.len(),
        forall|i: int| 0 <= i < s.len() ==> #[trigger] t[i] == c - s[i],
    ensures
        count_below(t, c - v, k) == count_above(s, v, k),
        count_above(t, c - v, k) == count_below(s, v, k),
    decreases k,
{
    if k > 0 {
        lemma_counts_turn(s, t, c, v, k - 1);
    }
}

/// Turned upside down, an odd number of samples has its median turned with them.
pub proof fn lemma_median_turns(s: Seq<i64>, t: Seq<i64>, c: int)
    requires
        s.len() % 2 == 1,
        t.len() == s.len(),
        forall|i: int| 0 <= i < s.len() ==> #[trigger] t[i] == c - s[i],
    ensures
        upper_median(t) == c - upper_median(s),
{
    let n = s.len() as int;
    let m = upper_median(s) as int;
    lemma_median_counts(s);
    lemma_counts_turn(s, t, c, m, n);
    lemma_median_by_counts(t, c - m);
}

// --- cleaned contours -------------------------------------------------------

/// How many frames from `a` up to `b` are voiced at a frequency below `v`.
pub open spec fn voiced_below(frames: Seq<Frame>, a: int, b: int, v: int) -> int
    decreases b - a,
{
    if b <= a {
        0
    } else {
        voiced_below(frames, a, b - 1, v) + (if frames[b - 1].voiced && frames[b - 1].fo < v {
            1int
        } else {
            0
        })
    }
}

/// How many frames from `a` up to `b` are voiced at a frequency above `v`.
pub open spec fn voiced_above(frames: Seq<Frame>, a: int, b: int, v: int) -> int
    decreases b - a,
{
    if b <= a {
        0
    } else {
        voiced_above(frames, a, b - 1, v) + (if frames[b - 1].voiced && frames[b - 1].fo > v {
            1int
        } else {
            0
        })
    }
}

/// How many frames from `a` up to `b` are voiced.
pub open spec fn voiced_count(frames: Seq<Frame>, a: int, b: int) -> int
    decreases b - a,
{
    if b <= a {
        0
    } else {
        voiced_count(frames, a, b - 1) + (if frames[b - 1].voiced { 1int } else { 0 })
    }
}

proof fn lemma_prefix_counts(s: Seq<i64>, x: i64, v: int, k: int)
    requires
        0 <= k <= s.len(),
    ensures
        count_below(s.push(x), v, k) == count_below(s, v, k),
        count_above(s.push(x), v, k) == count_above(s, v, k),
    decreases k,
{
    if k > 0 {
        lemma_prefix_counts(s, x, v, k - 1);
    }
}

proof fn lemma_voiced_counts(frames: Seq<Frame>, a: int, b: int, v: int)
    requires
        0 <= a <= b <= frames.len(),
    ensures
        ({
            let s = voiced_fo(frames, a, b);
            &&& s.len() == voiced_count(frames, a, b)
            &&& count_below(s, v, s.len() as int) == voiced_below(frames, a, b, v)
            &&& count_above(s, v, s.len() as int) == voiced_above(frames, a, b, v)
        }),
    decreases b - a,
{
    if a < b {
        lemma_voiced_counts(frames, a, b - 1, v);
        let s = voiced_fo(frames, a, b - 1);
        lemma_prefix_counts(s, frames[b - 1].fo, v, s.len() as int);
    }
}

/// The cleaned frequency of a voiced frame is the median of the voiced frames within half
/// the window of it on either side, itself among them: at most half of them lie below it,
/// and fewer than half above it, and no other frequency has that of it. A frame that is not
/// voiced has none.
pub proof fn lemma_cleaned_is_median_around(frames: Seq<Frame>, median_window: int, i: int, v: int)
    requires
        0 <= i < frames.len(),
        median_window >= 0,
    ensures
        ({
            let half = median_window / 2;
            let a = if i - half >= 0 { i - half } else { 0 };
            let b = if i + half < frames.len() { i + half + 1 } else { frames.len() as int };
            let n = voiced_count(frames, a, b);
            let c = cleaned_fo(frames, median_window, i) as int;
            &&& !frames[i].voiced ==> c == 0
            &&& frames[i].voiced ==> {
                &&& n >= 1
                &&& 2 * voiced_below(frames, a, b, c) <= n
                &&& 2 * voiced_above(frames, a, b, c) < n
                &&& 2 * voiced_below(frames, a, b, v) <= n && 2 * voiced_above(frames, a, b, v) < n
                    ==> v == c
            }
        }),
{
    let half = median_window / 2;
    let a = if i - half >= 0 { i - half } else { 0 };
    let b = if i + half < frames.len() { i + half + 1 } else { frames.len() as int };
    if frames[i].voiced {
        let s = voiced_fo(frames, a, b);
        let c = cleaned_fo(frames, median_window, i) as int;
        lemma_one_is_voiced(frames, a, b, i);
        lemma_voiced_counts(frames, a, b, c);
        lemma_voiced_counts(frames, a, b, v);
        lemma_median_counts(s);
        assert(c == upper_median(s));
        if 2 * voiced_below(frames, a, b, v) <= s.len() && 2 * voiced_above(frames, a, b, v)
            < s.len() {
            lemma_median_by_counts(s, v);
        }
    }
}

proof fn lemma_one_is_voiced(frames: Seq<Frame>, a: int, b: int, i: int)
    requires
        0 <= a <= i < b <= frames.len(),
        frames[i].voiced,
    ensures
        voiced_count(frames, a, b) >= 1,
    decreases b - a,
{
    if i < b - 1 {
        lemma_one_is_voiced(frames, a, b - 1, i);
    } else {
        lemma_count_not_negative(frames, a, b - 1);
    }
}

proof fn lemma_count_not_negative(frames: Seq<Frame>, a: int, b: int)
    ensures
        voiced_count(frames, a, b) >= 0,
    decreases b - a,
{
    if a < b {
        lemma_count_not_negative(frames, a, b - 1);
    }
}

proof fn lemma_voiced_among(frames: Seq<Frame>, a: int, b: int, v: i64)
    requires
        0 <= a <= b <= frames.len(),
        voiced_fo(frames, a, b).contains(v),
    ensures
        exists|k: int| a <= k < b && (#[trigger] frames[k]).voiced && frames[k].fo == v,
    decreases b - a,
{
    let s = voiced_fo(frames, a, b);
    let i = choose|i: int| 0 <= i < s.len() && s[i] == v;
    if a < b {
        let t = voiced_fo(frames, a, b - 1);
        if frames[b - 1].voiced && i == t.len() {
            assert(frames[b - 1].fo == v);
        } else {
            assert(t[i] == v);
            lemma_voiced_among(frames, a, b - 1, v);
        }
    }
}

proof fn lemma_first_one(frames: Seq<Frame>, a: int, b: int, v: i64, q: int) -> (k: int)
    requires
        a <= q < b,
        frames[q].voiced && frames[q].fo == v,
    ensures
        first_at(frames, a, b, v, k),
    decreases q - a,
{
    if exists|m: int| a <= m < q && (#[trigger] frames[m]).voiced && frames[m].fo == v {
        let m = choose|m: int| a <= m < q && (#[trigger] frames[m]).voiced && frames[m].fo == v;
        lemma_first_one(frames, a, b, v, m)
    } else {
        q
    }
}

/// The cleaned pitch of a frame is that of a voiced frame within half the window of it, the first
/// there whose frequency is the cleaned one; a frame without a frequency has pitch zero.
pub proof fn lemma_cleaned_pitch_has_its_frequency(
    frames: Seq<Frame>,
    median_window: int,
    i: int,
) -> (k: int)
    requires
        0 <= i < frames.len(),
        median_window >= 0,
    ensures
        ({
            let v = cleaned_fo(frames, median_window, i);
            let half = median_window / 2;
            &&& v <= 0 ==> cleaned_cents(frames, median_window, i) == 0
            &&& v > 0 ==> {
                &&& 0 <= k < frames.len() && i - half <= k <= i + half
                &&& frames[k].voiced && frames[k].fo == v
                &&& cleaned_cents(frames, median_window, i) == frames[k].cents
                &&& forall|m: int|
                    0 <= m < k && i - half <= m ==> !((#[trigger] frames[m]).voiced && frames[m].fo
                        == v)
            }
        }),
{
    let v = cleaned_fo(frames, median_window, i);
    let a = window_start(i, median_window);
    let b = window_end(i, median_window, frames.len() as int);
    if v > 0 {
        let s = voiced_fo(frames, a, b);
        lemma_one_is_voiced(frames, a, b, i);
        lemma_voiced_counts(frames, a, b, 0);
        crate::median::lemma_median_is_sample(s);
        lemma_voiced_among(frames, a, b, v);
        let q = choose|q: int| a <= q < b && (#[trigger] frames[q]).voiced && frames[q].fo == v;
        let k = lemma_first_one(frames, a, b, v, q);
        let c = clean_source(frames, median_window, i);
        assert(first_at(frames, a, b, v, c));
        assert(c == k) by {
            assert(frames[c].voiced && frames[k].voiced);
        }
        k
    } else {
        0
    }
}

} // verus!
