//! When a run of pitches is one note and when it is several.

use crate::median::{lemma_median_is_sample, upper_median};
use crate::notes::{
    distinct_ascending, is_distinct_ascending, lemma_distinct_ascending_unique, lemma_steepest,
    note_starts, scan, scanned_bounds, snap, snapped, steepest, step_size, strictly_ascending,
};
use crate::ranks::lemma_median_moves;
use vstd::prelude::*;

verus! {

/// A sample leaves a note when it lies further than `stability` above its centre or below
/// it. One that does not leave begins no note and ends every departure. One that does
/// leave is counted; the last of `min_frames` in a row begins a note at the first of
/// them, and any other begins none. The centre of a note is the median of the samples that
/// began it and of those since that did not leave.
pub proof fn lemma_departs_either_way(run: Seq<i64>, stability: int, min_frames: int, j: int)
    requires
        1 <= j < run.len(),
    ensures
        ({
            let s = scan(run, stability, min_frames, j);
            let t = scan(run, stability, min_frames, j + 1);
            let leaves = run[j] > s.center + stability || run[j] < s.center - stability;
            &&& !leaves ==> t.bounds == s.bounds && t.departed == 0 && t.note == s.note.push(
                run[j],
            )
            &&& leaves && s.departed + 1 < min_frames ==> t.bounds == s.bounds && t.departed
                == s.departed + 1 && t.note == s.note
            &&& leaves && s.departed + 1 >= min_frames ==> t.bounds == s.bounds.push(
                j - s.departed,
            ) && t.departed == 0 && t.note == run.subrange(j - s.departed, j + 1)
            &&& t.center == upper_median(t.note)
        }),
{
    lemma_departed_samples(run, stability, min_frames, j);
    lemma_center_is_median(run, stability, min_frames, j + 1);
}

proof fn lemma_center_is_median(run: Seq<i64>, stability: int, min_frames: int, j: int)
    requires
        1 <= j <= run.len(),
    ensures
        ({
            let s = scan(run, stability, min_frames, j);
            s.note.len() > 0 && s.center == upper_median(s.note)
        }),
    decreases j,
{
    if j > 1 {
        lemma_center_is_median(run, stability, min_frames, j - 1);
        lemma_departed_samples(run, stability, min_frames, j - 1);
    } else {
        lemma_median_is_sample(seq![run[0]]);
    }
}

/// While a note goes on, fewer than `min_frames` samples in a row have left it: the last
/// `departed` ones, each of which lies further than `stability` from its centre, above or
/// below.
pub proof fn lemma_departed_samples(run: Seq<i64>, stability: int, min_frames: int, j: int)
    requires
        1 <= j <= run.len(),
    ensures
        ({
            let s = scan(run, stability, min_frames, j);
            &&& 0 <= s.departed < j
            &&& s.departed == 0 || s.departed < min_frames
            &&& s.departed > 0 ==> s.first == j - s.departed
            &&& forall|i: int|
                j - s.departed <= i < j ==> (#[trigger] run[i] > s.center + stability || run[i]
                    < s.center - stability)
        }),
    decreases j,
{
    if j > 1 {
        lemma_departed_samples(run, stability, min_frames, j - 1);
    }
}

/// Whether a pitch lies in the band of width `width` from `a` on.
pub open spec fn in_band(x: int, a: int, width: int) -> bool {
    a <= x <= a + width
}

/// Whether a pitch lies further than `width` from every pitch of the band, above or below.
pub open spec fn clear_of_band(x: int, a: int, width: int) -> bool {
    x > a + 2 * width || x < a - width
}

/// Whether one of the samples from `k` to `end` lies in the band.
pub open spec fn returns_to(run: Seq<i64>, k: int, end: int, a: int, width: int) -> bool {
    exists|i: int| k <= i < end && in_band(#[trigger] run[i] as int, a, width)
}

/// Whether every sample lies in the band.
spec fn all_in_band(s: Seq<i64>, a: int, width: int) -> bool {
    forall|i: int| 0 <= i < s.len() ==> in_band(#[trigger] s[i] as int, a, width)
}

proof fn lemma_median_in_band(s: Seq<i64>, a: int, width: int)
    requires
        s.len() > 0,
        all_in_band(s, a, width),
    ensures
        in_band(upper_median(s) as int, a, width),
{
    lemma_median_is_sample(s);
    let m = upper_median(s);
    assert(s.contains(m));
    let i = choose|i: int| 0 <= i < s.len() && s[i] == m;
    assert(in_band(s[i] as int, a, width));
}

/// From a state in which the note began at `n` and lies in the band.
spec fn settled(
    run: Seq<i64>,
    stability: int,
    min_frames: int,
    j: int,
    a: int,
    bounds: Seq<int>,
) -> bool {
    let s = scan(run, stability, min_frames, j);
    &&& s.bounds == bounds
    &&& in_band(s.center as int, a, stability)
    &&& s.note.len() > 0
    &&& all_in_band(s.note, a, stability)
}

proof fn lemma_stays_settled(
    run: Seq<i64>,
    stability: int,
    min_frames: int,
    n: int,
    j: int,
    a: int,
    bounds: Seq<int>,
)
    requires
        1 <= n <= j <= run.len(),
        stability >= 0,
        settled(run, stability, min_frames, n, a, bounds),
        scan(run, stability, min_frames, n).departed == 0,
        forall|i: int|
            n <= i < j ==> in_band(#[trigger] run[i] as int, a, stability) || clear_of_band(
                run[i] as int,
                a,
                stability,
            ),
        min_frames >= 1,
        forall|k: int|
            n <= k && k + min_frames <= j ==> #[trigger] returns_to(
                run,
                k,
                k + min_frames,
                a,
                stability,
            ),
    ensures
        settled(run, stability, min_frames, j, a, bounds),
        ({
            let s = scan(run, stability, min_frames, j);
            &&& 0 <= s.departed <= j - n
            &&& s.departed == 0 || s.departed < min_frames
            &&& forall|i: int|
                j - s.departed <= i < j ==> clear_of_band(#[trigger] run[i] as int, a, stability)
            &&& s.departed < j - n ==> in_band(
                run[j - s.departed - 1] as int,
                a,
                stability,
            )
        }),
    decreases j - n,
{
    if j > n {
        lemma_stays_settled(run, stability, min_frames, n, j - 1, a, bounds);
        let s = scan(run, stability, min_frames, j - 1);
        let t = scan(run, stability, min_frames, j);
        let x = run[j - 1];
        if in_band(x as int, a, stability) {
            let note = s.note.push(x);
            assert(all_in_band(note, a, stability)) by {
                assert forall|i: int| 0 <= i < note.len() implies in_band(
                    #[trigger] note[i] as int,
                    a,
                    stability,
                ) by {
                    if i < s.note.len() {
                        assert(in_band(s.note[i] as int, a, stability));
                    }
                }
            }
            lemma_median_in_band(note, a, stability);
            assert(t.note == note);
        } else {
            assert(clear_of_band(x as int, a, stability));
            if s.departed + 1 >= min_frames {
                let first = j - min_frames;
                assert(returns_to(run, first, first + min_frames, a, stability));
                let i = choose|i: int|
                    first <= i < first + min_frames && in_band(
                        #[trigger] run[i] as int,
                        a,
                        stability,
                    );
                assert(first == j - 1 - s.departed);
                if i < j - 1 {
                    assert(clear_of_band(run[i] as int, a, stability));
                }
            }
            assert forall|i: int| j - t.departed <= i < j implies clear_of_band(
                #[trigger] run[i] as int,
                a,
                stability,
            ) by {
                if i < j - 1 {
                    assert(clear_of_band(run[i] as int, a, stability));
                }
            }
        }
    }
}

proof fn lemma_settled_at_first(run: Seq<i64>, stability: int, min_frames: int, a: int)
    requires
        run.len() > 0,
        in_band(run[0] as int, a, stability),
    ensures
        settled(run, stability, min_frames, 1, a, seq![0int]),
        scan(run, stability, min_frames, 1).departed == 0,
{
}

/// Excursions do not end a note: where every sample lies in one band as wide as the
/// stability or far from it, above or below, and never as many as `min_frames` in a row
/// lie far from it, the run is one note.
pub proof fn lemma_excursions_keep_the_note(
    run: Seq<i64>,
    stability: int,
    min_frames: int,
    a: int,
)
    requires
        run.len() > 0,
        stability >= 0,
        in_band(run[0] as int, a, stability),
        forall|i: int|
            0 <= i < run.len() ==> in_band(#[trigger] run[i] as int, a, stability)
                || clear_of_band(run[i] as int, a, stability),
        min_frames >= 1,
        forall|k: int|
            0 <= k && k + min_frames <= run.len() ==> #[trigger] returns_to(
                run,
                k,
                k + min_frames,
                a,
                stability,
            ),
    ensures
        scanned_bounds(run, stability, min_frames) == seq![0int],
{
    lemma_settled_at_first(run, stability, min_frames, a);
    lemma_stays_settled(run, stability, min_frames, 1, run.len() as int, a, seq![0int]);
}

proof fn lemma_departs_together(
    run: Seq<i64>,
    stability: int,
    min_frames: int,
    n: int,
    j: int,
    a: int,
    bounds: Seq<int>,
)
    requires
        1 <= n <= j <= run.len(),
        stability >= 0,
        j - n < min_frames,
        settled(run, stability, min_frames, n, a, bounds),
        scan(run, stability, min_frames, n).departed == 0,
        forall|i: int| n <= i < j ==> clear_of_band(#[trigger] run[i] as int, a, stability),
    ensures
        settled(run, stability, min_frames, j, a, bounds),
        scan(run, stability, min_frames, j).departed == j - n,
        scan(run, stability, min_frames, j).departed > 0 ==> scan(
            run,
            stability,
            min_frames,
            j,
        ).first == n,
    decreases j - n,
{
    if j > n {
        lemma_departs_together(run, stability, min_frames, n, j - 1, a, bounds);
        assert(clear_of_band(run[j - 1] as int, a, stability));
    }
}

/// A run whose first `n` samples lie in one band as wide as the stability, and all others
/// in another that is further away than that, above it or below, is two notes, the second
/// from `n` on, where the second part has at least `min_frames` samples; where it has
/// fewer, the run is one note.
pub proof fn lemma_step_makes_two_notes(
    run: Seq<i64>,
    stability: int,
    min_frames: int,
    n: int,
    a: int,
    b: int,
)
    requires
        stability >= 0,
        min_frames >= 1,
        1 <= n < run.len(),
        b > a + 2 * stability || b < a - 2 * stability,
        forall|i: int| 0 <= i < n ==> in_band(#[trigger] run[i] as int, a, stability),
        forall|i: int| n <= i < run.len() ==> in_band(#[trigger] run[i] as int, b, stability),
    ensures
        run.len() - n >= min_frames ==> scanned_bounds(run, stability, min_frames) == seq![0, n],
        run.len() - n < min_frames ==> scanned_bounds(run, stability, min_frames) == seq![0int],
{
    lemma_settled_at_first(run, stability, min_frames, a);
    assert forall|k: int| 1 <= k && k + min_frames <= n implies #[trigger] returns_to(
            run,
            k,
            k + min_frames,
            a,
            stability,
        ) by {
        assert(in_band(run[k] as int, a, stability));
    }
    lemma_stays_settled(run, stability, min_frames, 1, n, a, seq![0int]);
    let before = scan(run, stability, min_frames, n);
    if before.departed > 0 {
        assert(clear_of_band(run[n - 1] as int, a, stability));
        assert(in_band(run[n - 1] as int, a, stability));
    }
    assert forall|i: int| n <= i < run.len() implies clear_of_band(
        #[trigger] run[i] as int,
        a,
        stability,
    ) by {
        assert(in_band(run[i] as int, b, stability));
    }
    let len = run.len() as int;
    if len - n < min_frames {
        lemma_departs_together(run, stability, min_frames, n, len, a, seq![0int]);
    } else {
        let last = n + min_frames - 1;
        lemma_departs_together(run, stability, min_frames, n, last, a, seq![0int]);
        assert(clear_of_band(run[last] as int, a, stability));
        let t = scan(run, stability, min_frames, last + 1);
        let note = run.subrange(n, last + 1);
        assert(t.note == note);
        assert(t.bounds =~= seq![0, n]);
        assert(all_in_band(note, b, stability)) by {
            assert forall|i: int| 0 <= i < note.len() implies in_band(
                #[trigger] note[i] as int,
                b,
                stability,
            ) by {
                assert(in_band(run[n + i] as int, b, stability));
            }
        }
        lemma_median_in_band(note, b, stability);
        assert(settled(run, stability, min_frames, last + 1, b, seq![0, n]));
        assert forall|k: int| last + 1 <= k && k + min_frames <= len implies #[trigger] returns_to(
            run,
            k,
            k + min_frames,
            b,
            stability,
        ) by {
            assert(in_band(run[k] as int, b, stability));
        }
        lemma_stays_settled(run, stability, min_frames, last + 1, len, b, seq![0, n]);
    }
}

/// A boundary goes to the last of the largest pitch steps within `radius` samples of it,
/// whether they go up or down: every step there, up or down, is at most as large, and
/// every later one smaller.
pub proof fn lemma_snaps_to_largest_step(run: Seq<i64>, radius: int, b: int, x: int)
    requires
        1 <= b < run.len(),
        radius >= 0,
        1 <= x < run.len(),
        b - radius <= x <= b + radius,
    ensures
        ({
            let y = snap(run, radius, b);
            let there = run[y] - run[y - 1];
            let here = run[x] - run[x - 1];
            &&& 1 <= y < run.len() && b - radius <= y <= b + radius
            &&& here <= there || here <= -there
            &&& -here <= there || -here <= -there
            &&& x > y ==> (here < there || here < -there) && (-here < there || -here < -there)
        }),
{
    let lo = if b - radius >= 1 { b - radius } else { 1 };
    let hi = if b + radius <= run.len() - 1 { b + radius } else { run.len() - 1 };
    lemma_steepest(run, lo, hi);
    if x > steepest(run, lo, hi) {
        lemma_steepest_is_last(run, lo, hi, x);
    }
    assert(step_size(run, x) <= step_size(run, steepest(run, lo, hi)));
}

proof fn lemma_steepest_is_last(run: Seq<i64>, lo: int, hi: int, x: int)
    requires
        lo <= hi,
        steepest(run, lo, hi) < x <= hi,
    ensures
        step_size(run, x) < step_size(run, steepest(run, lo, hi)),
    decreases hi - lo,
{
    lemma_steepest(run, lo, hi);
    if lo < hi {
        lemma_steepest(run, lo, hi - 1);
        if x < hi {
            lemma_steepest_is_last(run, lo, hi - 1, x);
        }
    }
}

/// Where a boundary goes does not depend on the direction of pitch nor on its height:
/// turned upside down and moved, a run has its boundaries in the same places.
pub proof fn lemma_snap_ignores_direction(
    run: Seq<i64>,
    turned: Seq<i64>,
    c: int,
    radius: int,
    b: int,
)
    requires
        turned.len() == run.len(),
        1 <= b < run.len(),
        radius >= 0,
        (forall|i: int| 0 <= i < run.len() ==> #[trigger] turned[i] == c - run[i]) || (forall|
            i: int,
        |
            0 <= i < run.len() ==> #[trigger] turned[i] == c + run[i]),
    ensures
        snap(turned, radius, b) == snap(run, radius, b),
{
    let y = snap(run, radius, b);
    let z = snap(turned, radius, b);
    lemma_snaps_to_largest_step(run, radius, b, b);
    lemma_snaps_to_largest_step(turned, radius, b, b);
    lemma_snaps_to_largest_step(run, radius, b, z);
    lemma_snaps_to_largest_step(turned, radius, b, y);
}

/// A run that holds one pitch for `n` samples and then another, higher or lower, until its
/// end is two notes, the second from `n` on, where the two lie further apart than the
/// stability and the second lasts at least `min_frames` samples. Otherwise it is one.
pub proof fn lemma_two_pitches(
    run: Seq<i64>,
    stability: int,
    min_frames: int,
    radius: int,
    n: int,
    a: i64,
    b: i64,
)
    requires
        stability >= 0,
        min_frames >= 1,
        radius >= 0,
        1 <= n < run.len(),
        forall|i: int| 0 <= i < n ==> #[trigger] run[i] == a,
        forall|i: int| n <= i < run.len() ==> #[trigger] run[i] == b,
    ensures
        (b > a + stability || b < a - stability) && run.len() - n >= min_frames ==> note_starts(
            run,
            stability,
            min_frames,
            radius,
        ) == seq![0, n],
        a - stability <= b <= a + stability || run.len() - n < min_frames ==> note_starts(
            run,
            stability,
            min_frames,
            radius,
        ) == seq![0int],
{
    let bounds = scanned_bounds(run, stability, min_frames);
    lemma_two_pitches_scan(run, stability, min_frames, n, a, b, run.len() as int);
    let values = snapped(run, radius, bounds);
    let s = distinct_ascending(values);
    if (b > a + stability || b < a - stability) && run.len() - n >= min_frames {
        lemma_snaps_to_largest_step(run, radius, n, n);
        let y = snap(run, radius, n);
        if y != n {
            assert(run[y] == run[y - 1]);
        }
        assert(values =~= seq![0, n]);
    } else {
        assert(values =~= seq![0int]);
    }
    assert(is_distinct_ascending(values, values));
    lemma_distinct_ascending_unique(values, s);
}

spec fn all_equal(s: Seq<i64>, v: i64) -> bool {
    forall|i: int| 0 <= i < s.len() ==> #[trigger] s[i] == v
}

proof fn lemma_median_of_equal(s: Seq<i64>, v: i64)
    requires
        s.len() > 0,
        all_equal(s, v),
    ensures
        upper_median(s) == v,
{
    lemma_median_is_sample(s);
}

proof fn lemma_two_pitches_scan(
    run: Seq<i64>,
    stability: int,
    min_frames: int,
    n: int,
    a: i64,
    b: i64,
    j: int,
)
    requires
        stability >= 0,
        min_frames >= 1,
        1 <= n < run.len(),
        1 <= j <= run.len(),
        forall|i: int| 0 <= i < n ==> #[trigger] run[i] == a,
        forall|i: int| n <= i < run.len() ==> #[trigger] run[i] == b,
    ensures
        ({
            let s = scan(run, stability, min_frames, j);
            let apart = b > a + stability || b < a - stability;
            &&& j <= n ==> s.bounds == seq![0int] && s.center == a && s.departed == 0 && s.note.len()
                > 0 && all_equal(s.note, a)
            &&& n <= j && apart && j - n < min_frames ==> s.bounds == seq![0int] && s.center == a
                && s.departed == j - n && (j > n ==> s.first == n)
            &&& n <= j && apart && j - n >= min_frames ==> s.bounds == seq![0, n] && s.center == b
                && s.departed == 0 && s.note.len() > 0 && all_equal(s.note, b)
            &&& !apart ==> s.bounds == seq![0int] && s.departed == 0 && s.note.len() > 0 && (
            s.center == a || s.center == b) && (forall|i: int|
                0 <= i < s.note.len() ==> (#[trigger] s.note[i] == a || s.note[i] == b))
        }),
    decreases j,
{
    if j > 1 {
        lemma_two_pitches_scan(run, stability, min_frames, n, a, b, j - 1);
        let s = scan(run, stability, min_frames, j - 1);
        let t = scan(run, stability, min_frames, j);
        let x = run[j - 1];
        let apart = b > a + stability || b < a - stability;
        let note = s.note.push(x);
        lemma_median_is_sample(note);
        if j <= n {
            assert(all_equal(note, a));
            lemma_median_of_equal(note, a);
        } else if apart && j - n == min_frames {
            let fresh = run.subrange(n, j);
            assert(all_equal(fresh, b));
            lemma_median_of_equal(fresh, b);
            assert(t.bounds =~= seq![0, n]);
        } else if apart && j - n > min_frames {
            assert(all_equal(note, b));
            lemma_median_of_equal(note, b);
        }
        if !apart {
            let m = upper_median(note);
            let i = choose|i: int| 0 <= i < note.len() && note[i] == m;
            assert(note[i] == a || note[i] == b);
        }
    }
}

proof fn lemma_scan_moves(
    run: Seq<i64>,
    moved: Seq<i64>,
    c: int,
    stability: int,
    min_frames: int,
    j: int,
)
    requires
        1 <= j <= run.len(),
        moved.len() == run.len(),
        forall|i: int| 0 <= i < run.len() ==> #[trigger] moved[i] == run[i] + c,
    ensures
        ({
            let s = scan(run, stability, min_frames, j);
            let t = scan(moved, stability, min_frames, j);
            &&& t.bounds == s.bounds
            &&& t.center == s.center + c
            &&& t.departed == s.departed
            &&& t.first == s.first
            &&& t.note.len() == s.note.len()
            &&& s.note.len() > 0
            &&& forall|i: int| 0 <= i < s.note.len() ==> #[trigger] t.note[i] == s.note[i] + c
        }),
    decreases j,
{
    if j > 1 {
        lemma_scan_moves(run, moved, c, stability, min_frames, j - 1);
        lemma_departed_samples(run, stability, min_frames, j - 1);
        let s = scan(run, stability, min_frames, j - 1);
        let t = scan(moved, stability, min_frames, j - 1);
        let first = if s.departed == 0 { j - 1 } else { s.first };
        assert(moved[j - 1] == run[j - 1] + c);
        lemma_median_moves(s.note.push(run[j - 1]), t.note.push(moved[j - 1]), c);
        assert(1 <= j - s.departed);
        lemma_median_moves(run.subrange(first, j), moved.subrange(first, j), c);
    }
}

/// The division into notes does not depend on the height of the pitch: a run that is moved
/// as a whole has its notes where they were.
pub proof fn lemma_notes_ignore_height(
    run: Seq<i64>,
    moved: Seq<i64>,
    c: int,
    stability: int,
    min_frames: int,
    radius: int,
)
    requires
        run.len() > 0,
        radius >= 0,
        moved.len() == run.len(),
        forall|i: int| 0 <= i < run.len() ==> #[trigger] moved[i] == run[i] + c,
    ensures
        scanned_bounds(moved, stability, min_frames) == scanned_bounds(run, stability, min_frames),
        note_starts(moved, stability, min_frames, radius) == note_starts(
            run,
            stability,
            min_frames,
            radius,
        ),
{
    let n = run.len() as int;
    lemma_scan_moves(run, moved, c, stability, min_frames, n);
    lemma_bounds_within(run, stability, min_frames, n);
    let bounds = scanned_bounds(run, stability, min_frames);
    assert forall|i: int| 0 <= i < bounds.len() implies snapped(moved, radius, bounds)[i]
        == #[trigger] snapped(run, radius, bounds)[i] by {
        if i > 0 {
            assert(1 <= bounds[i] < n);
            lemma_snap_ignores_direction(run, moved, c, radius, bounds[i]);
        }
    }
    assert(snapped(moved, radius, bounds) =~= snapped(run, radius, bounds));
}

proof fn lemma_bounds_within(run: Seq<i64>, stability: int, min_frames: int, j: int)
    requires
        1 <= j <= run.len(),
    ensures
        ({
            let s = scan(run, stability, min_frames, j);
            &&& s.bounds.len() >= 1
            &&& forall|i: int| 1 <= i < s.bounds.len() ==> 1 <= #[trigger] s.bounds[i] < j
        }),
    decreases j,
{
    if j > 1 {
        lemma_bounds_within(run, stability, min_frames, j - 1);
        lemma_departed_samples(run, stability, min_frames, j - 1);
        let p = scan(run, stability, min_frames, j - 1);
        let s = scan(run, stability, min_frames, j);
        assert forall|i: int| 1 <= i < s.bounds.len() implies 1 <= #[trigger] s.bounds[i] < j by {
            if i < p.bounds.len() {
                assert(s.bounds[i] == p.bounds[i]);
            }
        }
    }
}

/// The scan begins with a note at the first sample, of which the first sample is the centre.
pub proof fn lemma_scan_begins(run: Seq<i64>, stability: int, min_frames: int)
    ensures
        ({
            let s = scan(run, stability, min_frames, 1);
            s.bounds == seq![0int] && s.center == run[0] && s.departed == 0 && s.note == seq![run[0]]
        }),
        run.len() > 0 ==> scanned_bounds(run, stability, min_frames) == scan(
            run,
            stability,
            min_frames,
            run.len() as int,
        ).bounds,
{
}

/// Notes start at the first sample and at every boundary of the scan, moved to the largest step near
/// it, and nowhere else; each start is there once, in order.
pub proof fn lemma_starts_are_snapped_bounds(
    run: Seq<i64>,
    stability: int,
    min_frames: int,
    radius: int,
    starts: Seq<int>,
    x: int,
)
    requires
        run.len() > 0,
        starts == note_starts(run, stability, min_frames, radius),
    ensures
        ({
            let bounds = scanned_bounds(run, stability, min_frames);
            &&& starts.contains(x) <==> (x == bounds[0] || exists|i: int|
                1 <= i < bounds.len() && x == #[trigger] snap_of(run, radius, bounds, i))
            &&& forall|i: int, j: int| 0 <= i < j < starts.len() ==> starts[i] < starts[j]
        }),
{
    let bounds = scanned_bounds(run, stability, min_frames);
    let values = snapped(run, radius, bounds);
    lemma_bounds_within(run, stability, min_frames, run.len() as int);
    let sorted = put_in_order(values);
    assert(is_distinct_ascending(sorted, values));
    assert(is_distinct_ascending(starts, values));
    if starts.contains(x) {
        assert(values.contains(x));
        let i = choose|i: int| 0 <= i < values.len() && values[i] == x;
        if i > 0 {
            assert(x == snap_of(run, radius, bounds, i));
        }
    }
    if x == bounds[0] {
        assert(values[0] == x);
        assert(values.contains(x));
    }
    if exists|i: int| 1 <= i < bounds.len() && x == #[trigger] snap_of(run, radius, bounds, i) {
        let i = choose|i: int|
            1 <= i < bounds.len() && x == #[trigger] snap_of(run, radius, bounds, i);
        assert(values[i] == x);
        assert(values.contains(x));
    }
}

/// Where boundary `i` goes.
pub open spec fn snap_of(run: Seq<i64>, radius: int, bounds: Seq<int>, i: int) -> int {
    snap(run, radius, bounds[i])
}

proof fn put_in_place(s: Seq<int>, x: int) -> (t: Seq<int>)
    requires
        strictly_ascending(s),
    ensures
        strictly_ascending(t),
        forall|y: int| #[trigger] t.contains(y) <==> s.contains(y) || y == x,
        forall|i: int| 0 <= i < t.len() ==> (s.len() > 0 && #[trigger] t[i] <= s[s.len() - 1]) || t[i]
            <= x,
    decreases s.len(),
{
    if s.len() == 0 {
        let t = seq![x];
        assert(t[0] == x);
        t
    } else {
        let last = s.last();
        if last < x {
            let t = s.push(x);
            assert forall|y: int| #[trigger] t.contains(y) <==> s.contains(y) || y == x by {
                if s.contains(y) {
                    let i = choose|i: int| 0 <= i < s.len() && s[i] == y;
                    assert(t[i] == y);
                }
                assert(t[s.len() as int] == x);
            }
            t
        } else if last == x {
            assert(s[s.len() - 1] == x);
            assert forall|i: int| 0 <= i < s.len() implies #[trigger] s[i] <= x by {}
            s
        } else {
            let front = s.drop_last();
            let t = put_in_place(front, x);
            let u = t.push(last);
            assert forall|i: int| 0 <= i < t.len() implies #[trigger] t[i] < last by {
                if front.len() > 0 && t[i] <= front[front.len() - 1] {
                    assert(s[front.len() - 1] < s[s.len() - 1]);
                }
            }
            assert forall|y: int| #[trigger] u.contains(y) <==> s.contains(y) || y == x by {
                if u.contains(y) {
                    let i = choose|i: int| 0 <= i < u.len() && u[i] == y;
                    if i < t.len() {
                        assert(t[i] == y);
                        assert(t.contains(y));
                        if front.contains(y) {
                            let j = choose|j: int| 0 <= j < front.len() && front[j] == y;
                            assert(s[j] == y);
                        }
                    } else {
                        assert(s[s.len() - 1] == y);
                    }
                }
                if s.contains(y) {
                    let j = choose|j: int| 0 <= j < s.len() && s[j] == y;
                    if j < front.len() {
                        assert(front[j] == y);
                        assert(front.contains(y));
                        assert(t.contains(y));
                        let i = choose|i: int| 0 <= i < t.len() && t[i] == y;
                        assert(u[i] == y);
                    } else {
                        assert(u[t.len() as int] == y);
                    }
                }
                if y == x {
                    assert(t.contains(x));
                    let i = choose|i: int| 0 <= i < t.len() && t[i] == x;
                    assert(u[i] == x);
                }
            }
            u
        }
    }
}

proof fn put_in_order(values: Seq<int>) -> (s: Seq<int>)
    ensures
        is_distinct_ascending(s, values),
    decreases values.len(),
{
    if values.len() == 0 {
        assert(values =~= Seq::<int>::empty());
        values
    } else {
        let front = values.drop_last();
        let s = put_in_order(front);
        let t = put_in_place(s, values.last());
        assert forall|y: int| #[trigger] t.contains(y) <==> values.contains(y) by {
            if front.contains(y) {
                let i = choose|i: int| 0 <= i < front.len() && front[i] == y;
                assert(values[i] == y);
            }
            if values.contains(y) {
                let i = choose|i: int| 0 <= i < values.len() && values[i] == y;
                if i < front.len() {
                    assert(front[i] == y);
                    assert(front.contains(y));
                }
            }
            assert(values[values.len() - 1] == values.last());
        }
        t
    }
}

} // verus!
