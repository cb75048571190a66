//! Note boundaries within one voiced run of a pitch contour.

use crate::contour::{bounded, MAX_FRAMES, PITCH_LIMIT};
use crate::median::{
    ascending, lemma_push_onto_ascending, lemma_running_matches_whole, upper_median, RunningMedian,
};
use crate::num::{abs_of, max_of, min_of};
use vstd::prelude::*;

verus! {

// --- scan for departures from the centre pitch ------------------------------

/// What the boundary scan knows after some samples of a run.
pub struct Scan {
    /// Where the notes found so far begin.
    pub bounds: Seq<int>,
    /// Centre pitch of the current note.
    pub center: i64,
    /// How many samples in a row have now left the centre.
    pub departed: int,
    /// The first of those samples.
    pub first: int,
    /// The samples that the centre is the median of.
    pub note: Seq<i64>,
}

/// The scan when only the first sample has been seen.
pub open spec fn scan_start(run: Seq<i64>) -> Scan {
    Scan { bounds: seq![0], center: run[0], departed: 0, first: 0, note: seq![run[0]] }
}

/// The scan after sample `j`. A sample further than `stability` from the centre
/// departs; once `min_frames` in a row have departed, a new note begins at the
/// first of them.
pub open spec fn scan_step(
    run: Seq<i64>,
    stability: int,
    min_frames: int,
    s: Scan,
    j: int,
) -> Scan {
    if abs_of(run[j] - s.center) > stability {
        let first = if s.departed == 0 { j } else { s.first };
        if s.departed + 1 >= min_frames {
            let note = run.subrange(first, j + 1);
            Scan {
                bounds: s.bounds.push(first),
                center: upper_median(note),
                departed: 0,
                first,
                note,
            }
        } else {
            Scan { departed: s.departed + 1, first, ..s }
        }
    } else {
        let note = s.note.push(run[j]);
        Scan { center: upper_median(note), departed: 0, note, ..s }
    }
}

/// The scan over the first `j` samples.
pub open spec fn scan(run: Seq<i64>, stability: int, min_frames: int, j: int) -> Scan
    decreases j,
{
    if j <= 1 {
        scan_start(run)
    } else {
        scan_step(run, stability, min_frames, scan(run, stability, min_frames, j - 1), j - 1)
    }
}

/// The note boundaries of a run as the scan finds them.
pub open spec fn scanned_bounds(run: Seq<i64>, stability: int, min_frames: int) -> Seq<int> {
    scan(run, stability, min_frames, run.len() as int).bounds
}

/// Where the scan stands: departures are counted from the first, and every
/// boundary lies in the part of the run that was seen.
proof fn lemma_scan(run: Seq<i64>, stability: int, min_frames: int, j: int)
    requires
        1 <= j <= run.len(),
    ensures
        ({
            let s = scan(run, stability, min_frames, j);
            &&& s.departed >= 0
            &&& s.departed > 0 ==> 1 <= s.first && s.first + s.departed == j
            &&& s.bounds.len() >= 1
            &&& s.bounds.len() <= j
            &&& s.bounds[0] == 0
            &&& forall|i: int| 1 <= i < s.bounds.len() ==> 1 <= #[trigger] s.bounds[i] < j
            &&& s.note.len() >= 1
        }),
    decreases j,
{
    if j > 1 {
        lemma_scan(run, stability, min_frames, j - 1);
        let p = scan(run, stability, min_frames, j - 1);
        let s = scan(run, stability, min_frames, j);
        assert forall|i: int| 1 <= i < s.bounds.len() implies 1 <= #[trigger] s.bounds[i] < j by {
            if i < p.bounds.len() {
                assert(s.bounds[i] == p.bounds[i]);
            }
        }
    }
}

/// The boundaries as integers.
pub open spec fn as_ints(v: Seq<usize>) -> Seq<int> {
    Seq::new(v.len(), |i: int| v[i] as int)
}

/// Find the note boundaries of a run.
fn scan_bounds(run: &[i64], stability: i64, min_frames: usize) -> (bounds: Vec<usize>)
    requires
        0 < run@.len() <= MAX_FRAMES,
        bounded(run@, PITCH_LIMIT as int),
    ensures
        as_ints(bounds@) == scanned_bounds(run@, stability as int, min_frames as int),
        0 < bounds@.len() <= run@.len(),
        bounds@[0] == 0,
        forall|i: int| 1 <= i < bounds@.len() ==> 1 <= #[trigger] bounds@[i] < run@.len(),
{
    let n: usize = run.len();
    let mut bounds: Vec<usize> = Vec::new();
    bounds.push(0);
    let mut center: i64 = run[0];
    let mut departed: usize = 0;
    let mut first: usize = 0;
    let mut note = RunningMedian::new();
    proof {
        lemma_push_onto_ascending(Seq::<i64>::empty(), run@[0]);
        assert(Seq::<i64>::empty().push(run@[0]) =~= seq![run@[0]]);
        assert(as_ints(bounds@) =~= seq![0int]);
    }
    note.push(run[0]);
    proof {
        crate::median::lemma_median_is_sample(seq![run@[0]]);
    }
    let ghost st = stability as int;
    let ghost mf = min_frames as int;
    let mut j: usize = 1;
    while j < n
        invariant
            n == run@.len(),
            1 <= j <= n <= MAX_FRAMES,
            st == stability,
            mf == min_frames,
            bounded(run@, PITCH_LIMIT as int),
            note.wf(),
            note@ == ascending(scan(run@, st, mf, j as int).note),
            note@.len() > 0,
            as_ints(bounds@) == scan(run@, st, mf, j as int).bounds,
            center == scan(run@, st, mf, j as int).center,
            -PITCH_LIMIT <= center <= PITCH_LIMIT,
            departed == scan(run@, st, mf, j as int).departed,
            first == scan(run@, st, mf, j as int).first,
            bounded(scan(run@, st, mf, j as int).note, PITCH_LIMIT as int),
        decreases n - j,
    {
        let ghost before = scan(run@, st, mf, j as int);
        let ghost after = scan(run@, st, mf, j + 1);
        proof {
            lemma_scan(run@, st, mf, j as int);
        }
        let diff: i64 = run[j] - center;
        let apart: i64 = if diff < 0 { -diff } else { diff };
        if apart > stability {
            if departed == 0 {
                first = j;
            }
            departed = departed + 1;
            if departed >= min_frames {
                proof {
                    assert(as_ints(bounds@).push(first as int) =~= as_ints(
                        bounds@.push(first),
                    ));
                }
                bounds.push(first);
                note.clear();
                let ghost fresh = run@.subrange(first as int, j + 1);
                let mut k: usize = first;
                proof {
                    assert(fresh.take(0) =~= Seq::<i64>::empty());
                    crate::median::lemma_ascending(Seq::<i64>::empty());
                    assert(ascending(Seq::<i64>::empty()) =~= Seq::<i64>::empty());
                }
                while k <= j
                    invariant
                        n == run@.len(),
                        first <= k <= j + 1 <= n,
                        fresh == run@.subrange(first as int, j + 1),
                        note.wf(),
                        note@ == ascending(fresh.take(k - first)),
                        note@.len() == k - first,
                    decreases j + 1 - k,
                {
                    proof {
                        lemma_push_onto_ascending(fresh.take(k - first), run@[k as int]);
                        assert(fresh.take(k - first).push(run@[k as int]) =~= fresh.take(
                            k + 1 - first,
                        ));
                    }
                    note.push(run[k]);
                    k = k + 1;
                }
                proof {
                    assert(fresh.take(k - first) =~= fresh);
                    lemma_running_matches_whole(fresh);
                    crate::median::lemma_median_is_sample(fresh);
                    assert(after.note == fresh);
                }
                center = note.median();
                departed = 0;
            }
        } else {
            departed = 0;
            proof {
                lemma_push_onto_ascending(before.note, run@[j as int]);
                lemma_running_matches_whole(before.note.push(run@[j as int]));
                crate::median::lemma_median_is_sample(before.note.push(run@[j as int]));
                assert(after.note == before.note.push(run@[j as int]));
            }
            note.push(run[j]);
            center = note.median();
        }
        j = j + 1;
    }
    proof {
        lemma_scan(run@, st, mf, n as int);
        let s = scan(run@, st, mf, n as int);
        assert(bounds@[0] == as_ints(bounds@)[0]);
        assert forall|i: int| 1 <= i < bounds@.len() implies 1 <= #[trigger] bounds@[i]
            < run@.len() by {
            assert(bounds@[i] == s.bounds[i]);
        }
    }
    bounds
}

// --- snapping to the steepest slope -----------------------------------------

/// The size of the pitch step into sample `x`.
pub open spec fn step_size(run: Seq<i64>, x: int) -> int {
    abs_of(run[x] - run[x - 1])
}

/// The last sample in `[lo, hi]` with the largest step into it.
pub open spec fn steepest(run: Seq<i64>, lo: int, hi: int) -> int
    decreases hi - lo,
{
    if hi <= lo {
        lo
    } else {
        let p = steepest(run, lo, hi - 1);
        if step_size(run, hi) >= step_size(run, p) { hi } else { p }
    }
}

/// The steepest sample lies in the range, and no step there is larger.
pub proof fn lemma_steepest(run: Seq<i64>, lo: int, hi: int)
    requires
        lo <= hi,
    ensures
        lo <= steepest(run, lo, hi) <= hi,
        forall|x: int|
            lo <= x <= hi ==> #[trigger] step_size(run, x) <= step_size(
                run,
                steepest(run, lo, hi),
            ),
    decreases hi - lo,
{
    if lo < hi {
        lemma_steepest(run, lo, hi - 1);
    }
}

/// Where boundary `b` goes: to the steepest slope within `radius` samples.
pub open spec fn snap(run: Seq<i64>, radius: int, b: int) -> int {
    steepest(run, max_of(b - radius, 1), min_of(b + radius, run.len() - 1))
}

/// The boundaries after snapping; the first stays.
pub open spec fn snapped(run: Seq<i64>, radius: int, bounds: Seq<int>) -> Seq<int> {
    Seq::new(bounds.len(), |i: int| if i == 0 { bounds[0] } else { snap(run, radius, bounds[i]) })
}

/// Snap one boundary.
fn snap_bound(run: &[i64], radius: usize, b: usize) -> (x: usize)
    requires
        1 <= b < run@.len() <= MAX_FRAMES,
        bounded(run@, PITCH_LIMIT as int),
    ensures
        x == snap(run@, radius as int, b as int),
        1 <= x < run@.len(),
{
    let lo: usize = if b > radius { b - radius } else { 1 };
    let hi: usize = if radius < run.len() - 1 - b { b + radius } else { run.len() - 1 };
    let mut best: usize = lo;
    let mut x: usize = lo;
    proof {
        lemma_steepest(run@, lo as int, lo as int);
    }
    while x < hi
        invariant
            1 <= lo <= best <= x <= hi < run@.len() <= MAX_FRAMES,
            bounded(run@, PITCH_LIMIT as int),
            best == steepest(run@, lo as int, x as int),
        decreases hi - x,
    {
        x = x + 1;
        let dx: i64 = run[x] - run[x - 1];
        let dy: i64 = run[best] - run[best - 1];
        let ax: i64 = if dx < 0 { -dx } else { dx };
        let ay: i64 = if dy < 0 { -dy } else { dy };
        if ax >= ay {
            best = x;
        }
    }
    best
}

// --- sorting and removing repeats -------------------------------------------

/// Whether each value is larger than those before it.
pub open spec fn strictly_ascending(s: Seq<int>) -> bool {
    forall|i: int, j: int| 0 <= i < j < s.len() ==> s[i] < s[j]
}

/// Whether `s` holds exactly the values of `values`, in order and each once.
pub open spec fn is_distinct_ascending(s: Seq<int>, values: Seq<int>) -> bool {
    &&& strictly_ascending(s)
    &&& forall|x: int| #[trigger] s.contains(x) <==> values.contains(x)
}

/// The values in order, each once.
pub open spec fn distinct_ascending(values: Seq<int>) -> Seq<int> {
    choose|s: Seq<int>| is_distinct_ascending(s, values)
}

/// There is only one way to put values in order, each once.
pub proof fn lemma_distinct_ascending_unique(s: Seq<int>, t: Seq<int>)
    requires
        strictly_ascending(s),
        strictly_ascending(t),
        forall|x: int| #[trigger] s.contains(x) <==> t.contains(x),
    ensures
        s == t,
    decreases s.len(),
{
    if s.len() == 0 {
        if t.len() > 0 {
            assert(t.contains(t[0]));
            assert(s.contains(t[0]));
        }
        assert(s =~= t);
    } else {
        assert(s.contains(s[0]));
        assert(t.contains(s[0]));
        let a = s.last();
        let b = t.last();
        assert(s.contains(a) && t.contains(b));
        assert(t.contains(a) && s.contains(b));
        let ia = choose|i: int| 0 <= i < t.len() && t[i] == a;
        let ib = choose|i: int| 0 <= i < s.len() && s[i] == b;
        assert(a == b) by {
            if ia < t.len() - 1 {
                assert(t[ia] < t[t.len() - 1]);
            }
            if ib < s.len() - 1 {
                assert(s[ib] < s[s.len() - 1]);
            }
        }
        let ds = s.drop_last();
        let dt = t.drop_last();
        assert forall|x: int| #[trigger] ds.contains(x) <==> dt.contains(x) by {
            if ds.contains(x) {
                let i = choose|i: int| 0 <= i < ds.len() && ds[i] == x;
                assert(s[i] == x);
                assert(s[i] < s[s.len() - 1]);
                assert(s.contains(x));
                assert(t.contains(x));
                let k = choose|k: int| 0 <= k < t.len() && t[k] == x;
                assert(dt[k] == x);
            }
            if dt.contains(x) {
                let i = choose|i: int| 0 <= i < dt.len() && dt[i] == x;
                assert(t[i] == x);
                assert(t[i] < t[t.len() - 1]);
                assert(t.contains(x));
                assert(s.contains(x));
                let k = choose|k: int| 0 <= k < s.len() && s[k] == x;
                assert(ds[k] == x);
            }
        }
        assert(strictly_ascending(ds)) by {
            assert forall|i: int, j: int| 0 <= i < j < ds.len() implies ds[i] < ds[j] by {
                assert(s[i] < s[j]);
            }
        }
        assert(strictly_ascending(dt)) by {
            assert forall|i: int, j: int| 0 <= i < j < dt.len() implies dt[i] < dt[j] by {
                assert(t[i] < t[j]);
            }
        }
        lemma_distinct_ascending_unique(ds, dt);
        assert(s =~= ds.push(a));
        assert(t =~= dt.push(b));
    }
}

/// Put one more value in its place, unless it is there.
fn insert_distinct(sorted: &mut Vec<usize>, x: usize)
    requires
        strictly_ascending(as_ints(old(sorted)@)),
        old(sorted)@.len() < MAX_FRAMES,
    ensures
        strictly_ascending(as_ints(final(sorted)@)),
        final(sorted)@.len() <= old(sorted)@.len() + 1,
        forall|y: int| #[trigger]
            as_ints(final(sorted)@).contains(y) <==> as_ints(old(sorted)@).contains(y) || y == x,
{
    let ghost was = sorted@;
    let mut at: usize = sorted.len();
    while at > 0 && sorted[at - 1] > x
        invariant
            at <= sorted@.len(),
            sorted@ == was,
            at < was.len() ==> x < was[at as int],
        decreases at,
    {
        at = at - 1;
    }
    let ghost ints = as_ints(was);
    if at > 0 && sorted[at - 1] == x {
        assert(ints[at - 1] == x);
    } else {
        sorted.insert(at, x);
        let ghost now = as_ints(sorted@);
        proof {
            assert(now =~= ints.insert(at as int, x as int));
            assert forall|i: int, j: int| 0 <= i < j < now.len() implies now[i] < now[j] by {
                if at > 0 {
                    assert(i < at - 1 ==> ints[i] < ints[at - 1]);
                }
                if at < ints.len() {
                    assert(j - 1 > at ==> ints[at as int] < ints[j - 1]);
                }
            }
            assert forall|y: int| #[trigger] now.contains(y) <==> ints.contains(y) || y == x by {
                if now.contains(y) {
                    let i = choose|i: int| 0 <= i < now.len() && now[i] == y;
                    if i < at {
                        assert(ints[i] == y);
                    } else if i > at {
                        assert(ints[i - 1] == y);
                    }
                }
                if ints.contains(y) {
                    let i = choose|i: int| 0 <= i < ints.len() && ints[i] == y;
                    if i < at {
                        assert(now[i] == y);
                    } else {
                        assert(now[i + 1] == y);
                    }
                }
                if y == x {
                    assert(now[at as int] == y);
                }
            }
        }
    }
}

/// Where the notes of a run begin: the boundaries that the scan finds, snapped to
/// the steepest slope, in order and each once.
pub open spec fn note_starts(
    run: Seq<i64>,
    stability: int,
    min_frames: int,
    radius: int,
) -> Seq<int> {
    distinct_ascending(snapped(run, radius, scanned_bounds(run, stability, min_frames)))
}

/// Find where the notes of a run begin.
pub fn find_note_starts(run: &[i64], stability: i64, min_frames: usize, radius: usize) -> (starts:
    Vec<usize>)
    requires
        0 < run@.len() <= MAX_FRAMES,
        bounded(run@, PITCH_LIMIT as int),
    ensures
        as_ints(starts@) == note_starts(
            run@,
            stability as int,
            min_frames as int,
            radius as int,
        ),
        starts@.len() > 0,
        starts@[0] == 0,
        strictly_ascending(as_ints(starts@)),
        forall|i: int| 0 <= i < starts@.len() ==> #[trigger] starts@[i] < run@.len(),
{
    let bounds: Vec<usize> = scan_bounds(run, stability, min_frames);
    let ghost values = snapped(
        run@,
        radius as int,
        scanned_bounds(run@, stability as int, min_frames as int),
    );
    let mut starts: Vec<usize> = Vec::new();
    let mut i: usize = 0;
    while i < bounds.len()
        invariant
            0 < run@.len() <= MAX_FRAMES,
            bounded(run@, PITCH_LIMIT as int),
            as_ints(bounds@) == scanned_bounds(run@, stability as int, min_frames as int),
            values == snapped(run@, radius as int, as_ints(bounds@)),
            0 < bounds@.len() <= run@.len(),
            bounds@[0] == 0,
            forall|k: int| 1 <= k < bounds@.len() ==> 1 <= #[trigger] bounds@[k] < run@.len(),
            i <= bounds@.len(),
            starts@.len() <= i,
            is_distinct_ascending(as_ints(starts@), values.take(i as int)),
            forall|k: int| 0 <= k < starts@.len() ==> #[trigger] starts@[k] < run@.len(),
        decreases bounds@.len() - i,
    {
        let x: usize = if i == 0 { 0 } else { snap_bound(run, radius, bounds[i]) };
        let ghost before = starts@;
        assert(x == values[i as int]) by {
            assert(as_ints(bounds@)[i as int] == bounds@[i as int]);
        }
        insert_distinct(&mut starts, x);
        proof {
            let taken = values.take(i as int);
            let more = values.take(i + 1);
            assert(more =~= taken.push(x as int));
            assert forall|y: int| #[trigger] as_ints(starts@).contains(y) <==> more.contains(y) by {
                if taken.contains(y) {
                    let k = choose|k: int| 0 <= k < taken.len() && taken[k] == y;
                    assert(more[k] == y);
                }
                if y == x {
                    assert(more[i as int] == y);
                }
                if more.contains(y) && y != x {
                    let k = choose|k: int| 0 <= k < more.len() && more[k] == y;
                    assert(taken[k] == y);
                }
            }
            assert forall|k: int| 0 <= k < starts@.len() implies #[trigger] starts@[k]
                < run@.len() by {
                assert(as_ints(starts@)[k] == starts@[k]);
                assert(as_ints(starts@).contains(starts@[k] as int));
                if starts@[k] != x {
                    assert(as_ints(before).contains(starts@[k] as int));
                    let m = choose|m: int|
                        0 <= m < as_ints(before).len() && as_ints(before)[m] == starts@[k];
                    assert(before[m] < run@.len());
                }
            }
        }
        i = i + 1;
    }
    proof {
        assert(values.take(i as int) =~= values);
        let ints = as_ints(starts@);
        assert(is_distinct_ascending(ints, values));
        let chosen = distinct_ascending(values);
        assert(is_distinct_ascending(chosen, values));
        lemma_distinct_ascending_unique(ints, chosen);
        assert(values[0] == 0);
        assert(values.contains(0));
        assert(ints.contains(0));
        let k = choose|k: int| 0 <= k < ints.len() && ints[k] == 0;
        if k > 0 {
            assert(ints[0] < ints[k]);
        }
        assert(ints[0] == starts@[0]);
    }
    starts
}

} // verus!
