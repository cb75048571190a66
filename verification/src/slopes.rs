//! What makes a glide and what makes a note: laws of folding, of transitions and of the
//! growth of glides, which hold for rising and falling pitch alike.

use crate::contour::{Frame, NoteContour, SegmentConfig};
use crate::glide::{
    core_len, direction, is_transition, lemma_merge_short, merge_short, note_ranges,
    spans_tile, travel, Piece, Span, Terrain,
};
use crate::median::upper_median;
use crate::segment::carries_glide;
use vstd::prelude::*;

verus! {

// --- folding ----------------------------------------------------------------

/// Note `i` of a run begins at its start and ends where the next begins, the last where
/// the run ends.
pub proof fn lemma_ranges_between_starts(starts: Seq<int>, run_start: int, run_end: int, i: int)
    requires
        0 <= run_start < run_end <= usize::MAX,
        forall|k: int| 0 <= k < starts.len() ==> 0 <= #[trigger] starts[k] < run_end - run_start,
        0 <= i < starts.len(),
    ensures
        ({
            let r = note_ranges(starts, run_start, run_end);
            &&& r.len() == starts.len()
            &&& r[i].start - run_start == starts[i]
            &&& i + 1 < starts.len() ==> r[i].end == r[i + 1].start
            &&& i + 1 == starts.len() ==> r[i].end == run_end
        }),
{
    assert(0 <= starts[i] < run_end - run_start);
    if i + 1 < starts.len() {
        assert(0 <= starts[i + 1] < run_end - run_start);
    }
}

/// Ranges that are all long enough stay as they are.
pub proof fn lemma_long_notes_stay(ranges: Seq<Span>, min_frames: int, k: int)
    requires
        0 <= k <= ranges.len(),
        forall|i: int|
            0 <= i < ranges.len() ==> (#[trigger] ranges[i]).end - ranges[i].start >= min_frames,
    ensures
        merge_short(ranges, min_frames, k) == ranges.take(k),
    decreases k,
{
    if k > 0 {
        lemma_long_notes_stay(ranges, min_frames, k - 1);
        let last = ranges[k - 1];
        assert(last.end - last.start >= min_frames);
        let before = ranges.take(k - 1);
        if k > 1 {
            assert(before[k - 2] == ranges[k - 2]);
            assert(ranges[k - 2].end - ranges[k - 2].start >= min_frames);
        }
        assert(ranges.take(k) =~= before.push(last));
    } else {
        assert(ranges.take(0) =~= Seq::empty());
    }
}

/// A range of fewer than `min_frames` frames never begins a note but the first: it goes to
/// the note before it. A range that is long enough begins a note of its own, unless the
/// note before it is itself too short; then it goes to that one. The other notes stay.
pub proof fn lemma_short_notes_fold(
    ranges: Seq<Span>,
    start: int,
    end: int,
    min_frames: int,
    k: int,
)
    requires
        spans_tile(ranges, start, end),
        1 <= k < ranges.len(),
    ensures
        ({
            let before = merge_short(ranges, min_frames, k);
            let after = merge_short(ranges, min_frames, k + 1);
            let last = before[before.len() - 1];
            let long = ranges[k].end - ranges[k].start >= min_frames;
            let room = last.end - last.start >= min_frames;
            &&& before.len() >= 1
            &&& last.end == ranges[k].start
            &&& long && room ==> after.len() == before.len() + 1 && after[after.len() - 1]
                == ranges[k] && after[before.len() - 1] == last
            &&& !long || !room ==> after.len() == before.len() && after[after.len() - 1].start
                == last.start && after[after.len() - 1].end == ranges[k].end
            &&& forall|i: int| 0 <= i < before.len() - 1 ==> #[trigger] after[i] == before[i]
        }),
        merge_short(ranges, min_frames, 1) == seq![ranges[0]],
{
    assert(merge_short(ranges, min_frames, 0) == Seq::<Span>::empty());
    lemma_merge_short(ranges, start, end, min_frames, k);
    let j = k - 1;
    assert(ranges[j].end == ranges[k].start);
}

// --- transitions ------------------------------------------------------------

/// The distance travelled counts every step, up or down, by its size: it never shrinks,
/// and is at least the net movement either way; where the pitch only rises or only falls
/// it is the net movement.
pub proof fn lemma_travel(cents: Seq<i64>, k: int)
    requires
        1 <= k <= cents.len(),
    ensures
        travel(cents, 1) == 0,
        travel(cents, k) >= cents[k - 1] - cents[0],
        travel(cents, k) >= cents[0] - cents[k - 1],
        k >= 2 ==> ({
            let step = cents[k - 1] - cents[k - 2];
            let gone = travel(cents, k) - travel(cents, k - 1);
            gone >= step && gone >= -step && (gone == step || gone == -step)
        }),
        (forall|i: int, j: int| 0 <= i && j == i + 1 && j < k ==> #[trigger] cents[i]
            <= #[trigger] cents[j]) ==> travel(cents, k) == cents[k - 1] - cents[0],
        (forall|i: int, j: int| 0 <= i && j == i + 1 && j < k ==> #[trigger] cents[i]
            >= #[trigger] cents[j]) ==> travel(cents, k) == cents[0] - cents[k - 1],
    decreases k,
{
    if k > 1 {
        lemma_travel(cents, k - 1);
        assert(cents[k - 2] <= cents[k - 1] || cents[k - 2] >= cents[k - 1]);
    }
}

/// The distance travelled is the same upside down and at another height.
pub proof fn lemma_travel_ignores_direction(cents: Seq<i64>, turned: Seq<i64>, c: int, k: int)
    requires
        0 <= k <= cents.len(),
        turned.len() == cents.len(),
        (forall|i: int| 0 <= i < cents.len() ==> #[trigger] turned[i] == c - cents[i]) || (forall|
            i: int,
        |
            0 <= i < cents.len() ==> #[trigger] turned[i] == c + cents[i]),
    ensures
        travel(turned, k) == travel(cents, k),
    decreases k,
{
    if k > 1 {
        lemma_travel_ignores_direction(cents, turned, c, k - 1);
    }
}

/// A stretch is a transition when, rising or falling, it has two samples at least, moves on
/// the whole at least as fast as a glide, has a median further than half the stability from
/// both of its ends, above or below, and makes net movement of at least four fifths of the
/// distance that it travels. Pitches are in nanocents and the frame rate in nanohertz, the
/// slope in nanocents a second.
pub proof fn lemma_transition_either_way(cents: Seq<i64>, frame_rate: int, config: SegmentConfig)
    requires
        frame_rate >= 0,
    ensures
        ({
            let n = cents.len() as int;
            let rise = cents[n - 1] - cents[0];
            let m = upper_median(cents);
            let half = config.stability_cents as int;
            let far = travel(cents, n);
            let needed = config.glide_slope_cents_per_sec * 1_000_000_000 * (n - 1);
            let steep = rise * frame_rate >= needed || -rise * frame_rate >= needed;
            let leaves = 2 * (m - cents[0]) > half || 2 * (cents[0] - m) > half;
            let arrives = 2 * (m - cents[n - 1]) > half || 2 * (cents[n - 1] - m) > half;
            let straight = 5 * rise >= 4 * far || -5 * rise >= 4 * far;
            is_transition(cents, frame_rate, config) <==> n >= 2 && steep && leaves && arrives
                && far > 0 && straight
        }),
{
    let n = cents.len() as int;
    if n >= 2 {
        let rise = cents[n - 1] - cents[0];
        lemma_travel(cents, n);
        assert((-rise) * frame_rate == -(rise * frame_rate)) by (nonlinear_arith);
        assert(rise >= 0 ==> rise * frame_rate >= 0) by (nonlinear_arith)
            requires
                frame_rate >= 0,
        ;
        assert(rise <= 0 ==> rise * frame_rate <= 0) by (nonlinear_arith)
            requires
                frame_rate >= 0,
        ;
    }
}

// --- glides -----------------------------------------------------------------

/// The sign of a movement.
pub proof fn lemma_direction(movement: int)
    ensures
        movement >= 0 ==> direction(movement) == 1,
        movement < 0 ==> direction(movement) == -1,
{
}

/// Around frame `j` the pitch is steep in one direction when from the frame before to the
/// frame after it moves that way at least as fast as a glide; at an edge of the run the
/// frame itself stands for the one that is not there.
pub proof fn lemma_steep_either_way(t: Terrain, j: int)
    requires
        t.run_start <= j < t.run_end,
    ensures
        ({
            let before = if j > t.run_start { j - 1 } else { j };
            let after = if j + 1 < t.run_end { j + 1 } else { j };
            let frames = if after - before >= 1 { after - before } else { 1 };
            let rise = t.cents[after] - t.cents[before];
            let needed = t.config.glide_slope_cents_per_sec * 1_000_000_000 * frames;
            &&& t.steep(1, j) <==> rise * t.frame_rate >= needed
            &&& t.steep(-1, j) <==> -(rise * t.frame_rate) >= needed
            &&& t.run_start < j < t.run_end - 1 ==> frames == 2
        }),
{
    let before = if j > t.run_start { j - 1 } else { j };
    let after = if j + 1 < t.run_end { j + 1 } else { j };
    let rise = t.cents[after] - t.cents[before];
    assert((-1) * rise * t.frame_rate == -(rise * t.frame_rate)) by (nonlinear_arith);
    assert(1 * rise * t.frame_rate == rise * t.frame_rate) by (nonlinear_arith);
}

/// Whether frame `x` can belong to a glide that goes up (`dir` 1) or down (`dir` -1) and
/// leaves or reaches the pitch `from` or `to`: the pitch is steep there and still further
/// than half the stability on its way.
pub open spec fn still_leaving(t: Terrain, dir: int, from: int, x: int) -> bool {
    &&& t.steep(dir, x)
    &&& if dir == 1 {
        2 * (t.cents[x] - from) > t.config.stability_cents
    } else {
        2 * (from - t.cents[x]) > t.config.stability_cents
    }
}

/// See `still_leaving`.
pub open spec fn not_yet_there(t: Terrain, dir: int, to: int, x: int) -> bool {
    &&& t.steep(dir, x)
    &&& if dir == 1 {
        2 * (to - t.cents[x]) > t.config.stability_cents
    } else {
        2 * (t.cents[x] - to) > t.config.stability_cents
    }
}

/// A glide grows back over every frame that has left the note before it and no further: it
/// stops at the first that has not, at the floor, or when it is as long as a glide may be.
pub proof fn lemma_grows_back_as_far_as_it_can(
    t: Terrain,
    dir: int,
    floor: int,
    from: int,
    start: int,
    end: int,
)
    requires
        dir == 1 || dir == -1,
        0 <= floor <= start <= end,
    ensures
        ({
            let g = t.grow_back(dir, floor, from, start, end);
            &&& floor <= g <= start
            &&& forall|x: int| g <= x < start ==> #[trigger] still_leaving(t, dir, from, x)
            &&& g < start ==> end - g <= t.config.max_glide_frames
            &&& g > floor && end - g < t.config.max_glide_frames ==> !still_leaving(
                t,
                dir,
                from,
                g - 1,
            )
        }),
    decreases start,
{
    let x = start - 1;
    if start > floor && end - start < t.config.max_glide_frames && still_leaving(t, dir, from, x) {
        lemma_grows_back_as_far_as_it_can(t, dir, floor, from, x, end);
    }
}

/// A glide grows forward over every frame that has not reached its note and no further: it
/// stops at the first that has, at the limit, or when it is as long as a glide may be.
pub proof fn lemma_grows_forward_as_far_as_it_can(
    t: Terrain,
    dir: int,
    limit: int,
    to: int,
    start: int,
    end: int,
)
    requires
        dir == 1 || dir == -1,
        start <= end,
    ensures
        ({
            let g = t.grow_forward(dir, limit, to, start, end);
            &&& end <= g && (g <= limit || g == end)
            &&& forall|x: int| end <= x < g ==> #[trigger] not_yet_there(t, dir, to, x)
            &&& g > end ==> g - start <= t.config.max_glide_frames
            &&& g < limit && g - start < t.config.max_glide_frames ==> !not_yet_there(
                t,
                dir,
                to,
                g,
            )
        }),
    decreases limit - end,
{
    if end < limit && end - start < t.config.max_glide_frames && not_yet_there(t, dir, to, end) {
        lemma_grows_forward_as_far_as_it_can(t, dir, limit, to, start, end + 1);
    }
}

/// A movement counts as a glide when it is two frames long at least and as deep as asked, in
/// its own direction.
pub proof fn lemma_counts_either_way(t: Terrain, anchor: int, start: int, end: int)
    ensures
        t.counts(1, anchor, start, end) <==> end - start >= 2 && t.cents[end] - anchor
            >= t.config.glide_min_cents,
        t.counts(-1, anchor, start, end) <==> end - start >= 2 && anchor - t.cents[end]
            >= t.config.glide_min_cents,
{
}

/// Two notes whose centres lie closer than the least depth of a glide, whichever is higher,
/// have no glide between them.
pub proof fn lemma_close_notes_have_no_glide(t: Terrain, pieces: Seq<Piece>, k: int)
    requires
        1 <= k < pieces.len(),
        core_len(pieces[k]) >= t.min_frames(),
        core_len(pieces[k - 1]) >= t.min_frames(),
        ({
            let a = pieces[k - 1];
            let b = pieces[k];
            let from = t.center(a.start + a.glide, a.end as int);
            let to = t.center(b.start + b.glide, b.end as int);
            to - from < t.config.glide_min_cents && from - to < t.config.glide_min_cents
        }),
    ensures
        t.refine(pieces, k) == pieces.update(k, Piece { glide: 0, ..pieces[k] }),
{
}

/// The glide that joins two notes: it begins in the note before, after its least number of
/// frames, ends before the least number of frames of its own, is two frames long at least,
/// no longer than a glide may be, and from the frame before it to the frame after it moves
/// by at least the least depth in the direction in which the centres lie. All other pieces
/// stay.
pub proof fn lemma_glide_joins_notes(t: Terrain, pieces: Seq<Piece>, k: int)
    requires
        t.config.min_note_frames >= 1,
        1 <= k < pieces.len(),
        core_len(pieces[k]) >= t.min_frames(),
        core_len(pieces[k - 1]) >= t.min_frames(),
        pieces[k - 1].end == pieces[k].start,
        t.refine(pieces, k)[k].glide > 0,
    ensures
        ({
            let a = pieces[k - 1];
            let b = pieces[k];
            let after = t.refine(pieces, k);
            let from = t.center(a.start + a.glide, a.end as int);
            let to = t.center(b.start + b.glide, b.end as int);
            let start = after[k].start as int;
            let end = start + after[k].glide;
            let min = t.config.min_note_frames as int;
            &&& after.len() == pieces.len()
            &&& after[k - 1].start == a.start && after[k - 1].glide == a.glide
            &&& after[k - 1].end == start
            &&& after[k].end == b.end
            &&& forall|i: int|
                0 <= i < pieces.len() && i != k && i != k - 1 ==> #[trigger] after[i] == pieces[i]
            &&& start >= a.start + a.glide + min
            &&& end + min <= b.end
            &&& 2 <= end - start <= t.config.max_glide_frames
            &&& to >= from ==> to - from >= t.config.glide_min_cents && t.cents[end] - t.cents[start
                - 1] >= t.config.glide_min_cents
            &&& to < from ==> from - to >= t.config.glide_min_cents && t.cents[start - 1]
                - t.cents[end] >= t.config.glide_min_cents
        }),
{
    let a = pieces[k - 1];
    let b = pieces[k];
    let core = b.start + b.glide;
    let from_core = a.start + a.glide;
    let from = t.center(from_core, a.end as int);
    let to = t.center(core, b.end as int);
    let dir = direction(to - from);
    let floor = from_core + t.min_frames();
    let grown = t.grow_back(dir, floor, from, b.start as int, core);
    lemma_grows_back_as_far_as_it_can(t, dir, floor, from, b.start as int, core);
    lemma_grows_forward_as_far_as_it_can(t, dir, b.end - t.min_frames(), to, grown, core);
    let (start, end) = t.glide_between(a, b);
    assert(t.has_glide_between(a, b));
    lemma_counts_either_way(t, t.cents[start - 1] as int, start, end);
    assert(0 <= start <= usize::MAX && 0 <= end - start <= usize::MAX);
}

/// The glide out of silence of the first note of a run: it begins where the note does, ends
/// before the least number of frames of the note, is two frames long at least, and moves by
/// at least the least depth towards the note's centre. A note without one has none.
pub proof fn lemma_scoop(t: Terrain, b: Piece)
    requires
        t.config.min_note_frames >= 1,
        core_len(b) >= t.min_frames(),
    ensures
        ({
            let after = t.refine_first(b);
            let to = t.center(b.start + b.glide, b.end as int);
            let end = b.start + after.glide;
            &&& after.start == b.start && after.end == b.end
            &&& after.glide > 0 ==> {
                &&& after.glide >= 2
                &&& after.glide >= b.glide
                &&& end + t.config.min_note_frames <= b.end
                &&& after.glide > b.glide ==> after.glide <= t.config.max_glide_frames
                &&& to >= t.cents[b.start as int] ==> t.cents[end] - t.cents[b.start as int]
                    >= t.config.glide_min_cents
                &&& to < t.cents[b.start as int] ==> t.cents[b.start as int] - t.cents[end]
                    >= t.config.glide_min_cents
            }
        }),
{
    let core = b.start + b.glide;
    let to = t.center(core, b.end as int);
    let dir = direction(to - t.cents[b.start as int]);
    let limit = b.end - t.min_frames();
    lemma_grows_forward_as_far_as_it_can(t, dir, limit, to, b.start as int, core);
    let end = t.grow_forward(dir, limit, to, b.start as int, core);
    lemma_counts_either_way(t, t.cents[b.start as int] as int, b.start as int, end);
    assert(0 <= end - b.start <= usize::MAX);
}

// --- chains -----------------------------------------------------------------

proof fn lemma_chain_begins(t: Terrain, merged: Seq<Span>, i: int, k: int)
    requires
        0 <= i < k <= merged.len(),
        i > 0 ==> !t.is_step(merged[i - 1]),
        forall|m: int| i <= m < k ==> t.is_step(#[trigger] merged[m]),
    ensures
        t.chained(merged, k) == (t.chained(merged, i).0, Some(merged[i].start)),
        t.chained(merged, i).1 is None,
    decreases k - i,
{
    if k == i + 1 {
        assert(t.is_step(merged[i]));
        if i > 0 {
            assert(!t.is_step(merged[i - 1]));
        }
    } else {
        lemma_chain_begins(t, merged, i, k - 1);
        assert(t.is_step(merged[k - 1]));
    }
}

/// Stair-steps are the glide of the note that they lead into: ranges from `i` up to `k`
/// that are steps, with a range after them that is long enough and no step, make one piece,
/// whose glide they are. Where the range after them is too short for a note they make a
/// piece of their own, without a glide, and so does it.
pub proof fn lemma_steps_lead_into_note(t: Terrain, merged: Seq<Span>, i: int, k: int)
    requires
        0 <= i < k < merged.len(),
        i > 0 ==> !t.is_step(merged[i - 1]),
        forall|m: int| i <= m < k ==> t.is_step(#[trigger] merged[m]),
        !t.is_step(merged[k]),
        merged[i].start <= merged[k].start,
    ensures
        ({
            let before = t.chained(merged, i).0;
            let after = t.chained(merged, k + 1);
            let note = merged[k];
            &&& after.1 is None
            &&& note.end - note.start >= t.config.min_note_frames ==> after.0 == before.push(
                Piece {
                    start: merged[i].start,
                    end: note.end,
                    glide: (note.start - merged[i].start) as usize,
                },
            )
            &&& note.end - note.start < t.config.min_note_frames ==> after.0 == before.push(
                Piece { start: merged[i].start, end: note.start, glide: 0 },
            ).push(Piece { start: note.start, end: note.end, glide: 0 })
        }),
{
    lemma_chain_begins(t, merged, i, k);
}

/// Where no range is a step, every range is a piece of its own, without a glide.
pub proof fn lemma_no_steps(t: Terrain, merged: Seq<Span>, k: int)
    requires
        0 <= k <= merged.len(),
        forall|m: int| 0 <= m < merged.len() ==> !t.is_step(#[trigger] merged[m]),
    ensures
        ({
            let (pieces, chain) = t.chained(merged, k);
            &&& chain is None
            &&& pieces.len() == k
            &&& forall|m: int|
                0 <= m < k ==> #[trigger] pieces[m] == (Piece {
                    start: merged[m].start,
                    end: merged[m].end,
                    glide: 0,
                })
        }),
    decreases k,
{
    if k > 0 {
        lemma_no_steps(t, merged, k - 1);
        assert(!t.is_step(merged[k - 1]));
    }
}

// --- the shape of a glide ---------------------------------------------------

/// The shape of a glide is the way that its frames have come: entry `j` over the span is to
/// 1 as the distance of frame `j` from the anchor is to the depth, upwards or downwards.
/// The anchor is the pitch of the frame before the note where that is voiced, and that of
/// the note's first frame otherwise.
pub proof fn lemma_glide_shape(c: NoteContour, frames: Seq<Frame>, p: Piece, j: int)
    requires
        carries_glide(c, frames, p),
        0 <= j < p.glide,
    ensures
        ({
            let anchor = if p.start > 0 && frames[p.start - 1].voiced {
                frames[p.start - 1].cents
            } else {
                frames[p.start as int].cents
            };
            let depth = frames[p.start + p.glide].cents - anchor;
            &&& c.onset_glide@.len() == p.glide
            &&& c.onset_glide_depth_cents == depth
            &&& c.onset_glide_span >= 1
            &&& depth >= 1000 || depth <= -1000 ==> c.onset_glide@[j] * depth == c.onset_glide_span
                * (frames[p.start + j].cents - anchor)
            &&& -1000 < depth < 1000 ==> c.onset_glide@[j] * p.glide == c.onset_glide_span * j
        }),
{
    let anchor = crate::segment::glide_anchor(frames, p.start as int);
    let depth = frames[p.start + p.glide].cents - anchor;
    let far = frames[p.start + j].cents - anchor;
    if depth >= 1000 {
        assert(1 * far * depth == depth * far) by (nonlinear_arith);
    } else if depth <= -1000 {
        assert((-1) * far * depth == (-depth) * far) by (nonlinear_arith);
    } else {
        assert(j * p.glide == p.glide * j) by (nonlinear_arith);
    }
}

// --- when there is a glide --------------------------------------------------

/// Whether a note has a glide from the note before it, and which: a glide that grows back from the
/// note's start and forward from its core, cut at its start to the longest that a glide may be, is
/// there exactly if the centres lie at least the least depth apart, and it is two frames long at
/// least and as deep in the direction of the centres. Otherwise the note has none. Where the core of
/// either is too short for a note, both stay as they are.
pub proof fn lemma_glide_exactly(t: Terrain, pieces: Seq<Piece>, k: int)
    requires
        t.config.min_note_frames >= 1,
        1 <= k < pieces.len(),
        pieces[k - 1].end == pieces[k].start,
    ensures
        ({
            let a = pieces[k - 1];
            let b = pieces[k];
            let min = t.config.min_note_frames as int;
            let most = t.config.max_glide_frames as int;
            let least = t.config.glide_min_cents as int;
            let core = b.start + b.glide;
            let from_core = a.start + a.glide;
            let short = b.end - core < min || a.end - from_core < min;
            let from = upper_median(t.cents.subrange(from_core, a.end as int));
            let to = upper_median(t.cents.subrange(core, b.end as int));
            let dir = if to < from { -1int } else { 1 };
            let grown = t.grow_back(dir, from_core + min, from as int, b.start as int, core);
            let end = t.grow_forward(dir, b.end - min, to as int, grown, core);
            let start = if end - grown > most { end - most } else { grown };
            let deep = if to < from {
                from - to >= least && t.cents[start - 1] - t.cents[end] >= least
            } else {
                to - from >= least && t.cents[end] - t.cents[start - 1] >= least
            };
            let after = t.refine(pieces, k);
            &&& short ==> after == pieces
            &&& !short && end - start >= 2 && deep ==> after == pieces.update(
                k - 1,
                Piece { start: a.start, end: start as usize, glide: a.glide },
            ).update(k, Piece { start: start as usize, end: b.end, glide: (end - start) as usize })
            &&& !short && !(end - start >= 2 && deep) ==> after == pieces.update(
                k,
                Piece { start: b.start, end: b.end, glide: 0 },
            )
        }),
{
    let a = pieces[k - 1];
    let b = pieces[k];
    let from = t.center(a.start + a.glide, a.end as int);
    let to = t.center(b.start + b.glide, b.end as int);
    let (start, end) = t.glide_between(a, b);
    lemma_counts_either_way(t, t.cents[start - 1] as int, start, end);
    lemma_direction(to - from);
}

/// Whether the first note of a run has a glide, and which: one that begins where the note does and
/// grows forward from its core towards the note's centre is there exactly if it is two frames long at
/// least and as deep in that direction as asked. Where the core is too short for a note, it stays as it
/// is.
pub proof fn lemma_scoop_exactly(t: Terrain, pieces: Seq<Piece>)
    requires
        t.config.min_note_frames >= 1,
        pieces.len() > 0,
    ensures
        ({
            let b = pieces[0];
            let min = t.config.min_note_frames as int;
            let least = t.config.glide_min_cents as int;
            let core = b.start + b.glide;
            let first = t.cents[b.start as int];
            let to = upper_median(t.cents.subrange(core, b.end as int));
            let dir = if to < first { -1int } else { 1 };
            let end = t.grow_forward(dir, b.end - min, to as int, b.start as int, core);
            let deep = if to < first {
                first - t.cents[end] >= least
            } else {
                t.cents[end] - first >= least
            };
            let after = t.refine(pieces, 0);
            &&& b.end - core < min ==> after == pieces
            &&& b.end - core >= min && end - b.start >= 2 && deep ==> after == pieces.update(
                0,
                Piece { start: b.start, end: b.end, glide: (end - b.start) as usize },
            )
            &&& b.end - core >= min && !(end - b.start >= 2 && deep) ==> after == pieces.update(
                0,
                Piece { start: b.start, end: b.end, glide: 0 },
            )
        }),
{
    let b = pieces[0];
    let core = b.start + b.glide;
    let to = t.center(core, b.end as int);
    let first = t.cents[b.start as int] as int;
    lemma_direction(to - first);
    let dir = direction(to - first);
    let end = t.grow_forward(dir, b.end - t.min_frames(), to, b.start as int, core);
    lemma_counts_either_way(t, first, b.start as int, end);
}

/// Onsets are refined one after another, the first first.
pub proof fn lemma_onsets_in_turn(t: Terrain, pieces: Seq<Piece>, k: int)
    requires
        0 <= k,
    ensures
        t.refined(pieces, 0) == pieces,
        t.refined(pieces, k + 1) == t.refine(t.refined(pieces, k), k),
{
}

/// A range that is no step, with none waiting before it, is a piece of its own, without a glide.
pub proof fn lemma_plain_range(t: Terrain, merged: Seq<Span>, k: int)
    requires
        0 <= k < merged.len(),
        k > 0 ==> !t.is_step(merged[k - 1]),
        !t.is_step(merged[k]),
    ensures
        t.chained(merged, k + 1) == (
            t.chained(merged, k).0.push(
                Piece { start: merged[k].start, end: merged[k].end, glide: 0 },
            ),
            None::<usize>,
        ),
{
    if k > 0 {
        assert(!t.is_step(merged[k - 1]));
        assert(t.chained(merged, k).1 is None);
    }
}

/// Steps at the end of a run, with no note after them, are a piece of their own, without a glide; a run
/// that ends otherwise has no piece more.
pub proof fn lemma_last_steps(t: Terrain, merged: Seq<Span>, i: int)
    requires
        0 <= i <= merged.len(),
        i > 0 ==> !t.is_step(merged[i - 1]),
        forall|m: int| i <= m < merged.len() ==> t.is_step(#[trigger] merged[m]),
    ensures
        i < merged.len() ==> t.unchained(merged) == t.chained(merged, i).0.push(
            Piece { start: merged[i].start, end: t.run_end as usize, glide: 0 },
        ),
        i == merged.len() ==> t.unchained(merged) == t.chained(merged, i).0,
{
    if i < merged.len() {
        lemma_chain_begins(t, merged, i, merged.len() as int);
    } else if i > 0 {
        assert(!t.is_step(merged[i - 1]));
    }
}

/// A range is a step when it is long enough for a note and its pitches are a transition.
pub proof fn lemma_step_is_transition(t: Terrain, range: Span)
    ensures
        t.is_step(range) <==> range.end - range.start >= t.config.min_note_frames && is_transition(
            t.cents.subrange(range.start as int, range.end as int),
            t.frame_rate,
            t.config,
        ),
{
}

} // verus!
