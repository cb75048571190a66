//! Note ranges of a voiced run: folding short notes into their neighbours, and
//! attaching the glides between notes to the note that they lead into.

use crate::contour::{bounded, SegmentConfig, MAX_FRAMES, PITCH_LIMIT};
use crate::median::{median_cents, upper_median};
use crate::notes::{as_ints, strictly_ascending};
use crate::num::{abs_of, max_of, min_of};
use vstd::prelude::*;

verus! {

/// A stretch of frames, from `start` up to but not including `end`.
#[derive(Clone, Copy, Debug, PartialEq, Eq, Structural)]
pub struct Span {
    pub start: usize,
    pub end: usize,
}

/// A stretch of frames whose first `glide` frames lead into the note.
#[derive(Clone, Copy, Debug, PartialEq, Eq, Structural)]
pub struct Piece {
    pub start: usize,
    pub end: usize,
    pub glide: usize,
}

/// Whether the spans are non-empty and follow one another from `start` to `end`.
pub open spec fn spans_tile(s: Seq<Span>, start: int, end: int) -> bool {
    &&& s.len() > 0
    &&& s[0].start == start
    &&& s[s.len() - 1].end == end
    &&& forall|i: int| 0 <= i < s.len() ==> (#[trigger] s[i]).start < s[i].end
    &&& forall|i: int, j: int|
        0 <= i && j == i + 1 && j < s.len() ==> (#[trigger] s[i]).end == (#[trigger] s[j]).start
}

/// Whether the pieces are non-empty, follow one another from `start` to `end`,
/// and hold their glides.
pub open spec fn pieces_tile(s: Seq<Piece>, start: int, end: int) -> bool {
    &&& s.len() > 0
    &&& s[0].start == start
    &&& s[s.len() - 1].end == end
    &&& forall|i: int|
        0 <= i < s.len() ==> {
            &&& (#[trigger] s[i]).start < s[i].end
            &&& s[i].start + s[i].glide <= s[i].end
        }
    &&& forall|i: int, j: int|
        0 <= i && j == i + 1 && j < s.len() ==> (#[trigger] s[i]).end == (#[trigger] s[j]).start
}

/// A tiling stays within its ends.
pub proof fn lemma_spans_within(s: Seq<Span>, start: int, end: int, i: int)
    requires
        spans_tile(s, start, end),
        0 <= i < s.len(),
    ensures
        start <= s[i].start < s[i].end <= end,
{
    lemma_span_from_start(s, start, end, i);
    lemma_span_to_end(s, start, end, i);
}

proof fn lemma_span_from_start(s: Seq<Span>, start: int, end: int, i: int)
    requires
        spans_tile(s, start, end),
        0 <= i < s.len(),
    ensures
        start <= s[i].start,
    decreases i,
{
    if i > 0 {
        lemma_span_from_start(s, start, end, i - 1);
        assert(s[i - 1].end == s[i].start);
    }
}

proof fn lemma_span_to_end(s: Seq<Span>, start: int, end: int, i: int)
    requires
        spans_tile(s, start, end),
        0 <= i < s.len(),
    ensures
        s[i].end <= end,
    decreases s.len() - i,
{
    if i < s.len() - 1 {
        lemma_span_to_end(s, start, end, i + 1);
        assert(s[i].end == s[i + 1].start);
    }
}

/// A tiling stays within its ends.
pub proof fn lemma_pieces_within(s: Seq<Piece>, start: int, end: int, i: int)
    requires
        pieces_tile(s, start, end),
        0 <= i < s.len(),
    ensures
        start <= s[i].start < s[i].end <= end,
{
    let spans = Seq::new(s.len(), |k: int| Span { start: s[k].start, end: s[k].end });
    assert(spans_tile(spans, start, end)) by {
        assert forall|k: int| 0 <= k < spans.len() implies (#[trigger] spans[k]).start
            < spans[k].end by {
            assert(s[k].start < s[k].end);
        }
        assert forall|k: int, m: int| 0 <= k && m == k + 1 && m < spans.len() implies (
        #[trigger] spans[k]).end == (#[trigger] spans[m]).start by {
            assert(s[k].end == s[m].start);
        }
    }
    lemma_spans_within(spans, start, end, i);
}

// --- ranges between note starts ---------------------------------------------

/// The range of note `i`: from its start to the next note's, the last one to the
/// end of the run.
pub open spec fn note_range(starts: Seq<int>, run_start: int, run_end: int, i: int) -> Span {
    Span {
        start: (starts[i] + run_start) as usize,
        end: (if i + 1 < starts.len() { starts[i + 1] + run_start } else { run_end }) as usize,
    }
}

/// The ranges of all notes of a run.
pub open spec fn note_ranges(starts: Seq<int>, run_start: int, run_end: int) -> Seq<Span> {
    Seq::new(starts.len(), |i: int| note_range(starts, run_start, run_end, i))
}

proof fn lemma_note_ranges_tile(starts: Seq<int>, run_start: int, run_end: int)
    requires
        starts.len() > 0,
        starts[0] == 0,
        strictly_ascending(starts),
        0 <= run_start < run_end <= MAX_FRAMES,
        forall|i: int| 0 <= i < starts.len() ==> 0 <= #[trigger] starts[i] < run_end - run_start,
    ensures
        spans_tile(note_ranges(starts, run_start, run_end), run_start, run_end),
{
    let r = note_ranges(starts, run_start, run_end);
    assert forall|i: int| 0 <= i < r.len() implies (#[trigger] r[i]).start < r[i].end by {
        if i + 1 < starts.len() {
            assert(starts[i] < starts[i + 1]);
        }
    }
    assert forall|i: int, j: int| 0 <= i && j == i + 1 && j < r.len() implies (
    #[trigger] r[i]).end == (#[trigger] r[j]).start by {
        assert(0 <= starts[j] < run_end - run_start);
    }
}

// --- folding short notes ----------------------------------------------------

/// The folded ranges after one more range. A short range extends the one before
/// it; a long one extends the one before it when that is short.
pub open spec fn merge_step(merged: Seq<Span>, range: Span, min_frames: int) -> Seq<Span> {
    if merged.len() == 0 {
        seq![range]
    } else {
        let last = merged[merged.len() - 1];
        if range.end - range.start < min_frames || last.end - last.start < min_frames {
            merged.update(merged.len() - 1, Span { start: last.start, end: range.end })
        } else {
            merged.push(range)
        }
    }
}

/// The first `k` ranges with the short ones folded into their neighbours.
pub open spec fn merge_short(ranges: Seq<Span>, min_frames: int, k: int) -> Seq<Span>
    decreases k,
{
    if k <= 0 {
        Seq::empty()
    } else {
        merge_step(merge_short(ranges, min_frames, k - 1), ranges[k - 1], min_frames)
    }
}

/// Whether every range has at least `min_frames` frames.
pub open spec fn all_long(ranges: Seq<Span>, min_frames: int) -> bool {
    forall|i: int|
        0 <= i < ranges.len() ==> (#[trigger] ranges[i]).end - ranges[i].start >= min_frames
}

/// Folding keeps the frames covered, and leaves a short range only where it is
/// the only one.
pub proof fn lemma_merge_short(ranges: Seq<Span>, start: int, end: int, min_frames: int, k: int)
    requires
        spans_tile(ranges, start, end),
        1 <= k <= ranges.len(),
    ensures
        spans_tile(merge_short(ranges, min_frames, k), start, ranges[k - 1].end as int),
        merge_short(ranges, min_frames, k).len() > 1 ==> all_long(
            merge_short(ranges, min_frames, k),
            min_frames,
        ),
        merge_short(ranges, min_frames, k).len() <= k,
    decreases k,
{
    let before = merge_short(ranges, min_frames, k - 1);
    let after = merge_short(ranges, min_frames, k);
    if k > 1 {
        lemma_merge_short(ranges, start, end, min_frames, k - 1);
        assert(ranges[k - 2].end == ranges[k - 1].start);
        assert(ranges[k - 1].start < ranges[k - 1].end);
        let last = before[before.len() - 1];
        assert(last.start < last.end);
        assert forall|i: int, j: int| 0 <= i && j == i + 1 && j < after.len() implies (
        #[trigger] after[i]).end == (#[trigger] after[j]).start by {
            if j < before.len() {
                assert(before[i].end == before[j].start);
            }
        }
        assert forall|i: int| 0 <= i < after.len() implies (#[trigger] after[i]).start
            < after[i].end by {
            if i < before.len() {
                assert(before[i].start < before[i].end);
            }
        }
        if after.len() > 1 {
            assert forall|i: int| 0 <= i < after.len() implies (#[trigger] after[i]).end
                - after[i].start >= min_frames by {
                if i < before.len() {
                    assert(before.len() > 1 ==> before[i].end - before[i].start >= min_frames);
                }
            }
        }
    } else {
        assert(ranges[0].start < ranges[0].end);
        assert(after =~= seq![ranges[0]]);
    }
}

/// Split a run at its note starts and fold the short notes into their neighbours.
pub fn merge_notes(starts: &[usize], run_start: usize, run_end: usize, min_frames: usize) -> (merged:
    Vec<Span>)
    requires
        starts@.len() > 0,
        starts@[0] == 0,
        strictly_ascending(as_ints(starts@)),
        run_start < run_end <= MAX_FRAMES,
        forall|i: int| 0 <= i < starts@.len() ==> #[trigger] starts@[i] < run_end - run_start,
    ensures
        merged@ == merge_short(
            note_ranges(as_ints(starts@), run_start as int, run_end as int),
            min_frames as int,
            starts@.len() as int,
        ),
        spans_tile(merged@, run_start as int, run_end as int),
        merged@.len() > 1 ==> all_long(merged@, min_frames as int),
{
    let ghost ranges = note_ranges(as_ints(starts@), run_start as int, run_end as int);
    proof {
        assert(as_ints(starts@)[0] == starts@[0]);
        assert forall|i: int| 0 <= i < as_ints(starts@).len() implies 0 <= #[trigger] as_ints(
            starts@,
        )[i] < run_end - run_start by {
            assert(starts@[i] < run_end - run_start);
        }
        lemma_note_ranges_tile(as_ints(starts@), run_start as int, run_end as int);
    }
    let mut merged: Vec<Span> = Vec::new();
    let mut b: usize = 0;
    while b < starts.len()
        invariant
            b <= starts@.len(),
            run_start < run_end <= MAX_FRAMES,
            forall|i: int| 0 <= i < starts@.len() ==> #[trigger] starts@[i] < run_end - run_start,
            ranges == note_ranges(as_ints(starts@), run_start as int, run_end as int),
            spans_tile(ranges, run_start as int, run_end as int),
            merged@ == merge_short(ranges, min_frames as int, b as int),
        decreases starts@.len() - b,
    {
        let start: usize = starts[b] + run_start;
        let end: usize = if b + 1 < starts.len() { starts[b + 1] + run_start } else { run_end };
        let range = Span { start, end };
        assert(range == ranges[b as int]);
        proof {
            assert(ranges[b as int].start < ranges[b as int].end);
            if b > 0 {
                lemma_merge_short(
                    ranges,
                    run_start as int,
                    run_end as int,
                    min_frames as int,
                    b as int,
                );
            }
        }
        let ghost before = merged@;
        let count: usize = merged.len();
        if count == 0 {
            merged.push(range);
            assert(merged@ =~= seq![range]);
        } else {
            let last = merged[count - 1];
            assert(last.start < last.end);
            if end - start < min_frames || last.end - last.start < min_frames {
                merged.set(count - 1, Span { start: last.start, end });
            } else {
                merged.push(range);
            }
        }
        assert(merged@ == merge_step(before, range, min_frames as int));
        b = b + 1;
    }
    proof {
        lemma_merge_short(
            ranges,
            run_start as int,
            run_end as int,
            min_frames as int,
            b as int,
        );
    }
    merged
}

// --- transitions ------------------------------------------------------------

/// The pitch steps over the first `k` samples, summed without sign.
pub open spec fn travel(cents: Seq<i64>, k: int) -> int
    decreases k,
{
    if k <= 1 {
        0
    } else {
        travel(cents, k - 1) + abs_of(cents[k - 1] - cents[k - 2])
    }
}

/// Whether the pitches are a sustained, mostly monotone movement: steep enough on
/// the whole, with a median that holds at neither end, and with at least four
/// fifths of the distance travelled being net movement.
pub open spec fn is_transition(cents: Seq<i64>, frame_rate: int, config: SegmentConfig) -> bool {
    let n = cents.len() as int;
    let net = abs_of(cents[n - 1] - cents[0]);
    let m = upper_median(cents);
    &&& n >= 2
    &&& net * frame_rate >= config.glide_slope_cents_per_sec * 1_000_000_000 * (n - 1)
    &&& 2 * abs_of(m - cents[0]) > config.stability_cents
    &&& 2 * abs_of(m - cents[n - 1]) > config.stability_cents
    &&& travel(cents, n) > 0
    &&& 5 * net >= 4 * travel(cents, n)
}

proof fn lemma_slope_products(a: int, rate: int, slope: int, len: int)
    requires
        -240_000_000_000_000 <= a <= 240_000_000_000_000,
        0 <= rate <= 0xffff_ffff_ffff_ffff,
        -0x8000_0000_0000_0000 <= slope <= 0x7fff_ffff_ffff_ffff,
        0 <= len <= 0x400_0000,
    ensures
        -0x100_0000_0000_0000_0000_0000_0000_0000 <= a * rate
            <= 0x100_0000_0000_0000_0000_0000_0000_0000,
        -0x100_0000_0000_0000_0000_0000_0000_0000 <= slope * 1_000_000_000 * len
            <= 0x100_0000_0000_0000_0000_0000_0000_0000,
{
    assert(-240_000_000_000_000 * 0xffff_ffff_ffff_ffff <= a * rate <= 240_000_000_000_000
        * 0xffff_ffff_ffff_ffff) by (nonlinear_arith)
        requires
            -240_000_000_000_000 <= a <= 240_000_000_000_000,
            0 <= rate <= 0xffff_ffff_ffff_ffff,
    ;
    assert(-0x8000_0000_0000_0000 * 1_000_000_000 * 0x400_0000 <= slope * 1_000_000_000 * len
        <= 0x8000_0000_0000_0000 * 1_000_000_000 * 0x400_0000) by (nonlinear_arith)
        requires
            -0x8000_0000_0000_0000 <= slope <= 0x7fff_ffff_ffff_ffff,
            0 <= len <= 0x400_0000,
    ;
}

/// Whether the pitches are a transition between notes.
pub fn detect_transition(cents: &[i64], frame_rate: u64, config: &SegmentConfig) -> (yes: bool)
    requires
        cents@.len() <= MAX_FRAMES,
        bounded(cents@, PITCH_LIMIT as int),
    ensures
        yes == is_transition(cents@, frame_rate as int, *config),
{
    let n: usize = cents.len();
    if n < 2 {
        return false;
    }
    let first: i64 = cents[0];
    let last: i64 = cents[n - 1];
    let net: i64 = if last < first { first - last } else { last - first };
    proof {
        lemma_slope_products(
            net as int,
            frame_rate as int,
            config.glide_slope_cents_per_sec as int,
            n - 1,
        );
    }
    let moved: i128 = net as i128 * frame_rate as i128;
    let needed: i128 = config.glide_slope_cents_per_sec as i128 * 1_000_000_000 * (n - 1) as i128;
    if moved < needed {
        return false;
    }
    let m: i64 = median_cents(cents);
    let off_first: i64 = if m < first { first - m } else { m - first };
    let off_last: i64 = if m < last { last - m } else { m - last };
    if 2 * off_first <= config.stability_cents || 2 * off_last <= config.stability_cents {
        return false;
    }
    let mut sum: i128 = 0;
    let mut k: usize = 1;
    while k < n
        invariant
            n == cents@.len(),
            1 <= k <= n <= MAX_FRAMES,
            bounded(cents@, PITCH_LIMIT as int),
            sum == travel(cents@, k as int),
            0 <= sum <= k * 240_000_000_000_000,
        decreases n - k,
    {
        let d: i64 = cents[k] - cents[k - 1];
        let size: i64 = if d < 0 { -d } else { d };
        sum = sum + size as i128;
        k = k + 1;
    }
    sum > 0 && 5 * net as i128 >= 4 * sum
}

// --- attaching glides -------------------------------------------------------

/// What the glide search looks at.
pub struct Terrain {
    /// Cleaned pitches of all frames.
    pub cents: Seq<i64>,
    /// The voiced run that is searched.
    pub run_start: int,
    pub run_end: int,
    pub frame_rate: int,
    pub config: SegmentConfig,
}

impl Terrain {
    /// The pitches fit the arithmetic and the run lies within them.
    pub open spec fn ok(&self) -> bool {
        &&& bounded(self.cents, PITCH_LIMIT as int)
        &&& self.cents.len() <= MAX_FRAMES
        &&& 0 <= self.run_start < self.run_end <= self.cents.len()
        &&& 0 <= self.frame_rate <= u64::MAX
        &&& self.config.min_note_frames >= 1
    }

    /// The least number of frames of a note.
    pub open spec fn min_frames(&self) -> int {
        self.config.min_note_frames as int
    }

    /// The median pitch of frames `a` to `b`.
    pub open spec fn center(&self, a: int, b: int) -> int {
        upper_median(self.cents.subrange(a, b)) as int
    }

    /// Whether the pitch rises (`dir` 1) or falls (`dir` -1) around frame `j` at
    /// least as fast as a glide does.
    pub open spec fn steep(&self, dir: int, j: int) -> bool {
        let a = max_of(j - 1, self.run_start);
        let b = min_of(j + 1, self.run_end - 1);
        dir * (self.cents[b] - self.cents[a]) * self.frame_rate
            >= self.config.glide_slope_cents_per_sec * 1_000_000_000 * max_of(b - a, 1)
    }

    /// How far back a glide that now spans `[start, end)` grows, not before
    /// `floor` and not onto the pitch `from` of the note before it.
    pub open spec fn grow_back(
        &self,
        dir: int,
        floor: int,
        from: int,
        start: int,
        end: int,
    ) -> int
        decreases start,
    {
        if start > floor && start > 0 && end - start < self.config.max_glide_frames && self.steep(
            dir,
            start - 1,
        ) && 2 * dir * (self.cents[start - 1] - from) > self.config.stability_cents {
            self.grow_back(dir, floor, from, start - 1, end)
        } else {
            start
        }
    }

    /// How far forward a glide that now spans `[start, end)` grows, not beyond
    /// `limit` and not onto the pitch `to` of its own note.
    pub open spec fn grow_forward(
        &self,
        dir: int,
        limit: int,
        to: int,
        start: int,
        end: int,
    ) -> int
        decreases limit - end,
    {
        if end < limit && end - start < self.config.max_glide_frames && self.steep(dir, end) && 2
            * dir * (to - self.cents[end]) > self.config.stability_cents {
            self.grow_forward(dir, limit, to, start, end + 1)
        } else {
            end
        }
    }

    /// Whether a glide over `[start, end)` that starts from pitch `anchor` is long
    /// and deep enough to be one.
    pub open spec fn counts(&self, dir: int, anchor: int, start: int, end: int) -> bool {
        end - start >= 2 && dir * (self.cents[end] - anchor) >= self.config.glide_min_cents
    }

    /// The first piece of a run with its onset refined: a glide out of silence
    /// has no note before it to grow back into.
    pub open spec fn refine_first(&self, b: Piece) -> Piece {
        let core = b.start + b.glide;
        let to = self.center(core, b.end as int);
        let dir = direction(to - self.cents[b.start as int]);
        let end = self.grow_forward(dir, b.end - self.min_frames(), to, b.start as int, core);
        Piece {
            glide: (if self.counts(dir, self.cents[b.start as int] as int, b.start as int, end) {
                end - b.start
            } else {
                0
            }) as usize,
            ..b
        }
    }

    /// Where the glide from piece `a` into piece `b` starts and ends.
    pub open spec fn glide_between(&self, a: Piece, b: Piece) -> (int, int) {
        let core = b.start + b.glide;
        let from_core = a.start + a.glide;
        let from = self.center(from_core, a.end as int);
        let to = self.center(core, b.end as int);
        let dir = direction(to - from);
        let grown = self.grow_back(
            dir,
            from_core + self.min_frames(),
            from,
            b.start as int,
            core,
        );
        let end = self.grow_forward(dir, b.end - self.min_frames(), to, grown, core);
        let start = if end - grown > self.config.max_glide_frames {
            end - self.config.max_glide_frames
        } else {
            grown
        };
        (start, end)
    }

    /// Whether there is a glide from piece `a` into piece `b`.
    pub open spec fn has_glide_between(&self, a: Piece, b: Piece) -> bool {
        let from = self.center(a.start + a.glide, a.end as int);
        let to = self.center(b.start + b.glide, b.end as int);
        let (start, end) = self.glide_between(a, b);
        &&& abs_of(to - from) >= self.config.glide_min_cents
        &&& self.counts(direction(to - from), self.cents[start - 1] as int, start, end)
    }

    /// The pieces after the onset of piece `k` has been refined. Pieces with too
    /// short a core, and those after such a piece, stay as they are.
    pub open spec fn refine(&self, pieces: Seq<Piece>, k: int) -> Seq<Piece> {
        let b = pieces[k];
        if core_len(b) < self.min_frames() {
            pieces
        } else if k == 0 {
            pieces.update(0, self.refine_first(b))
        } else if core_len(pieces[k - 1]) < self.min_frames() {
            pieces
        } else {
            let a = pieces[k - 1];
            let (start, end) = self.glide_between(a, b);
            if self.has_glide_between(a, b) {
                pieces.update(k - 1, Piece { end: start as usize, ..a }).update(
                    k,
                    Piece { start: start as usize, glide: (end - start) as usize, ..b },
                )
            } else {
                pieces.update(k, Piece { glide: 0, ..b })
            }
        }
    }

    /// The pieces after the first `k` onsets have been refined.
    pub open spec fn refined(&self, pieces: Seq<Piece>, k: int) -> Seq<Piece>
        decreases k,
    {
        if k <= 0 {
            pieces
        } else {
            self.refine(self.refined(pieces, k - 1), k - 1)
        }
    }

    /// Whether a range is a stair-step of a longer movement rather than a note.
    pub open spec fn is_step(&self, range: Span) -> bool {
        &&& range.end - range.start >= self.min_frames()
        &&& is_transition(
            self.cents.subrange(range.start as int, range.end as int),
            self.frame_rate,
            self.config,
        )
    }

    /// The pieces of the first `k` ranges, and where a chain of stair-steps that
    /// still waits for its note begins.
    pub open spec fn chained(&self, merged: Seq<Span>, k: int) -> (Seq<Piece>, Option<usize>)
        decreases k,
    {
        if k <= 0 {
            (Seq::empty(), None)
        } else {
            let (pieces, chain) = self.chained(merged, k - 1);
            let range = merged[k - 1];
            let whole = Piece { start: range.start, end: range.end, glide: 0 };
            if self.is_step(range) {
                (pieces, if chain is Some { chain } else { Some(range.start) })
            } else {
                match chain {
                    Some(from) => if range.end - range.start >= self.min_frames() {
                        (
                            pieces.push(
                                Piece {
                                    start: from,
                                    end: range.end,
                                    glide: (range.start - from) as usize,
                                },
                            ),
                            None,
                        )
                    } else {
                        (
                            pieces.push(Piece { start: from, end: range.start, glide: 0 }).push(
                                whole,
                            ),
                            None,
                        )
                    },
                    None => (pieces.push(whole), None),
                }
            }
        }
    }

    /// The pieces of all ranges; a chain that meets no note is a piece itself.
    pub open spec fn unchained(&self, merged: Seq<Span>) -> Seq<Piece> {
        let (pieces, chain) = self.chained(merged, merged.len() as int);
        match chain {
            Some(from) => pieces.push(
                Piece { start: from, end: self.run_end as usize, glide: 0 },
            ),
            None => pieces,
        }
    }

    /// The pieces of a run with their glides.
    pub open spec fn glided(&self, merged: Seq<Span>) -> Seq<Piece> {
        let pieces = self.unchained(merged);
        self.refined(pieces, pieces.len() as int)
    }
}

/// The sign of a pitch movement: -1 when it falls, else 1.
pub open spec fn direction(movement: int) -> int {
    if movement < 0 { -1 } else { 1 }
}

/// The number of frames of a piece after its glide.
pub open spec fn core_len(p: Piece) -> int {
    p.end - p.start - p.glide
}

/// Whether every piece that has a glide keeps a full note after it.
pub open spec fn cores_kept(pieces: Seq<Piece>, min_frames: int) -> bool {
    forall|i: int|
        0 <= i < pieces.len() ==> (#[trigger] pieces[i]).glide == 0 || core_len(pieces[i])
            >= min_frames
}

/// Whether no piece but the first has a glide of more than `max_frames` frames.
pub open spec fn glides_capped(pieces: Seq<Piece>, max_frames: int) -> bool {
    forall|i: int| 1 <= i < pieces.len() ==> (#[trigger] pieces[i]).glide <= max_frames
}

/// Whether every piece holds a full note.
pub open spec fn cores_long(pieces: Seq<Piece>, min_frames: int) -> bool {
    forall|i: int| 0 <= i < pieces.len() ==> core_len(#[trigger] pieces[i]) >= min_frames
}

// --- what attaching keeps ---------------------------------------------------

impl Terrain {
    proof fn lemma_grow_back(&self, dir: int, floor: int, from: int, start: int, end: int)
        requires
            0 <= start,
        ensures
            0 <= self.grow_back(dir, floor, from, start, end) <= start,
            start >= floor ==> self.grow_back(dir, floor, from, start, end) >= floor,
        decreases start,
    {
        if start > floor && start > 0 && end - start < self.config.max_glide_frames && self.steep(
            dir,
            start - 1,
        ) && 2 * dir * (self.cents[start - 1] - from) > self.config.stability_cents {
            self.lemma_grow_back(dir, floor, from, start - 1, end);
        }
    }

    proof fn lemma_grow_forward(&self, dir: int, limit: int, to: int, start: int, end: int)
        ensures
            end <= self.grow_forward(dir, limit, to, start, end) <= max_of(end, limit),
        decreases limit - end,
    {
        if end < limit && end - start < self.config.max_glide_frames && self.steep(dir, end) && 2
            * dir * (to - self.cents[end]) > self.config.stability_cents {
            self.lemma_grow_forward(dir, limit, to, start, end + 1);
        }
    }

    /// Refining one onset keeps the run covered and keeps full notes, and a glide
    /// between two notes has at most the largest allowed number of frames.
    pub proof fn lemma_refine(&self, pieces: Seq<Piece>, k: int)
        requires
            self.ok(),
            pieces_tile(pieces, self.run_start, self.run_end),
            cores_kept(pieces, self.min_frames()),
            0 <= k < pieces.len(),
        ensures
            self.refine(pieces, k).len() == pieces.len(),
            pieces_tile(self.refine(pieces, k), self.run_start, self.run_end),
            cores_kept(self.refine(pieces, k), self.min_frames()),
            cores_long(pieces, self.min_frames()) ==> cores_long(
                self.refine(pieces, k),
                self.min_frames(),
            ),
            forall|i: int|
                0 <= i < pieces.len() && i != k ==> (#[trigger] self.refine(pieces, k)[i]).glide
                    == pieces[i].glide,
            k > 0 && cores_long(pieces, self.min_frames()) ==> self.refine(pieces, k)[k].glide
                <= self.config.max_glide_frames,
    {
        let b = pieces[k];
        let now = self.refine(pieces, k);
        let min = self.min_frames();
        lemma_pieces_within(pieces, self.run_start, self.run_end, k);
        if core_len(b) >= min {
            let core = b.start + b.glide;
            if k == 0 {
                let to = self.center(core, b.end as int);
                let dir = direction(to - self.cents[b.start as int]);
                self.lemma_grow_forward(dir, b.end - min, to, b.start as int, core);
            } else {
                let a = pieces[k - 1];
                lemma_pieces_within(pieces, self.run_start, self.run_end, k - 1);
                assert(a.end == b.start);
                if core_len(a) >= min {
                    let from_core = a.start + a.glide;
                    let from = self.center(from_core, a.end as int);
                    let to = self.center(core, b.end as int);
                    let dir = direction(to - from);
                    self.lemma_grow_back(dir, from_core + min, from, b.start as int, core);
                    let grown = self.grow_back(
                        dir,
                        from_core + min,
                        from,
                        b.start as int,
                        core,
                    );
                    self.lemma_grow_forward(dir, b.end - min, to, grown, core);
                }
            }
            assert forall|i: int| 0 <= i < now.len() implies {
                &&& (#[trigger] now[i]).start < now[i].end
                &&& now[i].start + now[i].glide <= now[i].end
                &&& now[i].glide == 0 || core_len(now[i]) >= min
            } by {
                assert(pieces[i].start < pieces[i].end);
                assert(pieces[i].start + pieces[i].glide <= pieces[i].end);
            }
            assert forall|i: int, j: int| 0 <= i && j == i + 1 && j < now.len() implies (
            #[trigger] now[i]).end == (#[trigger] now[j]).start by {
                assert(pieces[i].end == pieces[j].start);
            }
            if cores_long(pieces, min) {
                assert forall|i: int| 0 <= i < now.len() implies core_len(#[trigger] now[i])
                    >= min by {
                    assert(core_len(pieces[i]) >= min);
                }
            }
        }
        if k > 0 && cores_long(pieces, min) {
            assert(core_len(pieces[k]) >= min);
            assert(core_len(pieces[k - 1]) >= min);
        }
    }

    /// What refining the first `k` onsets keeps.
    pub proof fn lemma_refined(&self, pieces: Seq<Piece>, k: int)
        requires
            self.ok(),
            pieces_tile(pieces, self.run_start, self.run_end),
            cores_kept(pieces, self.min_frames()),
            0 <= k <= pieces.len(),
        ensures
            self.refined(pieces, k).len() == pieces.len(),
            pieces_tile(self.refined(pieces, k), self.run_start, self.run_end),
            cores_kept(self.refined(pieces, k), self.min_frames()),
            cores_long(pieces, self.min_frames()) ==> {
                &&& cores_long(self.refined(pieces, k), self.min_frames())
                &&& forall|i: int|
                    1 <= i < k ==> (#[trigger] self.refined(pieces, k)[i]).glide
                        <= self.config.max_glide_frames
            },
        decreases k,
    {
        if k > 0 {
            self.lemma_refined(pieces, k - 1);
            let before = self.refined(pieces, k - 1);
            self.lemma_refine(before, k - 1);
            let now = self.refined(pieces, k);
            if cores_long(pieces, self.min_frames()) {
                assert forall|i: int| 1 <= i < k implies (#[trigger] now[i]).glide
                    <= self.config.max_glide_frames by {
                    if i < k - 1 {
                        assert(before[i].glide <= self.config.max_glide_frames);
                        assert(self.refine(before, k - 1)[i].glide == before[i].glide);
                    }
                }
            }
        }
    }

    /// Chaining stair-steps keeps the run covered and keeps full notes.
    proof fn lemma_chained(&self, merged: Seq<Span>, k: int)
        requires
            self.ok(),
            spans_tile(merged, self.run_start, self.run_end),
            1 <= k <= merged.len(),
        ensures
            ({
                let (pieces, chain) = self.chained(merged, k);
                let end = merged[k - 1].end;
                let stop = if chain is Some { chain->0 } else { end };
                &&& pieces.len() + (if chain is Some { 1int } else { 0 }) <= k
                &&& chain is Some ==> self.run_start <= stop && end - stop >= self.min_frames()
                &&& pieces.len() == 0 ==> chain is Some && stop == self.run_start
                &&& pieces.len() > 0 ==> pieces_tile(pieces, self.run_start, stop as int)
                &&& cores_kept(pieces, self.min_frames())
                &&& all_long(merged, self.min_frames()) ==> cores_long(pieces, self.min_frames())
            }),
        decreases k,
    {
        let range = merged[k - 1];
        lemma_spans_within(merged, self.run_start, self.run_end, k - 1);
        let (now, chain) = self.chained(merged, k);
        let stop = if chain is Some { chain->0 } else { range.end };
        let min = self.min_frames();
        let (before, had) = self.chained(merged, k - 1);
        if k > 1 {
            self.lemma_chained(merged, k - 1);
            lemma_spans_within(merged, self.run_start, self.run_end, k - 2);
            assert(merged[k - 2].end == merged[k - 1].start);
        }
        if all_long(merged, min) {
            assert(range.end - range.start >= min);
        }
        assert forall|i: int| 0 <= i < now.len() implies {
            &&& (#[trigger] now[i]).start < now[i].end
            &&& now[i].start + now[i].glide <= now[i].end
            &&& now[i].glide == 0 || core_len(now[i]) >= min
        } by {
            if i < before.len() {
                assert(before[i].start < before[i].end);
                assert(before[i].start + before[i].glide <= before[i].end);
                assert(before[i].glide == 0 || core_len(before[i]) >= min);
            }
        }
        assert forall|i: int, j: int| 0 <= i && j == i + 1 && j < now.len() implies (
        #[trigger] now[i]).end == (#[trigger] now[j]).start by {
            if j < before.len() {
                assert(before[i].end == before[j].start);
            }
        }
        if all_long(merged, min) {
            assert forall|i: int| 0 <= i < now.len() implies core_len(#[trigger] now[i])
                >= min by {
                if i < before.len() {
                    assert(core_len(before[i]) >= min);
                }
            }
        }
    }

    /// What chaining stair-steps keeps, over all ranges.
    pub proof fn lemma_unchained(&self, merged: Seq<Span>)
        requires
            self.ok(),
            spans_tile(merged, self.run_start, self.run_end),
        ensures
            pieces_tile(self.unchained(merged), self.run_start, self.run_end),
            cores_kept(self.unchained(merged), self.min_frames()),
            all_long(merged, self.min_frames()) ==> cores_long(
                self.unchained(merged),
                self.min_frames(),
            ),
            self.unchained(merged).len() <= merged.len(),
    {
        self.lemma_chained(merged, merged.len() as int);
        let (before, chain) = self.chained(merged, merged.len() as int);
        let now = self.unchained(merged);
        if chain is Some {
            assert forall|i: int, j: int| 0 <= i && j == i + 1 && j < now.len() implies (
            #[trigger] now[i]).end == (#[trigger] now[j]).start by {
                if j < before.len() {
                    assert(before[i].end == before[j].start);
                }
            }
            assert forall|i: int| 0 <= i < now.len() implies {
                &&& (#[trigger] now[i]).start < now[i].end
                &&& now[i].start + now[i].glide <= now[i].end
            } by {
                if i < before.len() {
                    assert(before[i].start < before[i].end);
                    assert(before[i].start + before[i].glide <= before[i].end);
                }
            }
        }
    }

    /// The pieces with their glides cover the run without gap or overlap; a glide
    /// always leaves a full note after it; and where every range was a full note,
    /// so is every piece, and no glide between two of them is longer than the
    /// configuration allows.
    pub proof fn lemma_glided(&self, merged: Seq<Span>)
        requires
            self.ok(),
            spans_tile(merged, self.run_start, self.run_end),
        ensures
            pieces_tile(self.glided(merged), self.run_start, self.run_end),
            cores_kept(self.glided(merged), self.min_frames()),
            all_long(merged, self.min_frames()) ==> {
                &&& cores_long(self.glided(merged), self.min_frames())
                &&& glides_capped(self.glided(merged), self.config.max_glide_frames as int)
            },
            merged.len() == 1 ==> self.glided(merged).len() == 1,
    {
        self.lemma_unchained(merged);
        let pieces = self.unchained(merged);
        self.lemma_refined(pieces, pieces.len() as int);
    }
}

// --- the search -------------------------------------------------------------

/// A run of a contour in which glides are looked for.
struct Search<'a> {
    cents: &'a [i64],
    run_start: usize,
    run_end: usize,
    frame_rate: u64,
    config: &'a SegmentConfig,
}

impl<'a> Search<'a> {
    spec fn terrain(&self) -> Terrain {
        Terrain {
            cents: self.cents@,
            run_start: self.run_start as int,
            run_end: self.run_end as int,
            frame_rate: self.frame_rate as int,
            config: *self.config,
        }
    }

    fn is_steep(&self, dir: i64, j: usize) -> (yes: bool)
        requires
            self.terrain().ok(),
            dir == 1 || dir == -1,
            self.run_start <= j < self.run_end,
        ensures
            yes == self.terrain().steep(dir as int, j as int),
    {
        let a: usize = if j > self.run_start { j - 1 } else { j };
        let b: usize = if j + 1 < self.run_end { j + 1 } else { self.run_end - 1 };
        let rise: i64 = dir * (self.cents[b] - self.cents[a]);
        let frames: usize = if b - a > 1 { b - a } else { 1 };
        proof {
            lemma_slope_products(
                rise as int,
                self.frame_rate as int,
                self.config.glide_slope_cents_per_sec as int,
                frames as int,
            );
        }
        let moved: i128 = rise as i128 * self.frame_rate as i128;
        let needed: i128 = self.config.glide_slope_cents_per_sec as i128 * 1_000_000_000
            * frames as i128;
        moved >= needed
    }

    fn center(&self, a: usize, b: usize) -> (c: i64)
        requires
            self.terrain().ok(),
            a < b <= self.cents@.len(),
        ensures
            c == self.terrain().center(a as int, b as int),
            -PITCH_LIMIT <= c <= PITCH_LIMIT,
    {
        let part = vstd::slice::slice_subrange(self.cents, a, b);
        let c: i64 = median_cents(part);
        proof {
            let k = choose|k: int| 0 <= k < part@.len() && part@[k] == c;
            assert(self.cents@[a + k] == c);
        }
        c
    }

    fn extend_back(&self, dir: i64, floor: usize, from: i64, start: usize, end: usize) -> (s: usize)
        requires
            self.terrain().ok(),
            dir == 1 || dir == -1,
            self.run_start < floor <= start <= end <= self.run_end,
            -PITCH_LIMIT <= from <= PITCH_LIMIT,
        ensures
            s == self.terrain().grow_back(
                dir as int,
                floor as int,
                from as int,
                start as int,
                end as int,
            ),
            floor <= s <= start,
    {
        let mut s: usize = start;
        while s > floor && end - s < self.config.max_glide_frames && self.is_steep(dir, s - 1) && 2
            * dir * (self.cents[s - 1] - from) > self.config.stability_cents
            invariant
                self.terrain().ok(),
                dir == 1 || dir == -1,
                self.run_start < floor <= s <= start <= end <= self.run_end,
                -PITCH_LIMIT <= from <= PITCH_LIMIT,
                self.terrain().grow_back(
                    dir as int,
                    floor as int,
                    from as int,
                    start as int,
                    end as int,
                ) == self.terrain().grow_back(
                    dir as int,
                    floor as int,
                    from as int,
                    s as int,
                    end as int,
                ),
            decreases s,
        {
            s = s - 1;
        }
        s
    }

    fn extend_forward(&self, dir: i64, limit: usize, to: i64, start: usize, end: usize) -> (e:
        usize)
        requires
            self.terrain().ok(),
            dir == 1 || dir == -1,
            self.run_start <= start <= end <= limit < self.run_end,
            -PITCH_LIMIT <= to <= PITCH_LIMIT,
        ensures
            e == self.terrain().grow_forward(
                dir as int,
                limit as int,
                to as int,
                start as int,
                end as int,
            ),
            end <= e <= limit,
    {
        let mut e: usize = end;
        while e < limit && e - start < self.config.max_glide_frames && self.is_steep(dir, e) && 2
            * dir * (to - self.cents[e]) > self.config.stability_cents
            invariant
                self.terrain().ok(),
                dir == 1 || dir == -1,
                self.run_start <= start <= end <= e <= limit < self.run_end,
                -PITCH_LIMIT <= to <= PITCH_LIMIT,
                self.terrain().grow_forward(
                    dir as int,
                    limit as int,
                    to as int,
                    start as int,
                    end as int,
                ) == self.terrain().grow_forward(
                    dir as int,
                    limit as int,
                    to as int,
                    start as int,
                    e as int,
                ),
            decreases limit - e,
        {
            e = e + 1;
        }
        e
    }

    /// Refine the onset of piece `k`.
    fn refine_onset(&self, pieces: &mut Vec<Piece>, k: usize)
        requires
            self.terrain().ok(),
            pieces_tile(old(pieces)@, self.run_start as int, self.run_end as int),
            cores_kept(old(pieces)@, self.config.min_note_frames as int),
            k < old(pieces)@.len(),
        ensures
            final(pieces)@ == self.terrain().refine(old(pieces)@, k as int),
    {
        let ghost was = pieces@;
        let ghost t = self.terrain();
        let min: usize = self.config.min_note_frames;
        let b = pieces[k];
        proof {
            lemma_pieces_within(was, t.run_start, t.run_end, k as int);
            assert(was[k as int].start + was[k as int].glide <= was[k as int].end);
        }
        let core: usize = b.start + b.glide;
        if b.end - core < min {
            return ;
        }
        let to: i64 = self.center(core, b.end);
        let limit: usize = b.end - min;
        if k == 0 {
            let anchor: i64 = self.cents[b.start];
            let dir: i64 = if to < anchor { -1 } else { 1 };
            let end: usize = self.extend_forward(dir, limit, to, b.start, core);
            let rise: i64 = dir * (self.cents[end] - anchor);
            let glide: usize = if end - b.start >= 2 && rise >= self.config.glide_min_cents {
                end - b.start
            } else {
                0
            };
            pieces.set(0, Piece { start: b.start, end: b.end, glide });
            assert(pieces@ =~= t.refine(was, 0));
            return ;
        }
        let a = pieces[k - 1];
        proof {
            lemma_pieces_within(was, t.run_start, t.run_end, k - 1);
            assert(was[k - 1].start + was[k - 1].glide <= was[k - 1].end);
            assert(was[k - 1].end == was[k as int].start);
        }
        let from_core: usize = a.start + a.glide;
        if a.end - from_core < min {
            return ;
        }
        let from: i64 = self.center(from_core, a.end);
        let gap: i64 = if to < from { from - to } else { to - from };
        let dir: i64 = if to < from { -1 } else { 1 };
        if gap < self.config.glide_min_cents {
            pieces.set(k, Piece { start: b.start, end: b.end, glide: 0 });
            assert(pieces@ =~= t.refine(was, k as int));
            return ;
        }
        let grown: usize = self.extend_back(dir, from_core + min, from, b.start, core);
        let end: usize = self.extend_forward(dir, limit, to, grown, core);
        let start: usize = if end - grown > self.config.max_glide_frames {
            end - self.config.max_glide_frames
        } else {
            grown
        };
        assert(t.glide_between(a, b) == (start as int, end as int));
        let rise: i64 = dir * (self.cents[end] - self.cents[start - 1]);
        if end - start >= 2 && rise >= self.config.glide_min_cents {
            pieces.set(k - 1, Piece { start: a.start, end: start, glide: a.glide });
            pieces.set(k, Piece { start, end: b.end, glide: end - start });
        } else {
            pieces.set(k, Piece { start: b.start, end: b.end, glide: 0 });
        }
        assert(pieces@ =~= t.refine(was, k as int));
    }

    /// Turn ranges into pieces, stair-steps becoming part of the note after them.
    fn chain_steps(&self, merged: &[Span]) -> (pieces: Vec<Piece>)
        requires
            self.terrain().ok(),
            spans_tile(merged@, self.run_start as int, self.run_end as int),
        ensures
            pieces@ == self.terrain().unchained(merged@),
    {
        let ghost t = self.terrain();
        let mut pieces: Vec<Piece> = Vec::new();
        let mut chain: Option<usize> = None;
        let mut k: usize = 0;
        while k < merged.len()
            invariant
                t == self.terrain(),
                t.ok(),
                spans_tile(merged@, self.run_start as int, self.run_end as int),
                k <= merged@.len(),
                (pieces@, chain) == t.chained(merged@, k as int),
            decreases merged@.len() - k,
        {
            let range = merged[k];
            proof {
                lemma_spans_within(merged@, t.run_start, t.run_end, k as int);
                if k > 0 {
                    t.lemma_chained(merged@, k as int);
                    assert(merged@[k - 1].end == merged@[k as int].start);
                }
            }
            let long: bool = range.end - range.start >= self.config.min_note_frames;
            let part = vstd::slice::slice_subrange(self.cents, range.start, range.end);
            assert(bounded(part@, PITCH_LIMIT as int)) by {
                assert forall|i: int| 0 <= i < part@.len() implies -PITCH_LIMIT
                    <= #[trigger] part@[i] <= PITCH_LIMIT by {
                    assert(part@[i] == self.cents@[range.start + i]);
                }
            }
            let step: bool = long && detect_transition(part, self.frame_rate, self.config);
            if step {
                if chain.is_none() {
                    chain = Some(range.start);
                }
            } else {
                match chain {
                    Some(from) => {
                        if long {
                            pieces.push(
                                Piece { start: from, end: range.end, glide: range.start - from },
                            );
                        } else {
                            pieces.push(Piece { start: from, end: range.start, glide: 0 });
                            pieces.push(Piece { start: range.start, end: range.end, glide: 0 });
                        }
                    },
                    None => {
                        pieces.push(Piece { start: range.start, end: range.end, glide: 0 });
                    },
                }
                chain = None;
            }
            k = k + 1;
        }
        if let Some(from) = chain {
            pieces.push(Piece { start: from, end: self.run_end, glide: 0 });
        }
        pieces
    }
}

/// Fold stair-stepped transitions into the note that follows them, then refine
/// each note onset along the steep slope that leads into it. The pieces stay
/// contiguous; the frames of a glide belong to the note that follows.
pub fn attach_glides(
    merged: &[Span],
    cents: &[i64],
    run_start: usize,
    run_end: usize,
    frame_rate: u64,
    config: &SegmentConfig,
) -> (pieces: Vec<Piece>)
    requires
        bounded(cents@, PITCH_LIMIT as int),
        run_start < run_end <= cents@.len() <= MAX_FRAMES,
        config.min_note_frames >= 1,
        spans_tile(merged@, run_start as int, run_end as int),
    ensures
        ({
            let t = Terrain {
                cents: cents@,
                run_start: run_start as int,
                run_end: run_end as int,
                frame_rate: frame_rate as int,
                config: *config,
            };
            pieces@ == t.glided(merged@)
        }),
        pieces_tile(pieces@, run_start as int, run_end as int),
        cores_kept(pieces@, config.min_note_frames as int),
        merged@.len() == 1 || all_long(merged@, config.min_note_frames as int) ==> glides_capped(
            pieces@,
            config.max_glide_frames as int,
        ),
{
    let search = Search { cents, run_start, run_end, frame_rate, config };
    let ghost t = search.terrain();
    let mut pieces: Vec<Piece> = search.chain_steps(merged);
    let ghost start = pieces@;
    proof {
        t.lemma_unchained(merged@);
    }
    let mut k: usize = 0;
    while k < pieces.len()
        invariant
            t == search.terrain(),
            t.ok(),
            search.run_start == run_start,
            search.run_end == run_end,
            search.config == config,
            pieces_tile(start, run_start as int, run_end as int),
            cores_kept(start, config.min_note_frames as int),
            k <= start.len(),
            pieces@.len() == start.len(),
            pieces@ == t.refined(start, k as int),
        decreases start.len() - k,
    {
        proof {
            t.lemma_refined(start, k as int);
            t.lemma_refine(pieces@, k as int);
        }
        search.refine_onset(&mut pieces, k);
        k = k + 1;
    }
    proof {
        t.lemma_refined(start, k as int);
        t.lemma_glided(merged@);
    }
    pieces
}

} // verus!
