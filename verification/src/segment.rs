//! Division of a pitch contour into notes and unvoiced stretches.

use crate::contour::{
    bounded, clean_contour, clean_contour_cents, cleaned_cents, cleaned_fo, decompose_contour,
    describes, frames_ok, same_contour, Frame, NoteContour, SegmentConfig, MAX_FRAMES, PITCH_LIMIT,
};
use crate::glide::{
    attach_glides, core_len, cores_kept, direction, glides_capped, lemma_pieces_within, merge_notes, merge_short,
    note_ranges, pieces_tile, Piece, Terrain,
};
use crate::notes::{find_note_starts, note_starts};
use crate::num::abs_of;
use crate::smooth::{gaussian_lowpass, lemma_lowpassed_bound, lowpassed, Kernel};
use core::ops::Range;
use vstd::prelude::*;

verus! {

/// What a segment is.
#[derive(Debug)]
pub enum SegmentKind {
    Note(NoteContour),
    Unvoiced,
}

/// Whether two segments are the same: notes of the same numbers, or both unvoiced.
pub open spec fn same_kind(a: SegmentKind, b: SegmentKind) -> bool {
    match (a, b) {
        (SegmentKind::Note(c), SegmentKind::Note(d)) => same_contour(c, d),
        (SegmentKind::Unvoiced, SegmentKind::Unvoiced) => true,
        _ => false,
    }
}

impl Clone for SegmentKind {
    fn clone(&self) -> (copy: Self)
        ensures
            same_kind(copy, *self),
    {
        match self {
            SegmentKind::Note(c) => SegmentKind::Note(c.clone()),
            SegmentKind::Unvoiced => SegmentKind::Unvoiced,
        }
    }
}

/// A stretch of frames and what it is.
#[derive(Debug)]
pub struct Segment {
    pub frames: Range<usize>,
    pub kind: SegmentKind,
}

impl Clone for Segment {
    fn clone(&self) -> (copy: Self)
        ensures
            copy.frames == self.frames,
            same_kind(copy.kind, self.kind),
    {
        Segment { frames: self.frames.start..self.frames.end, kind: self.kind.clone() }
    }
}

// --- runs -------------------------------------------------------------------

/// Which frames have a pitch after cleaning.
pub open spec fn voicing(frames: Seq<Frame>, config: SegmentConfig) -> Seq<bool> {
    Seq::new(frames.len(), |i: int| cleaned_fo(frames, config.median_window as int, i) > 0)
}

/// The cleaned pitches of all frames.
pub open spec fn pitches(frames: Seq<Frame>, config: SegmentConfig) -> Seq<i64> {
    Seq::new(frames.len(), |i: int| cleaned_cents(frames, config.median_window as int, i))
}

/// Where the run of equal voicing that holds frame `i` ends.
pub open spec fn run_end(voicing: Seq<bool>, i: int) -> int
    decreases voicing.len() - i,
{
    if i + 1 < voicing.len() && voicing[i + 1] == voicing[i] {
        run_end(voicing, i + 1)
    } else {
        i + 1
    }
}

/// A run goes forward, stays within the contour, and is as long as its voicing
/// lasts.
pub proof fn lemma_run_end(voicing: Seq<bool>, i: int)
    requires
        0 <= i < voicing.len(),
    ensures
        i < run_end(voicing, i) <= voicing.len(),
        forall|j: int| i <= j < run_end(voicing, i) ==> #[trigger] voicing[j] == voicing[i],
        run_end(voicing, i) < voicing.len() ==> voicing[run_end(voicing, i)] != voicing[i],
    decreases voicing.len() - i,
{
    if i + 1 < voicing.len() && voicing[i + 1] == voicing[i] {
        lemma_run_end(voicing, i + 1);
    }
}

// --- the plan of a segmentation ---------------------------------------------

/// A segment before its contour is decomposed.
pub struct Planned {
    pub piece: Piece,
    pub note: bool,
}

/// The pieces of the voiced run `[a, b)`: the contour is smoothed until vibrato
/// is gone, split where it leaves its centre, freed of short notes, and its
/// glides attached.
pub open spec fn run_pieces(
    cents: Seq<i64>,
    frame_rate: int,
    config: SegmentConfig,
    weights: Seq<u32>,
    a: int,
    b: int,
) -> Seq<Piece> {
    let run = lowpassed(cents.subrange(a, b), weights);
    let starts = note_starts(
        run,
        config.stability_cents as int,
        config.min_note_frames as int,
        (weights.len() - 1) / 2,
    );
    let merged = merge_short(
        note_ranges(starts, a, b),
        config.min_note_frames as int,
        starts.len() as int,
    );
    Terrain { cents, run_start: a, run_end: b, frame_rate, config }.glided(merged)
}

/// The plan of one run. A piece too short for a note counts as unvoiced.
pub open spec fn plan_run(
    frames: Seq<Frame>,
    frame_rate: int,
    config: SegmentConfig,
    weights: Seq<u32>,
    a: int,
    b: int,
) -> Seq<Planned> {
    if voicing(frames, config)[a] {
        let pieces = run_pieces(pitches(frames, config), frame_rate, config, weights, a, b);
        Seq::new(
            pieces.len(),
            |k: int|
                Planned {
                    piece: pieces[k],
                    note: pieces[k].end - pieces[k].start >= config.min_note_frames,
                },
        )
    } else {
        seq![Planned { piece: Piece { start: a as usize, end: b as usize, glide: 0 }, note: false }]
    }
}

/// The plan of all runs from frame `i` on.
pub open spec fn plan_from(
    frames: Seq<Frame>,
    frame_rate: int,
    config: SegmentConfig,
    weights: Seq<u32>,
    i: int,
) -> Seq<Planned>
    decreases frames.len() - i,
{
    let v = voicing(frames, config);
    let end = run_end(v, i);
    if i < 0 || i >= frames.len() {
        Seq::empty()
    } else {
        proof {
            lemma_run_end(v, i);
        }
        plan_run(frames, frame_rate, config, weights, i, end) + plan_from(
            frames,
            frame_rate,
            config,
            weights,
            end,
        )
    }
}

/// The raw pitches of frames `a` to `b`.
pub open spec fn frame_cents(frames: Seq<Frame>, a: int, b: int) -> Seq<i64> {
    Seq::new((b - a) as nat, |i: int| frames[a + i].cents)
}

/// The pitch that a glide starts from: that of the voiced frame before it, or
/// else its own first.
pub open spec fn glide_anchor(frames: Seq<Frame>, start: int) -> int {
    if start > 0 && frames[start - 1].voiced {
        frames[start - 1].cents as int
    } else {
        frames[start].cents as int
    }
}

/// Whether the contour carries the glide of the piece: its depth, and its shape
/// as a fraction of that depth. A glide of no depth moves evenly.
pub open spec fn carries_glide(c: NoteContour, frames: Seq<Frame>, p: Piece) -> bool {
    let anchor = glide_anchor(frames, p.start as int);
    let depth = frames[p.start + p.glide].cents - anchor;
    if p.glide == 0 {
        &&& c.onset_glide@.len() == 0
        &&& c.onset_glide_span == 1
        &&& c.onset_glide_depth_cents == 0
    } else {
        &&& c.onset_glide_depth_cents == depth
        &&& c.onset_glide@.len() == p.glide
        &&& if abs_of(depth) < 1000 {
            &&& c.onset_glide_span == p.glide
            &&& forall|j: int| 0 <= j < p.glide ==> #[trigger] c.onset_glide@[j] == j
        } else {
            &&& c.onset_glide_span == abs_of(depth)
            &&& forall|j: int|
                0 <= j < p.glide ==> #[trigger] c.onset_glide@[j] == direction(depth) * (
                frames[p.start + j].cents - anchor)
        }
    }
}

/// Whether a segment is what was planned.
pub open spec fn fulfils(
    seg: Segment,
    plan: Planned,
    frames: Seq<Frame>,
    frame_rate: int,
    config: SegmentConfig,
    weights: Seq<u32>,
) -> bool {
    &&& seg.frames.start == plan.piece.start
    &&& seg.frames.end == plan.piece.end
    &&& match seg.kind {
        SegmentKind::Unvoiced => !plan.note,
        SegmentKind::Note(c) => {
            &&& plan.note
            &&& describes(
                c,
                frame_cents(frames, plan.piece.start + plan.piece.glide, plan.piece.end as int),
                frame_rate,
                config,
                weights,
            )
            &&& carries_glide(c, frames, plan.piece)
        },
    }
}

/// Whether the segments are non-empty and follow one another from `start` to `end`.
pub open spec fn segments_tile(s: Seq<Segment>, start: int, end: int) -> bool {
    &&& s.len() == 0 ==> start == end
    &&& s.len() > 0 ==> s[0].frames.start == start && s[s.len() - 1].frames.end == end
    &&& forall|i: int| 0 <= i < s.len() ==> (#[trigger] s[i]).frames.start < s[i].frames.end
    &&& forall|i: int, j: int|
        0 <= i && j == i + 1 && j < s.len() ==> (#[trigger] s[i]).frames.end == (
        #[trigger] s[j]).frames.start
}

/// Whether every note keeps at least the least number of frames after its glide.
pub open spec fn notes_long(s: Seq<Segment>, config: SegmentConfig) -> bool {
    forall|i: int|
        0 <= i < s.len() ==> match (#[trigger] s[i]).kind {
            SegmentKind::Unvoiced => true,
            SegmentKind::Note(c) => s[i].frames.end - s[i].frames.start - c.onset_glide@.len()
                >= config.min_note_frames,
        }
}

/// Whether every frame of every note is voiced.
pub open spec fn notes_voiced(s: Seq<Segment>, frames: Seq<Frame>) -> bool {
    forall|i: int, j: int|
        0 <= i < s.len() && (#[trigger] s[i]).kind is Note && s[i].frames.start <= j
            < s[i].frames.end ==> (#[trigger] frames[j]).voiced
}

/// Whether a glide longer than the configuration allows only ever leads in from
/// silence: where the note starts, the contour has no pitch just before it.
pub open spec fn long_glides_from_silence(
    s: Seq<Segment>,
    voicing: Seq<bool>,
    config: SegmentConfig,
) -> bool {
    forall|i: int|
        0 <= i < s.len() ==> match (#[trigger] s[i]).kind {
            SegmentKind::Unvoiced => true,
            SegmentKind::Note(c) => c.onset_glide@.len() > config.max_glide_frames
                && s[i].frames.start > 0 ==> !voicing[s[i].frames.start - 1],
        }
}

/// Whether a segment is a note exactly if the frames it begins with have a pitch and it has at
/// least the least number of frames.
pub open spec fn notes_where_voiced(
    s: Seq<Segment>,
    voicing: Seq<bool>,
    config: SegmentConfig,
) -> bool {
    forall|i: int|
        0 <= i < s.len() ==> ((#[trigger] s[i]).kind is Note <==> voicing[s[i].frames.start as int]
            && s[i].frames.end - s[i].frames.start >= config.min_note_frames)
}

/// Whether no segment reaches from frames with a pitch to frames without.
pub open spec fn runs_kept(s: Seq<Segment>, voicing: Seq<bool>) -> bool {
    forall|i: int, j: int|
        0 <= i < s.len() && (#[trigger] s[i]).frames.start <= j < s[i].frames.end
            ==> #[trigger] voicing[j] == voicing[s[i].frames.start as int]
}

// --- segmentation -----------------------------------------------------------

/// Find the pieces of one voiced run.
fn find_pieces(
    cents: &[i64],
    a: usize,
    b: usize,
    frame_rate: u64,
    config: &SegmentConfig,
    kernel: &Kernel,
) -> (pieces: Vec<Piece>)
    requires
        bounded(cents@, PITCH_LIMIT as int),
        a < b <= cents@.len() <= MAX_FRAMES,
        config.min_note_frames >= 1,
        kernel.wf(),
    ensures
        pieces@ == run_pieces(
            cents@,
            frame_rate as int,
            *config,
            kernel@,
            a as int,
            b as int,
        ),
        pieces_tile(pieces@, a as int, b as int),
        cores_kept(pieces@, config.min_note_frames as int),
        glides_capped(pieces@, config.max_glide_frames as int),
{
    let part = vstd::slice::slice_subrange(cents, a, b);
    assert(bounded(part@, PITCH_LIMIT as int)) by {
        assert forall|i: int| 0 <= i < part@.len() implies -PITCH_LIMIT <= #[trigger] part@[i]
            <= PITCH_LIMIT by {
            assert(part@[i] == cents@[a + i]);
        }
    }
    proof {
        lemma_lowpassed_bound(part@, *kernel, PITCH_LIMIT as int);
        kernel.lemma_wf();
    }
    let run: Vec<i64> = gaussian_lowpass(part, kernel);
    let starts: Vec<usize> = find_note_starts(
        run.as_slice(),
        config.stability_cents,
        config.min_note_frames,
        kernel.reach(),
    );
    let merged = merge_notes(starts.as_slice(), a, b, config.min_note_frames);
    attach_glides(merged.as_slice(), cents, a, b, frame_rate, config)
}

/// Build the note of a piece.
fn build_note(
    frames: &[Frame],
    piece: Piece,
    frame_rate: u64,
    config: &SegmentConfig,
    kernel: &Kernel,
) -> (contour: NoteContour)
    requires
        frames_ok(frames@),
        piece.start + piece.glide < piece.end <= frames@.len(),
        kernel.wf(),
    ensures
        describes(
            contour,
            frame_cents(frames@, piece.start + piece.glide, piece.end as int),
            frame_rate as int,
            *config,
            kernel@,
        ),
        carries_glide(contour, frames@, piece),
{
    let core: usize = piece.start + piece.glide;
    let ghost whole = frame_cents(frames@, core as int, piece.end as int);
    let mut cents: Vec<i64> = Vec::new();
    let mut j: usize = core;
    while j < piece.end
        invariant
            core <= j <= piece.end <= frames@.len(),
            whole == frame_cents(frames@, core as int, piece.end as int),
            cents@ == whole.take(j - core),
        decreases piece.end - j,
    {
        assert(whole.take(j - core).push(frames@[j as int].cents) =~= whole.take(j + 1 - core));
        cents.push(frames[j].cents);
        j = j + 1;
    }
    assert(cents@ =~= whole);
    let mut contour = decompose_contour(cents.as_slice(), frame_rate, config, kernel);
    if piece.glide == 0 {
        return contour;
    }
    let anchor: i64 = if piece.start > 0 && frames[piece.start - 1].voiced {
        frames[piece.start - 1].cents
    } else {
        frames[piece.start].cents
    };
    assert(anchor == glide_anchor(frames@, piece.start as int));
    let depth: i64 = frames[core].cents - anchor;
    let even: bool = -1000 < depth && depth < 1000;
    let mut shape: Vec<i64> = Vec::new();
    let mut k: usize = 0;
    while k < piece.glide
        invariant
            frames_ok(frames@),
            k <= piece.glide,
            piece.start + piece.glide < piece.end <= frames@.len(),
            -PITCH_LIMIT <= anchor <= PITCH_LIMIT,
            shape@.len() == k,
            forall|m: int|
                0 <= m < k ==> #[trigger] shape@[m] == (if even {
                    m
                } else {
                    direction(depth as int) * (frames@[piece.start + m].cents - anchor)
                }),
        decreases piece.glide - k,
    {
        let moved: i64 = frames[piece.start + k].cents - anchor;
        shape.push(
            if even {
                k as i64
            } else if depth < 0 {
                -moved
            } else {
                moved
            },
        );
        k = k + 1;
    }
    contour.onset_glide = shape;
    contour.onset_glide_depth_cents = depth;
    contour.onset_glide_span = if even {
        piece.glide as i64
    } else if depth < 0 {
        -depth
    } else {
        depth
    };
    contour
}

/// The run of equal voicing that starts at frame `start`.
fn find_run_end(cleaned: &[i64], start: usize, Ghost(v): Ghost<Seq<bool>>) -> (end: usize)
    requires
        start < cleaned@.len(),
        v == Seq::new(cleaned@.len(), |i: int| cleaned@[i] > 0),
    ensures
        end == run_end(v, start as int),
        start < end <= cleaned@.len(),
{
    let voiced: bool = cleaned[start] > 0;
    let mut i: usize = start + 1;
    while i < cleaned.len() && (cleaned[i] > 0) == voiced
        invariant
            start < i <= cleaned@.len(),
            v == Seq::new(cleaned@.len(), |k: int| cleaned@[k] > 0),
            voiced == v[start as int],
            v[i - 1] == voiced,
            run_end(v, start as int) == run_end(v, i - 1),
        decreases cleaned@.len() - i,
    {
        i = i + 1;
    }
    i
}

/// Whether a single segment keeps what all of them promise.
spec fn keeps_promises(
    seg: Segment,
    frames: Seq<Frame>,
    voicing: Seq<bool>,
    config: SegmentConfig,
) -> bool {
    &&& seg.kind is Note <==> voicing[seg.frames.start as int] && seg.frames.end - seg.frames.start
        >= config.min_note_frames
    &&& forall|j: int|
        seg.frames.start <= j < seg.frames.end ==> #[trigger] voicing[j]
            == voicing[seg.frames.start as int]
    &&& match seg.kind {
        SegmentKind::Unvoiced => true,
        SegmentKind::Note(c) => {
            &&& seg.frames.end - seg.frames.start - c.onset_glide@.len() >= config.min_note_frames
            &&& forall|j: int|
                seg.frames.start <= j < seg.frames.end ==> (#[trigger] frames[j]).voiced
            &&& c.onset_glide@.len() > config.max_glide_frames && seg.frames.start > 0
                ==> !voicing[seg.frames.start - 1]
        },
    }
}

/// Whether the first segments are what was planned, tile their frames, and keep
/// their promises.
#[verifier::opaque]
spec fn in_order(
    s: Seq<Segment>,
    done: Seq<Planned>,
    frames: Seq<Frame>,
    frame_rate: int,
    config: SegmentConfig,
    weights: Seq<u32>,
    end: int,
) -> bool {
    &&& s.len() == done.len()
    &&& forall|k: int|
        0 <= k < s.len() ==> fulfils(
            #[trigger] s[k],
            done[k],
            frames,
            frame_rate,
            config,
            weights,
        )
    &&& forall|k: int|
        0 <= k < s.len() ==> keeps_promises(
            #[trigger] s[k],
            frames,
            voicing(frames, config),
            config,
        )
    &&& segments_tile(s, 0, end)
}

proof fn lemma_in_order_push(
    s: Seq<Segment>,
    done: Seq<Planned>,
    frames: Seq<Frame>,
    frame_rate: int,
    config: SegmentConfig,
    weights: Seq<u32>,
    seg: Segment,
    plan: Planned,
)
    requires
        in_order(s, done, frames, frame_rate, config, weights, seg.frames.start as int),
        fulfils(seg, plan, frames, frame_rate, config, weights),
        keeps_promises(seg, frames, voicing(frames, config), config),
        seg.frames.start < seg.frames.end,
    ensures
        in_order(
            s.push(seg),
            done.push(plan),
            frames,
            frame_rate,
            config,
            weights,
            seg.frames.end as int,
        ),
{
    reveal(in_order);
    lemma_tile_push(s, seg, 0, seg.frames.start as int);
}

/// Adding one more segment that starts where the others end keeps the tiling.
proof fn lemma_tile_push(s: Seq<Segment>, seg: Segment, start: int, end: int)
    requires
        segments_tile(s, start, end),
        seg.frames.start == end,
        seg.frames.start < seg.frames.end,
    ensures
        segments_tile(s.push(seg), start, seg.frames.end as int),
{
    let now = s.push(seg);
    assert forall|i: int| 0 <= i < now.len() implies (#[trigger] now[i]).frames.start
        < now[i].frames.end by {
        if i < s.len() {
            assert(s[i].frames.start < s[i].frames.end);
        }
    }
    assert forall|i: int, j: int| 0 <= i && j == i + 1 && j < now.len() implies (
    #[trigger] now[i]).frames.end == (#[trigger] now[j]).frames.start by {
        if j < s.len() {
            assert(s[i].frames.end == s[j].frames.start);
        }
    }
}

/// Divide a contour into notes and unvoiced stretches.
///
/// The vibrato of each note is still part of its residual; its period, where
/// there is one, is in `vibrato_lag`.
pub fn segment(frames: &[Frame], frame_rate: u64, config: &SegmentConfig, kernel: &Kernel) -> (segments:
    Vec<Segment>)
    requires
        frames_ok(frames@),
        config.min_note_frames >= 1,
        kernel.wf(),
    ensures
        segments@.len() == plan_from(frames@, frame_rate as int, *config, kernel@, 0).len(),
        forall|k: int|
            0 <= k < segments@.len() ==> fulfils(
                #[trigger] segments@[k],
                plan_from(frames@, frame_rate as int, *config, kernel@, 0)[k],
                frames@,
                frame_rate as int,
                *config,
                kernel@,
            ),
        segments_tile(segments@, 0, frames@.len() as int),
        notes_long(segments@, *config),
        notes_voiced(segments@, frames@),
        long_glides_from_silence(segments@, voicing(frames@, *config), *config),
        notes_where_voiced(segments@, voicing(frames@, *config), *config),
        runs_kept(segments@, voicing(frames@, *config)),
{
    let n: usize = frames.len();
    let cleaned: Vec<i64> = clean_contour(frames, config.median_window);
    let cents: Vec<i64> = clean_contour_cents(frames, config.median_window);
    let ghost v = voicing(frames@, *config);
    let ghost rate = frame_rate as int;
    let ghost whole = plan_from(frames@, rate, *config, kernel@, 0);
    let ghost mut done: Seq<Planned> = Seq::empty();
    let mut segments: Vec<Segment> = Vec::new();
    proof {
        assert(cents@ =~= pitches(frames@, *config));
        assert(v =~= Seq::new(cleaned@.len(), |k: int| cleaned@[k] > 0));
        assert(Seq::<Planned>::empty() + whole =~= whole);
        reveal(in_order);
        assert(in_order(segments@, done, frames@, rate, *config, kernel@, 0));
    }
    let mut i: usize = 0;
    while i < n
        invariant
            n == frames@.len(),
            n == cleaned@.len(),
            frames_ok(frames@),
            config.min_note_frames >= 1,
            kernel.wf(),
            bounded(cents@, PITCH_LIMIT as int),
            cents@ == pitches(frames@, *config),
            v == voicing(frames@, *config),
            v == Seq::new(cleaned@.len(), |k: int| cleaned@[k] > 0),
            rate == frame_rate,
            i <= n,
            whole == done + plan_from(frames@, rate, *config, kernel@, i as int),
            in_order(segments@, done, frames@, rate, *config, kernel@, i as int),
            0 < i < n ==> v[i - 1] != v[i as int],
        decreases n - i,
    {
        let end: usize = find_run_end(cleaned.as_slice(), i, Ghost(v));
        let ghost part = plan_run(frames@, rate, *config, kernel@, i as int, end as int);
        let ghost rest = plan_from(frames@, rate, *config, kernel@, end as int);
        let ghost base = done;
        proof {
            lemma_run_end(v, i as int);
            assert(plan_from(frames@, rate, *config, kernel@, i as int) == part + rest);
            assert(whole =~= (base + part) + rest);
        }
        if cleaned[i] > 0 {
            let pieces: Vec<Piece> = find_pieces(
                cents.as_slice(),
                i,
                end,
                frame_rate,
                config,
                kernel,
            );
            push_notes(
                &mut segments,
                pieces.as_slice(),
                frames,
                i,
                end,
                frame_rate,
                config,
                kernel,
                Ghost(base),
                Ghost(part),
            );
        } else {
            let seg = Segment { frames: i..end, kind: SegmentKind::Unvoiced };
            proof {
                assert(base + part =~= base.push(part[0]));
                lemma_in_order_push(
                    segments@,
                    base,
                    frames@,
                    rate,
                    *config,
                    kernel@,
                    seg,
                    part[0],
                );
            }
            segments.push(seg);
        }
        proof {
            done = base + part;
        }
        i = end;
    }
    proof {
        assert(whole =~= done);
        reveal(in_order);
        assert forall|a: int, j: int|
            0 <= a < segments@.len() && (#[trigger] segments@[a]).kind is Note
                && segments@[a].frames.start <= j < segments@[a].frames.end implies (
        #[trigger] frames@[j]).voiced by {
            assert(keeps_promises(segments@[a], frames@, v, *config));
        }
        assert forall|a: int, j: int|
            0 <= a < segments@.len() && (#[trigger] segments@[a]).frames.start <= j
                < segments@[a].frames.end implies #[trigger] v[j]
            == v[segments@[a].frames.start as int] by {
            assert(keeps_promises(segments@[a], frames@, v, *config));
        }
    }
    segments
}

/// Build the segments of the pieces of one voiced run.
fn push_notes(
    segments: &mut Vec<Segment>,
    pieces: &[Piece],
    frames: &[Frame],
    run_start: usize,
    run_end: usize,
    frame_rate: u64,
    config: &SegmentConfig,
    kernel: &Kernel,
    Ghost(base): Ghost<Seq<Planned>>,
    Ghost(part): Ghost<Seq<Planned>>,
)
    requires
        frames_ok(frames@),
        config.min_note_frames >= 1,
        kernel.wf(),
        run_start < run_end <= frames@.len(),
        in_order(
            old(segments)@,
            base,
            frames@,
            frame_rate as int,
            *config,
            kernel@,
            run_start as int,
        ),
        pieces_tile(pieces@, run_start as int, run_end as int),
        cores_kept(pieces@, config.min_note_frames as int),
        glides_capped(pieces@, config.max_glide_frames as int),
        forall|j: int|
            run_start <= j < run_end ==> #[trigger] voicing(frames@, *config)[j],
        run_start > 0 ==> !voicing(frames@, *config)[run_start - 1],
        part == Seq::new(
            pieces@.len(),
            |k: int|
                Planned {
                    piece: pieces@[k],
                    note: pieces@[k].end - pieces@[k].start >= config.min_note_frames,
                },
        ),
    ensures
        in_order(
            final(segments)@,
            base + part,
            frames@,
            frame_rate as int,
            *config,
            kernel@,
            run_end as int,
        ),
{
    let ghost v = voicing(frames@, *config);
    let ghost rate = frame_rate as int;
    let mut k: usize = 0;
    assert(base + part.take(0) =~= base);
    while k < pieces.len()
        invariant
            frames_ok(frames@),
            config.min_note_frames >= 1,
            kernel.wf(),
            run_start < run_end <= frames@.len(),
            v == voicing(frames@, *config),
            rate == frame_rate,
            pieces_tile(pieces@, run_start as int, run_end as int),
            cores_kept(pieces@, config.min_note_frames as int),
            glides_capped(pieces@, config.max_glide_frames as int),
            forall|j: int| run_start <= j < run_end ==> #[trigger] v[j],
            run_start > 0 ==> !v[run_start - 1],
            part == Seq::new(
                pieces@.len(),
                |m: int|
                    Planned {
                        piece: pieces@[m],
                        note: pieces@[m].end - pieces@[m].start >= config.min_note_frames,
                    },
            ),
            k <= pieces@.len(),
            in_order(
                segments@,
                base + part.take(k as int),
                frames@,
                rate,
                *config,
                kernel@,
                if k < pieces@.len() {
                    pieces@[k as int].start as int
                } else {
                    run_end as int
                },
            ),
        decreases pieces@.len() - k,
    {
        let piece = pieces[k];
        proof {
            lemma_pieces_within(pieces@, run_start as int, run_end as int, k as int);
            assert(pieces@[k as int].start + pieces@[k as int].glide <= pieces@[k as int].end);
            assert(pieces@[k as int].glide == 0 || core_len(pieces@[k as int])
                >= config.min_note_frames);
            if k + 1 < pieces@.len() {
                assert(pieces@[k as int].end == pieces@[k + 1].start);
            }
        }
        let note: bool = piece.end - piece.start >= config.min_note_frames;
        let kind = if note {
            SegmentKind::Note(build_note(frames, piece, frame_rate, config, kernel))
        } else {
            SegmentKind::Unvoiced
        };
        let seg = Segment { frames: piece.start..piece.end, kind };
        proof {
            let plan = Planned { piece, note };
            let done = base + part.take(k as int);
            assert(part[k as int] == plan);
            assert(base + part.take(k + 1) =~= done.push(plan));
            assert forall|j: int| piece.start <= j < piece.end implies (
            #[trigger] frames@[j]).voiced by {
                assert(v[j]);
            }
            lemma_in_order_push(segments@, done, frames@, rate, *config, kernel@, seg, plan);
        }
        segments.push(seg);
        k = k + 1;
    }
    assert(part.take(k as int) =~= part);
}

// --- laws -------------------------------------------------------------------

/// How a voiced run becomes pieces: it is smoothed, split where the smoothed pitch leaves its centre
/// for long enough, each split moved to the steepest slope within the reach of the smoothing; the
/// ranges between are freed of those too short for a note, and then, on the pitches as they were
/// before smoothing, their glides are attached.
pub proof fn lemma_run_is_smoothed_split_and_joined(
    cents: Seq<i64>,
    frame_rate: int,
    config: SegmentConfig,
    kernel: Kernel,
    a: int,
    b: int,
)
    requires
        kernel.wf(),
    ensures
        ({
            let smooth = lowpassed(cents.subrange(a, b), kernel@);
            let min = config.min_note_frames as int;
            let starts = note_starts(smooth, config.stability_cents as int, min, kernel.radius());
            let whole = merge_short(note_ranges(starts, a, b), min, starts.len() as int);
            let terrain = Terrain { cents, run_start: a, run_end: b, frame_rate, config };
            run_pieces(cents, frame_rate, config, kernel@, a, b) == terrain.glided(whole)
        }),
{
}

/// Each run of frames with a pitch, or without, is planned by itself, one after another: one without
/// is one unvoiced stretch, and one with is its pieces, each a note exactly if it is long enough.
pub proof fn lemma_runs_planned_in_turn(
    frames: Seq<Frame>,
    frame_rate: int,
    config: SegmentConfig,
    weights: Seq<u32>,
    i: int,
)
    requires
        0 <= i < frames.len() <= usize::MAX,
    ensures
        ({
            let v = voicing(frames, config);
            let end = run_end(v, i);
            let plan = plan_from(frames, frame_rate, config, weights, i);
            let rest = plan_from(frames, frame_rate, config, weights, end);
            let own = plan.len() - rest.len();
            &&& v[i] <==> cleaned_fo(frames, config.median_window as int, i) > 0
            &&& pitches(frames, config).len() == frames.len()
            &&& pitches(frames, config)[i] == cleaned_cents(frames, config.median_window as int, i)
            &&& own >= 0
            &&& plan.skip(own) == rest
            &&& !v[i] ==> own == 1 && plan[0].piece.start == i && plan[0].piece.end == end
                && plan[0].piece.glide == 0 && !plan[0].note
            &&& v[i] ==> ({
                let pieces = run_pieces(
                    pitches(frames, config),
                    frame_rate,
                    config,
                    weights,
                    i,
                    end,
                );
                &&& own == pieces.len()
                &&& forall|k: int|
                    0 <= k < own ==> (#[trigger] plan[k]).piece == pieces[k] && (plan[k].note
                        <==> pieces[k].end - pieces[k].start >= config.min_note_frames)
            })
        }),
{
    let v = voicing(frames, config);
    let end = run_end(v, i);
    lemma_run_end(v, i);
    let part = plan_run(frames, frame_rate, config, weights, i, end);
    let rest = plan_from(frames, frame_rate, config, weights, end);
    let plan = plan_from(frames, frame_rate, config, weights, i);
    assert(plan == part + rest);
    assert(plan.skip(part.len() as int) =~= rest);
}

} // verus!
