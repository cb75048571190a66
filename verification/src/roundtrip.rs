//! What segmentation and rendering promise together: a contour that is divided
//! and rendered without edits comes back frame by frame.

use crate::contour::{
    bounded, frames_ok, lemma_decomposition_bounds, Frame, NoteContour, SegmentConfig,
    PITCH_LIMIT,
};
use crate::glide::{direction, Piece};
use crate::num::{abs_of, lemma_rounded_between};
use crate::render::{
    contour_ok, core_frames, core_pitch, edit_for, entry_pitch, glide_frames, glide_pitch,
    glide_start, identity_edit, lemma_render_lengths, lemma_scaled, lemma_track_on_grid,
    pitch_at, pos_den, pos_num, render_lengths, renderable, rendered, segment_frames,
    source_len, vibrato_phase_at, NoteEdit, RenderedFrame, UNIT,
};
use crate::segment::{
    carries_glide, frame_cents, fulfils, glide_anchor, notes_voiced, segments_tile, Planned,
    Segment, SegmentKind,
};
use crate::smooth::Kernel;
use crate::vibrato::{is_swing, lemma_decomposition_reconstructs, reconstructed};
use vstd::prelude::*;

verus! {

/// Whether a segment holds the pitches of its frames: every note adds up to them,
/// and its glide, where it has one, moves between pitches that differ.
pub open spec fn faithful<F: Fn(i64, i128) -> i64>(seg: Segment, frames: Seq<Frame>, f: F) -> bool {
    match seg.kind {
        SegmentKind::Unvoiced => true,
        SegmentKind::Note(c) => {
            let glide = c.onset_glide@.len() as int;
            let core = seg.frames.start + glide;
            let len = seg.frames.end - core;
            &&& c.drift@.len() == len
            &&& c.vibrato_amp@.len() == len
            &&& c.vibrato_phase@.len() == len
            &&& c.residual@.len() == len
            &&& forall|i: int|
                0 <= i < len ==> #[trigger] reconstructed(c, f, i) == frames[core + i].cents
            &&& glide > 0 ==> {
                &&& carries_glide(
                    c,
                    frames,
                    Piece {
                        start: seg.frames.start,
                        end: seg.frames.end,
                        glide: glide as usize,
                    },
                )
                &&& abs_of(c.onset_glide_depth_cents as int) >= 1000
            }
        },
    }
}

/// Whether an output frame is source frame `i` at its own pitch.
pub open spec fn is_source_frame(r: RenderedFrame, frames: Seq<Frame>, i: int) -> bool {
    match r {
        RenderedFrame::Kept(x) => x == i,
        RenderedFrame::Silent(_) => false,
        RenderedFrame::Voiced { from, nearest, num, cents, .. } => {
            from == i && nearest == i && num == 0 && cents == frames[i].cents
        },
    }
}

/// Without stretching, output frame `j` reads source frame `j`.
proof fn lemma_pos_identity(j: int, len: int)
    requires
        0 <= j < len,
    ensures
        pos_num(j, len, len) == j * pos_den(len),
        pos_den(len) > 0,
        pos_num(j, len, len) / pos_den(len) == j,
        pos_num(j, len, len) % pos_den(len) == 0,
{
    let q = pos_den(len);
    if len <= 1 {
        assert(j * q == 0) by (nonlinear_arith)
            requires
                j == 0,
        ;
    }
    vstd::arithmetic::div_mod::lemma_div_multiples_vanish(j, q);
    vstd::arithmetic::mul::lemma_mul_is_commutative(j, q);
    vstd::arithmetic::div_mod::lemma_mod_multiples_basic(j, q);
}

proof fn lemma_phase_identity(c: NoteContour, edit: NoteEdit, len: int, j: int)
    requires
        edit.vibrato_rate_scale == UNIT,
        c.vibrato_phase@.len() == len,
        0 <= j < len,
    ensures
        vibrato_phase_at(c, edit, len, len, j) == c.vibrato_phase@[j],
    decreases j,
{
    lemma_pos_identity(j, len);
    lemma_track_on_grid(c.vibrato_phase@, j, pos_den(len));
    if j > 0 {
        lemma_phase_identity(c, edit, len, j - 1);
        lemma_pos_identity(j - 1, len);
        lemma_track_on_grid(c.vibrato_phase@, j - 1, pos_den(len));
        lemma_scaled(
            UNIT as int,
            c.vibrato_phase@[j] - c.vibrato_phase@[j - 1],
            0x1_0000_0000_0000_0000,
        );
    }
}

/// Without edits the pitch on the grid is the one that the parts add up to.
proof fn lemma_pitch_identity<F: Fn(i64, i128) -> i64>(
    c: NoteContour,
    f: F,
    i: usize,
    len: int,
    j: int,
    q: int,
)
    requires
        contour_ok(c),
        c.drift@.len() == len,
        c.vibrato_amp@.len() == len,
        c.vibrato_phase@.len() == len,
        c.residual@.len() == len,
        0 <= j < len,
        q > 0,
    ensures
        pitch_at(c, identity_edit(i), f, j * q, q, c.vibrato_phase@[j] as int) == reconstructed(
            c,
            f,
            j,
        ),
{
    lemma_track_on_grid(c.drift@, j, q);
    lemma_track_on_grid(c.vibrato_amp@, j, q);
    lemma_track_on_grid(c.residual@, j, q);
    lemma_scaled(UNIT as int, c.drift@[j] as int, 0x8000_0000_0000_0000);
    lemma_scaled(UNIT as int, c.vibrato_amp@[j] as int, 0x8000_0000_0000_0000);
    lemma_scaled(UNIT as int, c.residual@[j] as int, 0x8000_0000_0000_0000);
}

/// Without edits a glide passes through the pitches that it was taken from.
proof fn lemma_glide_identity(
    c: NoteContour,
    frames: Seq<Frame>,
    seg: Segment,
    i: usize,
    j: int,
    q: int,
)
    requires
        frames_ok(frames),
        seg.frames.start < seg.frames.end <= frames.len(),
        0 <= j < c.onset_glide@.len() < source_len(seg),
        q > 0,
        carries_glide(
            c,
            frames,
            Piece {
                start: seg.frames.start,
                end: seg.frames.end,
                glide: c.onset_glide@.len() as usize,
            },
        ),
        abs_of(c.onset_glide_depth_cents as int) >= 1000,
    ensures
        glide_pitch(
            c,
            identity_edit(i),
            glide_anchor(frames, seg.frames.start as int),
            frames[seg.frames.start + c.onset_glide@.len()].cents as int,
            j * q,
            q,
        ) == frames[seg.frames.start + j].cents,
{
    let start = seg.frames.start as int;
    let anchor = glide_anchor(frames, start);
    let entry = frames[start + c.onset_glide@.len()].cents as int;
    let depth = entry - anchor;
    let v = frames[start + j].cents - anchor;
    let num = c.onset_glide@[j] as int;
    let span = c.onset_glide_span as int;
    lemma_track_on_grid(c.onset_glide@, j, q);
    assert(num == direction(depth) * v);
    assert(num * depth == v * span) by (nonlinear_arith)
        requires
            num == direction(depth) * v,
            span == abs_of(depth),
    ;
    lemma_rounded_between(num * depth, span, v, v);
    lemma_scaled(UNIT as int, entry - (anchor + v), 0x8000_0000_0000_0000);
}

/// Without edits a note keeps its lengths.
proof fn lemma_lengths_identity(src: int, glide: int, i: usize)
    requires
        0 <= glide < src <= crate::contour::MAX_FRAMES,
    ensures
        render_lengths(src, glide, identity_edit(i)) == Some((glide, src - glide)),
{
    lemma_render_lengths(src, glide, identity_edit(i));
    lemma_rounded_between(glide * src, src, glide, glide);
}

/// Without edits the core of a note gives its own frames.
proof fn lemma_core_identity<F: Fn(i64, i128) -> i64>(
    seg: Segment,
    c: NoteContour,
    frames: Seq<Frame>,
    f: F,
    i: usize,
    m: int,
)
    requires
        frames_ok(frames),
        seg.kind == SegmentKind::Note(c),
        renderable(seg, frames.len() as int),
        faithful(seg, frames, f),
        0 <= m < source_len(seg) - c.onset_glide@.len(),
    ensures
        ({
            let glide = c.onset_glide@.len() as int;
            let len = source_len(seg) - glide;
            let at = seg.frames.start + glide + m;
            &&& core_pitch(c, identity_edit(i), f, len, len, m) == frames[at].cents
            &&& is_source_frame(
                core_frames(seg, c, identity_edit(i), f, len)[m],
                frames,
                at,
            )
        }),
{
    let glide = c.onset_glide@.len() as int;
    let len = source_len(seg) - glide;
    let core = seg.frames.start + glide;
    lemma_pos_identity(m, len);
    lemma_phase_identity(c, identity_edit(i), len, m);
    lemma_pitch_identity(c, f, i, len, m, pos_den(len));
    assert(core_pitch(c, identity_edit(i), f, len, len, m) == reconstructed(c, f, m));
    assert(reconstructed(c, f, m) == frames[core + m].cents);
}

/// Without edits a note's core begins at the pitch of its first frame.
proof fn lemma_entry_identity<F: Fn(i64, i128) -> i64>(
    seg: Segment,
    c: NoteContour,
    frames: Seq<Frame>,
    f: F,
    i: usize,
)
    requires
        frames_ok(frames),
        seg.kind == SegmentKind::Note(c),
        renderable(seg, frames.len() as int),
        faithful(seg, frames, f),
    ensures
        entry_pitch(c, identity_edit(i), f) == frames[seg.frames.start
            + c.onset_glide@.len()].cents,
{
    let len = source_len(seg) - c.onset_glide@.len();
    lemma_pitch_identity(c, f, i, len, 0, 1);
    lemma_track_on_grid(c.vibrato_phase@, 0, 1);
    assert(reconstructed(c, f, 0) == frames[seg.frames.start + c.onset_glide@.len() + 0].cents);
}

/// Without edits the glide of a note gives its own frames.
proof fn lemma_glide_frames_identity<F: Fn(i64, i128) -> i64>(
    seg: Segment,
    c: NoteContour,
    frames: Seq<Frame>,
    f: F,
    i: usize,
    exit: Option<i64>,
    j: int,
)
    requires
        frames_ok(frames),
        seg.kind == SegmentKind::Note(c),
        renderable(seg, frames.len() as int),
        faithful(seg, frames, f),
        exit matches Some(x) ==> seg.frames.start > 0 && frames[seg.frames.start - 1].voiced && x
            == frames[seg.frames.start - 1].cents,
        0 <= j < c.onset_glide@.len(),
    ensures
        is_source_frame(
            glide_frames(seg, c, identity_edit(i), f, exit, c.onset_glide@.len() as int)[j],
            frames,
            seg.frames.start + j,
        ),
{
    let glide = c.onset_glide@.len() as int;
    lemma_entry_identity(seg, c, frames, f, i);
    lemma_pos_identity(j, glide);
    lemma_glide_identity(c, frames, seg, i, j, pos_den(glide));
    assert(glide_start(c, identity_edit(i), f, exit) == glide_anchor(
        frames,
        seg.frames.start as int,
    ));
}

/// Without edits a segment gives its own frames, and is left at the pitch of its
/// last frame.
proof fn lemma_segment_identity<F: Fn(i64, i128) -> i64>(
    seg: Segment,
    frames: Seq<Frame>,
    f: F,
    i: usize,
    exit: Option<i64>,
)
    requires
        frames_ok(frames),
        renderable(seg, frames.len() as int),
        faithful(seg, frames, f),
        exit matches Some(x) ==> seg.frames.start > 0 && frames[seg.frames.start - 1].voiced && x
            == frames[seg.frames.start - 1].cents,
    ensures
        ({
            let (out, left) = segment_frames(seg, identity_edit(i), f, exit);
            &&& out.len() == source_len(seg)
            &&& forall|j: int|
                0 <= j < source_len(seg) ==> is_source_frame(
                    #[trigger] out[j],
                    frames,
                    seg.frames.start + j,
                )
            &&& match seg.kind {
                SegmentKind::Unvoiced => left is None,
                SegmentKind::Note(_) => left == Some(frames[seg.frames.end - 1].cents),
            }
        }),
{
    let edit = identity_edit(i);
    let (out, left) = segment_frames(seg, edit, f, exit);
    let src = source_len(seg);
    match seg.kind {
        SegmentKind::Unvoiced => {
            assert forall|j: int| 0 <= j < src implies is_source_frame(
                #[trigger] out[j],
                frames,
                seg.frames.start + j,
            ) by {
                lemma_pos_identity(j, src);
            }
        },
        SegmentKind::Note(c) => {
            let glide = c.onset_glide@.len() as int;
            lemma_lengths_identity(src, glide, i);
            let first = glide_frames(seg, c, edit, f, exit, glide);
            let rest = core_frames(seg, c, edit, f, src - glide);
            assert(out =~= first + rest);
            assert forall|j: int| 0 <= j < src implies is_source_frame(
                #[trigger] out[j],
                frames,
                seg.frames.start + j,
            ) by {
                if j < glide {
                    lemma_glide_frames_identity(seg, c, frames, f, i, exit, j);
                    assert(out[j] == first[j]);
                } else {
                    lemma_core_identity(seg, c, frames, f, i, j - glide);
                    assert(out[j] == rest[j - glide]);
                }
            }
            lemma_core_identity(seg, c, frames, f, i, src - glide - 1);
        },
    }
}

/// A contour that is divided into segments and rendered with edits that change
/// nothing comes back: as many frames, each at its own pitch.
///
/// The one exception, which `faithful` leaves out, is a glide that ends on the
/// pitch it starts from: its shape is not kept, so it comes back even.
pub proof fn lemma_render_identity<F: Fn(i64, i128) -> i64>(
    frames: Seq<Frame>,
    segments: Seq<Segment>,
    edits: Seq<NoteEdit>,
    f: F,
    k: int,
)
    requires
        frames_ok(frames),
        segments_tile(segments, 0, frames.len() as int),
        notes_voiced(segments, frames),
        forall|i: int|
            0 <= i < segments.len() ==> renderable(#[trigger] segments[i], frames.len() as int)
                && faithful(segments[i], frames, f),
        forall|i: usize| i < segments.len() ==> #[trigger] edit_for(edits, i, 0) == identity_edit(i),
        0 <= k <= segments.len(),
        segments.len() <= usize::MAX,
    ensures
        ({
            let (out, exit) = rendered(segments, edits, f, k);
            let end = if k == 0 { 0 } else { segments[k - 1].frames.end as int };
            &&& out.len() == end
            &&& forall|i: int| 0 <= i < end ==> is_source_frame(#[trigger] out[i], frames, i)
            &&& exit matches Some(x) ==> {
                &&& end > 0
                &&& frames[end - 1].voiced
                &&& x == frames[end - 1].cents
            }
        }),
        k == segments.len() ==> rendered(segments, edits, f, k).0.len() == frames.len(),
    decreases k,
{
    if k > 0 {
        lemma_render_identity(frames, segments, edits, f, k - 1);
        let seg = segments[k - 1];
        assert(renderable(seg, frames.len() as int));
        let (before, exit) = rendered(segments, edits, f, k - 1);
        let at = (k - 1) as usize;
        assert(edit_for(edits, at, 0) == identity_edit(at));
        if k > 1 {
            assert(segments[k - 2].frames.end == segments[k - 1].frames.start);
        }
        lemma_segment_identity(seg, frames, f, at, exit);
        let (part, left) = segment_frames(seg, identity_edit(at), f, exit);
        let (out, _) = rendered(segments, edits, f, k);
        assert(out == before + part);
        assert forall|i: int| 0 <= i < seg.frames.end implies is_source_frame(
            #[trigger] out[i],
            frames,
            i,
        ) by {
            if i < before.len() {
                assert(is_source_frame(before[i], frames, i));
            } else {
                assert(is_source_frame(
                    part[i - before.len()],
                    frames,
                    seg.frames.start + (i - before.len()),
                ));
            }
        }
        if left is Some {
            if seg.kind is Note {
                assert(frames[seg.frames.end - 1].voiced);
            }
        }
    }
}

/// What segmentation gives can be rendered, and holds the pitches of its frames.
pub proof fn lemma_segmentation_is_faithful<F: Fn(i64, i128) -> i64>(
    frames: Seq<Frame>,
    seg: Segment,
    plan: Planned,
    frame_rate: int,
    config: SegmentConfig,
    kernel: Kernel,
    f: F,
)
    requires
        frames_ok(frames),
        kernel.wf(),
        is_swing(f),
        fulfils(seg, plan, frames, frame_rate, config, kernel@),
        seg.frames.start < seg.frames.end <= frames.len(),
        plan.piece.start + plan.piece.glide < plan.piece.end,
    ensures
        renderable(seg, frames.len() as int),
        (seg.kind matches SegmentKind::Note(c) ==> c.onset_glide@.len() == 0 || abs_of(
            c.onset_glide_depth_cents as int,
        ) >= 1000) ==> faithful(seg, frames, f),
{
    if let SegmentKind::Note(c) = seg.kind {
        let core = plan.piece.start + plan.piece.glide;
        let cents = frame_cents(frames, core, plan.piece.end as int);
        assert(c.onset_glide@.len() == plan.piece.glide);
        assert(bounded(cents, PITCH_LIMIT as int)) by {
            assert forall|i: int| 0 <= i < cents.len() implies -PITCH_LIMIT <= #[trigger] cents[i]
                <= PITCH_LIMIT by {
                assert(cents[i] == frames[core + i].cents);
            }
        }
        lemma_decomposition_bounds(cents, kernel);
        assert forall|i: int| 0 <= i < cents.len() implies #[trigger] reconstructed(c, f, i)
            == frames[core + i].cents by {
            lemma_decomposition_reconstructs(c, cents, frame_rate, config, kernel, f, i);
        }
        if plan.piece.glide > 0 {
            let anchor = glide_anchor(frames, plan.piece.start as int);
            assert forall|j: int| 0 <= j < c.onset_glide@.len() implies -1_000_000_000_000_000
                <= #[trigger] c.onset_glide@[j] <= 1_000_000_000_000_000 by {
                let v = frames[plan.piece.start + j].cents - anchor;
                assert(-240_000_000_000_000 <= v <= 240_000_000_000_000);
            }
        }
    }
}

} // verus!
