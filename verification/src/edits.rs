//! What the edits of a note do to its pitch.

use crate::contour::{NoteContour, MAX_FRAMES};
use crate::num::{lemma_rounded_between, lemma_rounded_quotient, rounded_quotient};
use crate::render::{
    contour_ok, core_pitch, edit_for, entry_pitch, glide_pitch, glide_start, held, lemma_scaled,
    lemma_track_at, pos_den, pos_num, render_lengths, rendered, scaled, segment_frames, source_len, stretched_glide, track_at, vibrato_phase_at, NoteEdit,
    RenderedFrame, TRACK_LIMIT, UNIT,
};
use crate::segment::{Segment, SegmentKind};
use crate::stretch::{
    is_scaled, lemma_core_reads_evenly, lemma_glide_reads_evenly, lemma_positions_are_even,
    lemma_scaled_in_proportion, lemma_track_is_linear,
};
use crate::vibrato::{is_swing, lemma_swung_bound, swung};
use vstd::prelude::*;

verus! {

proof fn lemma_positions(j: int, core_len: int, out: int)
    requires
        0 <= j < out,
        1 <= core_len,
    ensures
        pos_num(j, core_len, out) >= 0,
        pos_den(out) > 0,
{
    if out > 1 {
        assert(j * (core_len - 1) >= 0) by (nonlinear_arith)
            requires
                j >= 0,
                core_len >= 1,
        ;
    }
}

/// Without drift and vibrato every core frame of a note is at its centre, or at the
/// target that takes the place of the centre.
pub proof fn lemma_flat_core<F: Fn(i64, i128) -> i64>(
    c: NoteContour,
    edit: NoteEdit,
    f: F,
    core_len: int,
    out: int,
    j: int,
)
    requires
        contour_ok(c),
        edit.ok(),
        is_swing(f),
        edit.drift_scale == 0,
        edit.vibrato_scale == 0,
        1 <= core_len,
        0 <= j < out,
    ensures
        core_pitch(c, edit, f, core_len, out, j) == (match edit.target_cents {
            Some(t) => t,
            None => c.center_cents,
        }),
{
    lemma_positions(j, core_len, out);
    let p = pos_num(j, core_len, out);
    let q = pos_den(out);
    let l = TRACK_LIMIT as int;
    lemma_track_at(c.drift@, p, q, l);
    lemma_track_at(c.vibrato_amp@, p, q, l);
    lemma_track_at(c.residual@, p, q, l);
    lemma_scaled(0, track_at(c.drift@, p, q), l);
    lemma_scaled(0, track_at(c.vibrato_amp@, p, q), l);
    lemma_scaled(0, track_at(c.residual@, p, q), l);
    lemma_swung_bound(f, 0, vibrato_phase_at(c, edit, core_len, out, j) as i128);
}

proof fn lemma_phase_ignores_target(
    c: NoteContour,
    edit: NoteEdit,
    t: i64,
    core_len: int,
    out: int,
    j: int,
)
    ensures
        vibrato_phase_at(c, (NoteEdit { target_cents: Some(t), ..edit }), core_len, out, j)
            == vibrato_phase_at(c, edit, core_len, out, j),
    decreases j,
{
    if j > 0 {
        lemma_phase_ignores_target(c, edit, t, core_len, out, j - 1);
    }
}

/// A target moves every core frame of a note by the same amount: drift, vibrato and
/// rest stay as they are.
pub proof fn lemma_target_transposes<F: Fn(i64, i128) -> i64>(
    c: NoteContour,
    edit: NoteEdit,
    f: F,
    t: i64,
    core_len: int,
    out: int,
    j: int,
)
    requires
        edit.target_cents is None,
    ensures
        core_pitch(c, (NoteEdit { target_cents: Some(t), ..edit }), f, core_len, out, j)
            == core_pitch(c, edit, f, core_len, out, j) + (t - c.center_cents),
        entry_pitch(c, (NoteEdit { target_cents: Some(t), ..edit }), f) == entry_pitch(c, edit, f)
            + (t - c.center_cents),
{
    lemma_phase_ignores_target(c, edit, t, core_len, out, j);
}

/// A glide without a note before it, or with a gap before it, starts its own depth
/// away from where it leads, however the note is edited.
pub proof fn lemma_scoop_keeps_depth<F: Fn(i64, i128) -> i64>(
    c: NoteContour,
    edit: NoteEdit,
    f: F,
    exit: Option<i64>,
)
    requires
        exit is None || edit.lead_gap_frames > 0,
    ensures
        entry_pitch(c, edit, f) - glide_start(c, edit, f, exit) == c.onset_glide_depth_cents,
{
}

/// A glide connects the pitch it starts from with the pitch it leads to: it is at the
/// one where its shape is 0, and at the other where its shape is 1.
pub proof fn lemma_glide_connects(
    c: NoteContour,
    edit: NoteEdit,
    start: int,
    entry: int,
    p: int,
    q: int,
)
    requires
        c.onset_glide_span >= 1,
        edit.glide_scale == UNIT,
        -500_000_000_000_000_000 <= start <= 500_000_000_000_000_000,
        -4_500_000_000_000_000_000 <= entry <= 4_500_000_000_000_000_000,
    ensures
        track_at(c.onset_glide@, p, q) == 0 ==> glide_pitch(c, edit, start, entry, p, q) == start,
        track_at(c.onset_glide@, p, q) == c.onset_glide_span ==> glide_pitch(
            c,
            edit,
            start,
            entry,
            p,
            q,
        ) == entry,
{
    let span = c.onset_glide_span as int;
    let rise = entry - start;
    let shape = track_at(c.onset_glide@, p, q);
    assert(0 * rise == 0 && 0 * span == 0);
    lemma_rounded_between(0, span, 0, 0);
    assert(span * rise == rise * span) by (nonlinear_arith);
    lemma_rounded_between(rise * span, span, rise, rise);
    lemma_scaled(UNIT as int, rise, 14_000_000_000_000_000_000);
    lemma_scaled(UNIT as int, 0, 0);
    assert(shape == 0 ==> shape * rise == 0);
    assert(shape == span ==> shape * rise == rise * span);
}

/// A glide scaled to nothing is a hard step: all of its frames are at the pitch that
/// it leads to.
pub proof fn lemma_glide_off(
    c: NoteContour,
    edit: NoteEdit,
    start: int,
    entry: int,
    p: int,
    q: int,
)
    requires
        edit.glide_scale == 0,
        -4_500_000_000_000_000_000 <= entry <= 4_500_000_000_000_000_000,
    ensures
        glide_pitch(c, edit, start, entry, p, q) == entry,
{
    let along = held(
        start + rounded_quotient(
            track_at(c.onset_glide@, p, q) * (entry - start),
            c.onset_glide_span as int,
        ),
    );
    lemma_scaled(0, entry - along, 14_000_000_000_000_000_000);
}

// --- the parts of a pitch ---------------------------------------------------

/// Where on the tracks of a core of `len` frames output frame `j` of `out` reads:
/// `j / (out - 1)` of the way from the first to the last.
pub open spec fn way(j: int, len: int, out: int) -> (int, int) {
    if out >= 2 { (j * (len - 1), out - 1) } else { (0, 1) }
}

/// The pitch of a core frame is the sum of its parts: the centre or the target, drift and
/// rest each scaled by the drift's scale, and the swing of the vibrato at its scaled
/// amplitude, all read at the frame's own place.
pub proof fn lemma_core_pitch_parts<F: Fn(i64, i128) -> i64>(
    c: NoteContour,
    edit: NoteEdit,
    f: F,
    core_len: int,
    out: int,
    j: int,
) -> (parts: (int, i64, int))
    requires
        contour_ok(c),
        edit.ok(),
        is_swing(f),
        1 <= core_len,
        0 <= j < out,
    ensures
        ({
            let (p, q) = way(j, core_len, out);
            let (drift, amp, rest) = parts;
            &&& core_pitch(c, edit, f, core_len, out, j) == (match edit.target_cents {
                Some(t) => t,
                None => c.center_cents,
            }) + drift + rest + swung(
                f,
                amp,
                vibrato_phase_at(c, edit, core_len, out, j) as i128,
            )
            &&& is_scaled(edit.drift_scale as int, track_at(c.drift@, p, q), drift)
            &&& is_scaled(edit.drift_scale as int, track_at(c.residual@, p, q), rest)
            &&& is_scaled(edit.vibrato_scale as int, track_at(c.vibrato_amp@, p, q), amp as int)
        }),
{
    lemma_positions(j, core_len, out);
    let p = pos_num(j, core_len, out);
    let q = pos_den(out);
    let l = TRACK_LIMIT as int;
    lemma_track_at(c.vibrato_amp@, p, q, l);
    lemma_scaled(edit.vibrato_scale as int, track_at(c.vibrato_amp@, p, q), l);
    let drift = scaled(edit.drift_scale as int, track_at(c.drift@, p, q));
    let rest = scaled(edit.drift_scale as int, track_at(c.residual@, p, q));
    let amp = scaled(edit.vibrato_scale as int, track_at(c.vibrato_amp@, p, q));
    lemma_scaled_in_proportion(edit.drift_scale as int, track_at(c.drift@, p, q));
    lemma_scaled_in_proportion(edit.drift_scale as int, track_at(c.residual@, p, q));
    lemma_scaled_in_proportion(edit.vibrato_scale as int, track_at(c.vibrato_amp@, p, q));
    (drift, amp as i64, rest)
}

/// Without stretching and without vibrato, a core frame stands above the centre or the
/// target by its own drift and rest, in proportion to the drift's scale.
pub proof fn lemma_drift_in_proportion<F: Fn(i64, i128) -> i64>(
    c: NoteContour,
    edit: NoteEdit,
    f: F,
    j: int,
)
    requires
        contour_ok(c),
        edit.ok(),
        is_swing(f),
        edit.vibrato_scale == 0,
        c.drift@.len() == c.residual@.len(),
        0 <= j < c.drift@.len(),
    ensures
        ({
            let n = c.drift@.len() as int;
            let center = match edit.target_cents {
                Some(t) => t,
                None => c.center_cents,
            };
            let above = core_pitch(c, edit, f, n, n, j) - center;
            -1_000_000 <= edit.drift_scale * (c.drift@[j] + c.residual@[j]) - 1_000_000 * above
                <= 1_000_000
        }),
{
    let n = c.drift@.len() as int;
    let (drift, amp, rest) = lemma_core_pitch_parts(c, edit, f, n, n, j);
    let (p, q) = way(j, n, n);
    if n >= 2 {
        assert(j * q + 0 == j * (n - 1));
        lemma_track_is_linear(c.drift@, j, 0, q);
        lemma_track_is_linear(c.residual@, j, 0, q);
    } else {
        lemma_track_is_linear(c.drift@, 0, 0, q);
        lemma_track_is_linear(c.residual@, 0, 0, q);
    }
    let x = track_at(c.vibrato_amp@, p, q);
    assert(0 * x == 0);
    assert(amp == 0);
    lemma_swung_bound(f, 0, vibrato_phase_at(c, edit, n, n, j) as i128);
    let s = edit.drift_scale as int;
    assert(s * (c.drift@[j] + c.residual@[j]) == s * c.drift@[j] + s * c.residual@[j])
        by (nonlinear_arith);
}

/// The phase of a vibrato begins where that of the source does, and from one core frame to
/// the next moves by the scaled distance that the source moves between the same places.
pub proof fn lemma_phase_advances(
    c: NoteContour,
    edit: NoteEdit,
    core_len: int,
    out: int,
    j: int,
)
    requires
        c.vibrato_phase@.len() > 0,
        1 <= core_len,
        0 <= j,
        j + 1 < out,
    ensures
        vibrato_phase_at(c, edit, core_len, out, 0) == c.vibrato_phase@[0],
        is_scaled(
            edit.vibrato_rate_scale as int,
            track_at(c.vibrato_phase@, (j + 1) * (core_len - 1), out - 1) - track_at(
                c.vibrato_phase@,
                j * (core_len - 1),
                out - 1,
            ),
            vibrato_phase_at(c, edit, core_len, out, j + 1) - vibrato_phase_at(
                c,
                edit,
                core_len,
                out,
                j,
            ),
        ),
{
    lemma_positions_are_even(j, core_len, out);
    let q = pos_den(out);
    assert(0 * q + 0 == 0);
    lemma_track_is_linear(c.vibrato_phase@, 0, 0, q);
    lemma_scaled_in_proportion(
        edit.vibrato_rate_scale as int,
        track_at(c.vibrato_phase@, pos_num(j + 1, core_len, out), q) - track_at(
            c.vibrato_phase@,
            pos_num(j, core_len, out),
            q,
        ),
    );
}

/// A note enters at the pitch of its first core frame, however it is stretched.
pub proof fn lemma_entry_is_first_core_pitch<F: Fn(i64, i128) -> i64>(
    c: NoteContour,
    edit: NoteEdit,
    f: F,
    core_len: int,
    out: int,
)
    requires
        1 <= core_len,
        1 <= out,
    ensures
        entry_pitch(c, edit, f) == core_pitch(c, edit, f, core_len, out, 0),
{
    lemma_positions_are_even(0, core_len, out);
    let q = pos_den(out);
    assert(0 * q + 0 == 0 && 0 * 1 + 0 == 0int);
    lemma_track_is_linear(c.drift@, 0, 0, q);
    lemma_track_is_linear(c.drift@, 0, 0, 1);
    lemma_track_is_linear(c.residual@, 0, 0, q);
    lemma_track_is_linear(c.residual@, 0, 0, 1);
    lemma_track_is_linear(c.vibrato_amp@, 0, 0, q);
    lemma_track_is_linear(c.vibrato_amp@, 0, 0, 1);
    lemma_track_is_linear(c.vibrato_phase@, 0, 0, q);
    lemma_track_is_linear(c.vibrato_phase@, 0, 0, 1);
}

// --- glides -----------------------------------------------------------------

/// A glide at its own depth follows its shape: where the shape has come `shape / span` of
/// the way, so has the pitch on its way from `start` to `entry`. One whose depth is scaled
/// stays as much closer to where it leads as the scale says.
pub proof fn lemma_glide_in_proportion(
    c: NoteContour,
    edit: NoteEdit,
    start: int,
    entry: int,
    p: int,
    q: int,
)
    requires
        c.onset_glide_span >= 1,
        -500_000_000_000_000_000 <= start <= 500_000_000_000_000_000,
        -500_000_000_000_000_000 <= entry <= 500_000_000_000_000_000,
        0 <= track_at(c.onset_glide@, p, q) <= c.onset_glide_span,
    ensures
        ({
            let full = NoteEdit { glide_scale: UNIT, ..edit };
            let at = glide_pitch(c, full, start, entry, p, q);
            &&& -c.onset_glide_span <= 2 * (track_at(c.onset_glide@, p, q) * (entry - start)
                - c.onset_glide_span * (at - start)) < c.onset_glide_span
            &&& 0 <= edit.glide_scale <= 1_000_000 ==> is_scaled(
                edit.glide_scale as int,
                entry - at,
                entry - glide_pitch(c, edit, start, entry, p, q),
            )
        }),
{
    let span = c.onset_glide_span as int;
    let rise = entry - start;
    let shape = track_at(c.onset_glide@, p, q);
    let x = shape * rise;
    let moved = rounded_quotient(x, span);
    lemma_rounded_quotient(x, span, 0);
    assert(moved * span == span * moved) by (nonlinear_arith);
    let limit: int = 1_000_000_000_000_000_000;
    assert((-limit) * span <= x <= limit * span) by (nonlinear_arith)
        requires
            x == shape * rise,
            0 <= shape <= span,
            -limit <= rise <= limit,
            limit >= 0,
    ;
    lemma_rounded_between(x, span, -limit, limit);
    let along = start + moved;
    assert(held(along) == along);
    let gap = entry - along;
    lemma_scaled(UNIT as int, gap, 2 * limit);
    assert(held(entry - gap) == along);
    let s = edit.glide_scale as int;
    if 0 <= s <= 1_000_000 {
        lemma_scaled(s, gap, 2 * limit);
        lemma_scaled_in_proportion(s, gap);
        let y = s * gap;
        assert((-2 * limit) * 1_000_000 <= y <= (2 * limit) * 1_000_000) by (nonlinear_arith)
            requires
                y == s * gap,
                0 <= s <= 1_000_000,
                -2 * limit <= gap <= 2 * limit,
        ;
        lemma_rounded_between(y, UNIT as int, -2 * limit, 2 * limit);
        assert(held(entry - scaled(s, gap)) == entry - scaled(s, gap));
    }
}

/// A pitch held between nine billion cents below A4 and nine billion above.
pub open spec fn within_ceiling(x: int) -> int {
    if x > 9_000_000_000_000_000_000 {
        9_000_000_000_000_000_000
    } else if x < -9_000_000_000_000_000_000 {
        -9_000_000_000_000_000_000
    } else {
        x
    }
}

/// A glide, whatever its shape and its scale: from its start it has moved by as much of the way to
/// its end as its shape says, and of what is then left of the way the scale is kept.
pub proof fn lemma_glide_pitch_parts(
    c: NoteContour,
    edit: NoteEdit,
    start: int,
    entry: int,
    p: int,
    q: int,
) -> (parts: (int, int))
    requires
        c.onset_glide_span >= 1,
    ensures
        ({
            let (moved, left) = parts;
            let span = c.onset_glide_span as int;
            &&& -span <= 2 * (track_at(c.onset_glide@, p, q) * (entry - start) - moved * span)
                < span
            &&& is_scaled(edit.glide_scale as int, entry - within_ceiling(start + moved), left)
            &&& glide_pitch(c, edit, start, entry, p, q) == within_ceiling(entry - left)
        }),
{
    let span = c.onset_glide_span as int;
    let x = track_at(c.onset_glide@, p, q) * (entry - start);
    let moved = rounded_quotient(x, span);
    lemma_rounded_quotient(x, span, 0);
    let gap = entry - held(start + moved);
    lemma_scaled_in_proportion(edit.glide_scale as int, gap);
    (moved, scaled(edit.glide_scale as int, gap))
}

/// A note that follows another without a gap glides from the pitch at which the other was
/// left; any other glides from its own depth below or above its entry.
pub proof fn lemma_glide_starts_at_exit<F: Fn(i64, i128) -> i64>(
    c: NoteContour,
    edit: NoteEdit,
    f: F,
    exit: i64,
)
    ensures
        edit.lead_gap_frames == 0 ==> glide_start(c, edit, f, Some(exit)) == exit,
        edit.lead_gap_frames > 0 ==> glide_start(c, edit, f, Some(exit)) + c.onset_glide_depth_cents
            == entry_pitch(c, edit, f),
        glide_start(c, edit, f, None) + c.onset_glide_depth_cents == entry_pitch(c, edit, f),
{
}

// --- lengths ----------------------------------------------------------------

/// A note that is stretched to `total` frames keeps its glide's share of them: glide and
/// core are `total` together, the core has at least one, and up to that the glide has the
/// nearest number to `glide_len * total / src_len`. Scaling the glide's duration by
/// `glide_time_scale` millionths changes the glide alone, and never below none.
pub proof fn lemma_lengths_in_proportion(src_len: int, glide_len: int, edit: NoteEdit) -> (kept:
    int)
    requires
        0 <= glide_len < src_len,
    ensures
        ({
            let total = match edit.out_len {
                Some(n) => n as int,
                None => src_len,
            };
            let scale = edit.glide_time_scale as int;
            if total == 0 {
                render_lengths(src_len, glide_len, edit) is None
            } else {
                &&& render_lengths(src_len, glide_len, edit) matches Some(l) && {
                    &&& l.1 == total - kept
                    &&& l.1 >= 1
                    &&& l.0 >= 0
                    &&& 2 * (glide_len * total - kept * src_len) >= -src_len
                    &&& l.1 > 1 ==> 2 * (glide_len * total - kept * src_len) < src_len
                    &&& 2 * (glide_len * total - (total - 1) * src_len) < src_len ==> {
                        let left = glide_len * total * scale - l.0 * (src_len * 1_000_000);
                        2 * left < src_len * 1_000_000 && (l.0 > 0 ==> 2 * left >= -(src_len
                            * 1_000_000))
                    }
                    &&& 2 * (glide_len * total - (total - 1) * src_len) >= src_len ==> {
                        let left = (total - 1) * scale - l.0 * 1_000_000;
                        2 * left < 1_000_000 && (l.0 > 0 ==> 2 * left >= -1_000_000)
                    }
                }
            }
        }),
{
    let total = match edit.out_len {
        Some(n) => n as int,
        None => src_len,
    };
    let scale = edit.glide_time_scale as int;
    let kept = stretched_glide(src_len, glide_len, total);
    if total > 0 {
        let whole = glide_len * total;
        let r = rounded_quotient(whole, src_len);
        lemma_rounded_quotient(whole, src_len, 0);
        let d = src_len * 1_000_000;
        lemma_rounded_quotient(whole * scale, d, 0);
        lemma_rounded_quotient((total - 1) * scale, 1_000_000, 0);
        let edge = (total - 1) * src_len;
        assert(r > total - 1 <==> 2 * (whole - edge) >= src_len) by (nonlinear_arith)
            requires
                -src_len <= 2 * (whole - r * src_len) < src_len,
                edge == (total - 1) * src_len,
                src_len > 0,
        ;
        let l = render_lengths(src_len, glide_len, edit)->0;
        if l.0 == 0 {
            assert(0 * d == 0);
            let a = whole * scale;
            let x = rounded_quotient(a, d);
            if x < 0 {
                assert(2 * a < d) by (nonlinear_arith)
                    requires
                        2 * (a - x * d) < d,
                        x < 0,
                        d > 0,
                ;
            }
        }
        if r > total - 1 {
            assert(kept == total - 1);
            if l.0 == 0 {
                let a = (total - 1) * scale;
                let x = rounded_quotient(a, 1_000_000);
            }
        } else {
            assert(kept == r);
        }
    }
    kept
}

// --- segments ---------------------------------------------------------------

/// What the frames of a note are: first the gap, silence with the spectrum of its first
/// frame; then the glide, which reads the frames of the glide alone; then the core, which
/// reads those after it up to the last. The note is left at the pitch of its last frame.
pub proof fn lemma_note_frames<F: Fn(i64, i128) -> i64>(
    seg: Segment,
    c: NoteContour,
    edit: NoteEdit,
    f: F,
    exit: Option<i64>,
    j: int,
)
    requires
        seg.kind == SegmentKind::Note(c),
        seg.frames.start + c.onset_glide@.len() < seg.frames.end <= MAX_FRAMES,
        edit.ok(),
        edit.out_len != Some(0usize),
        0 <= j < segment_frames(seg, edit, f, exit).0.len(),
    ensures
        ({
            let (frames, left) = segment_frames(seg, edit, f, exit);
            let (glide, core) = render_lengths(
                seg.frames.end - seg.frames.start,
                c.onset_glide@.len() as int,
                edit,
            )->0;
            let gap = edit.lead_gap_frames as int;
            let turn = seg.frames.start + c.onset_glide@.len();
            &&& frames.len() == gap + glide + core
            &&& j < gap ==> frames[j] == RenderedFrame::Silent(seg.frames.start)
            &&& gap <= j < gap + glide ==> (frames[j] matches RenderedFrame::Voiced {
                from,
                to,
                ..
            } && seg.frames.start <= from <= to < turn)
            &&& gap + glide <= j ==> (frames[j] matches RenderedFrame::Voiced { from, to, .. }
                && turn <= from <= to < seg.frames.end)
            &&& (frames[frames.len() - 1] matches RenderedFrame::Voiced { cents, .. } && left
                == Some(cents))
        }),
{
    let len = source_len(seg);
    let g = c.onset_glide@.len() as int;
    crate::render::lemma_render_lengths(len, g, edit);
    let (glide, core) = render_lengths(len, g, edit)->0;
    let gap = edit.lead_gap_frames as int;
    if gap <= j < gap + glide {
        lemma_glide_reads_evenly(seg, c, edit, f, exit, glide, j - gap);
    }
    if gap + glide <= j {
        lemma_core_reads_evenly(seg, c, edit, f, core, j - gap - glide);
    }
    lemma_core_reads_evenly(seg, c, edit, f, core, core - 1);
    let frames = segment_frames(seg, edit, f, exit).0;
    assert(frames[frames.len() - 1] == crate::render::core_frames(seg, c, edit, f, core)[core
        - 1]);
}

/// An unvoiced segment leaves no pitch behind, and one that is dropped leaves things as
/// they were.
pub proof fn lemma_silence_severs<F: Fn(i64, i128) -> i64>(
    seg: Segment,
    edit: NoteEdit,
    f: F,
    exit: Option<i64>,
)
    ensures
        seg.kind is Unvoiced ==> segment_frames(seg, edit, f, exit).1 is None,
        seg.kind is Note && edit.out_len == Some(0usize) ==> segment_frames(seg, edit, f, exit) == (
            Seq::<RenderedFrame>::empty(),
            exit,
        ),
{
}

/// A segment is edited by the first edit that names it, and kept as it is where none does.
pub proof fn lemma_first_edit_counts(edits: Seq<NoteEdit>, i: usize, k: int)
    requires
        0 <= k <= edits.len(),
        forall|m: int| 0 <= m < k ==> (#[trigger] edits[m]).segment_index != i,
        k < edits.len() ==> edits[k].segment_index == i,
    ensures
        k < edits.len() ==> edit_for(edits, i, 0) == edits[k],
        k == edits.len() ==> edit_for(edits, i, 0) == (NoteEdit {
            segment_index: i,
            target_cents: None,
            drift_scale: 1_000_000,
            vibrato_scale: 1_000_000,
            vibrato_rate_scale: 1_000_000,
            glide_scale: 1_000_000,
            glide_time_scale: 1_000_000,
            out_len: None,
            lead_gap_frames: 0,
        }),
{
    lemma_edit_search(edits, i, 0, k);
}

proof fn lemma_edit_search(edits: Seq<NoteEdit>, i: usize, from: int, k: int)
    requires
        0 <= from <= k <= edits.len(),
        forall|m: int| from <= m < k ==> (#[trigger] edits[m]).segment_index != i,
    ensures
        edit_for(edits, i, from) == edit_for(edits, i, k),
    decreases k - from,
{
    if from < k {
        assert(edits[from].segment_index != i);
        lemma_edit_search(edits, i, from + 1, k);
    }
}

/// Notes connect: a note that follows another without a gap is rendered after it, and its glide
/// starts at the pitch of the last frame that the other gave.
pub proof fn lemma_notes_connect<F: Fn(i64, i128) -> i64>(
    segments: Seq<Segment>,
    edits: Seq<NoteEdit>,
    f: F,
    k: int,
    a: NoteContour,
    b: NoteContour,
)
    requires
        1 <= k < segments.len() <= usize::MAX,
        crate::render::edits_ok(edits),
        segments[k - 1].kind == SegmentKind::Note(a),
        segments[k].kind == SegmentKind::Note(b),
        segments[k - 1].frames.start + a.onset_glide@.len() < segments[k - 1].frames.end
            <= MAX_FRAMES,
        edit_for(edits, (k - 1) as usize, 0).ok(),
        edit_for(edits, (k - 1) as usize, 0).out_len != Some(0usize),
        edit_for(edits, k as usize, 0).lead_gap_frames == 0,
    ensures
        ({
            let before = rendered(segments, edits, f, k).0;
            let after = rendered(segments, edits, f, k + 1).0;
            let edit = edit_for(edits, k as usize, 0);
            &&& before.len() > 0
            &&& before[before.len() - 1] matches RenderedFrame::Voiced { cents, .. } && {
                &&& glide_start(b, edit, f, rendered(segments, edits, f, k).1) == cents
                &&& after == before + segment_frames(segments[k], edit, f, Some(cents)).0
            }
        }),
{
    let (first, exit) = rendered(segments, edits, f, k - 1);
    let seg = segments[k - 1];
    let edit = edit_for(edits, (k - 1) as usize, 0);
    let (own, left) = segment_frames(seg, edit, f, exit);
    let g = a.onset_glide@.len() as int;
    crate::render::lemma_render_lengths(source_len(seg), g, edit);
    lemma_note_frames(seg, a, edit, f, exit, 0);
    let before = rendered(segments, edits, f, k).0;
    assert(before == first + own);
    assert(before[before.len() - 1] == own[own.len() - 1]);
}

} // verus!
