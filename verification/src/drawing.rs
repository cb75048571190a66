//! Laws of a drawing: where frames, pitches and times stand in it, and what notes are called.

use crate::contour::{Frame, NoteContour};
use crate::num::{even_quotient, lemma_even_quotient, lemma_rounded_quotient, rounded_quotient};
use crate::segment::{Segment, SegmentKind};
use crate::svg::{
    dots_text, drift_pitch, first_of, first_semitone, glide_end, glide_point, grid_text,
    highest, label_count, label_step, label_x, labels_text, last_semitone, last_tenth, lowest,
    closing_text, midi_note, note_lines, note_text, notes_text, overlay_text, pitch_class, plot_of,
    points_text, segments_text, svg_text, vibrato_pitch, Plot,
};
use crate::text::{lemma_fixed_point_is_nearest, signed_decimal, tenths};
use vstd::prelude::*;

verus! {

// --- coordinates ------------------------------------------------------------

/// Frames stand evenly from left to right: the first at 60, and the whole contour 1120 wide; each
/// stands at the nearest tenth.
pub proof fn lemma_frames_stand_evenly(plot: Plot, i: int) -> (t: int)
    requires
        plot.frames > 0,
        i >= 0,
    ensures
        t >= 0,
        plot.x(i) == tenths(t),
        -plot.frames <= 2 * (t * plot.frames - 10 * (60 * plot.frames + 1120 * i)) <= plot.frames,
{
    let n = plot.frames as int;
    lemma_fixed_point_is_nearest(60 * n + i * 1120, n)
}

/// A contour without frames is one second wide.
pub proof fn lemma_empty_contour_is_one_second(plot: Plot, i: int) -> (t: int)
    requires
        plot.frames == 0,
        plot.frame_rate > 0,
        i >= 0,
    ensures
        t >= 0,
        plot.x(i) == tenths(t),
        -plot.frame_rate <= 2 * (t * plot.frame_rate - 10 * (60 * plot.frame_rate
            + 1_120_000_000_000 * i)) <= plot.frame_rate,
{
    let r = plot.frame_rate as int;
    assert(i * 1120 * 1_000_000_000 == 1_120_000_000_000 * i);
    lemma_fixed_point_is_nearest(60 * r + i * 1120 * 1_000_000_000, r)
}

/// A stretch of frames is as wide as the way between its ends.
pub proof fn lemma_width_is_distance(plot: Plot, k: int) -> (t: int)
    requires
        plot.frames > 0,
        k >= 0,
    ensures
        t >= 0,
        plot.width(k) == tenths(t),
        -plot.frames <= 2 * (t * plot.frames - 10 * (1120 * k)) <= plot.frames,
{
    lemma_fixed_point_is_nearest(k * 1120, plot.frames as int)
}

/// Pitches stand evenly from the top down: the highest at 20 and the lowest at 560, each at the
/// nearest tenth.
pub proof fn lemma_pitches_stand_evenly(plot: Plot, cents: int) -> (t: int)
    requires
        plot.low < plot.high,
        cents <= plot.high,
    ensures
        ({
            let range = plot.high - plot.low;
            &&& t >= 0
            &&& plot.y(cents) == tenths(t)
            &&& -range <= 2 * (t * range - 10 * (20 * range + 540 * (plot.high - cents))) <= range
            &&& cents == plot.high ==> t == 200
            &&& cents == plot.low ==> t == 5600
        }),
{
    let range = plot.high - plot.low;
    let t = lemma_fixed_point_is_nearest(20 * range + (plot.high - cents) * 540, range);
    if cents == plot.high {
        assert(t == 200) by (nonlinear_arith)
            requires
                -range <= 2 * (t * range - 10 * (20 * range)) <= range,
                range > 0,
        ;
    }
    if cents == plot.low {
        assert(t == 5600) by (nonlinear_arith)
            requires
                -range <= 2 * (t * range - 10 * (560 * range)) <= range,
                range > 0,
        ;
    }
    t
}

/// A plot reaches two hundred cents below the lowest pitch of its frames and two hundred above the
/// highest, and neither further nor less far; where no frame has a pitch, fourteen hundred to
/// either side of A4. Frames that are not voiced, or have no frequency, make no difference.
pub proof fn lemma_plot_range(frames: Seq<Frame>, frame_rate: u64, i: int)
    requires
        crate::contour::frames_ok(frames),
        0 <= i < frames.len(),
    ensures
        ({
            let plot = plot_of(frames, frame_rate);
            let f = frames[i];
            &&& plot.frames == frames.len()
            &&& plot.frame_rate == frame_rate
            &&& f.voiced && f.fo > 0 ==> plot.low + 200_000_000_000 <= f.cents <= plot.high
                - 200_000_000_000
            &&& f.voiced && f.fo > 0 ==> exists|a: int, b: int|
                #![trigger frames[a], frames[b]]
                0 <= a < frames.len() && 0 <= b < frames.len() && frames[a].voiced && frames[a].fo > 0
                    && frames[b].voiced && frames[b].fo > 0 && frames[a].cents == plot.low
                    + 200_000_000_000 && frames[b].cents == plot.high - 200_000_000_000
            &&& (forall|a: int| 0 <= a < frames.len() ==> !((#[trigger] frames[a]).voiced
                && frames[a].fo > 0)) ==> plot.low == -1_400_000_000_000 && plot.high
                == 1_400_000_000_000
        }),
{
    let n = frames.len() as int;
    lemma_extremes(frames, n);
    let f = frames[i];
    if f.voiced && f.fo > 0 {
        let a = choose|a: int|
            0 <= a < n && (#[trigger] frames[a]).voiced && frames[a].fo > 0 && lowest(frames, n)
                == Some(frames[a].cents as int);
        let b = choose|b: int|
            0 <= b < n && (#[trigger] frames[b]).voiced && frames[b].fo > 0 && highest(frames, n)
                == Some(frames[b].cents as int);
        assert(frames[a].voiced && frames[b].voiced);
    }
}

proof fn lemma_extremes(frames: Seq<Frame>, k: int)
    requires
        0 <= k <= frames.len(),
    ensures
        lowest(frames, k) is Some <==> highest(frames, k) is Some,
        (forall|a: int| 0 <= a < k ==> !((#[trigger] frames[a]).voiced && frames[a].fo > 0))
            ==> lowest(frames, k) is None,
        lowest(frames, k) matches Some(c) ==> (exists|a: int|
            0 <= a < k && (#[trigger] frames[a]).voiced && frames[a].fo > 0 && c == frames[a].cents),
        highest(frames, k) matches Some(c) ==> (exists|a: int|
            0 <= a < k && (#[trigger] frames[a]).voiced && frames[a].fo > 0 && c == frames[a].cents),
        forall|a: int|
            0 <= a < k && (#[trigger] frames[a]).voiced && frames[a].fo > 0 ==> {
                &&& lowest(frames, k) is Some
                &&& lowest(frames, k)->0 <= frames[a].cents
                &&& highest(frames, k) is Some
                &&& highest(frames, k)->0 >= frames[a].cents
            },
    decreases k,
{
    if k > 0 {
        lemma_extremes(frames, k - 1);
        let f = frames[k - 1];
        if f.voiced && f.fo > 0 {
            assert(frames[k - 1].voiced);
        }
    }
}

// --- dots, points and boundaries --------------------------------------------

/// A frame has a dot, at its own place and its own pitch, exactly if it is voiced and has a
/// frequency.
pub proof fn lemma_dots(plot: Plot, frames: Seq<Frame>, k: int)
    requires
        0 <= k < frames.len(),
    ensures
        dots_text(plot, frames, 0) == Seq::<char>::empty(),
        frames[k].voiced && frames[k].fo > 0 ==> dots_text(plot, frames, k + 1) == dots_text(
            plot,
            frames,
            k,
        ) + "<circle cx=\""@ + plot.x(k) + "\" cy=\""@ + plot.y(frames[k].cents as int)
            + "\" r=\"2\" fill=\"#69b\"/>\n"@,
        !frames[k].voiced || frames[k].fo <= 0 ==> dots_text(plot, frames, k + 1) == dots_text(
            plot,
            frames,
            k,
        ),
{
    let before = dots_text(plot, frames, k);
    if frames[k].voiced && frames[k].fo > 0 {
        assert(dots_text(plot, frames, k + 1) =~= before + "<circle cx=\""@ + plot.x(k)
            + "\" cy=\""@ + plot.y(frames[k].cents as int) + "\" r=\"2\" fill=\"#69b\"/>\n"@);
    } else {
        assert(dots_text(plot, frames, k + 1) =~= before);
    }
}

/// The points of a line stand each at its own frame and pitch, with a space between two of them; a
/// frame without a pitch has none.
pub proof fn lemma_points(plot: Plot, start: int, pitches: Seq<Option<i128>>, k: int)
    requires
        0 <= k < pitches.len(),
    ensures
        points_text(plot, start, pitches, 0) == Seq::<char>::empty(),
        pitches[k] is None ==> points_text(plot, start, pitches, k + 1) == points_text(
            plot,
            start,
            pitches,
            k,
        ),
        pitches[k] is Some ==> ({
            let before = points_text(plot, start, pitches, k);
            let here = plot.x(start + k) + ","@ + plot.y(pitches[k]->0 as int);
            points_text(plot, start, pitches, k + 1) == (if before.len() == 0 {
                here
            } else {
                before + " "@ + here
            })
        }),
{
    let before = points_text(plot, start, pitches, k);
    if let Some(c) = pitches[k] {
        let here = plot.x(start + k) + ","@ + plot.y(c as int);
        if before.len() == 0 {
            assert(points_text(plot, start, pitches, k + 1) =~= here);
        } else {
            assert(points_text(plot, start, pitches, k + 1) =~= before + " "@ + here);
        }
    }
}

/// Every segment has a dashed line where it begins, and an unvoiced one is shaded over its width
/// before that.
pub proof fn lemma_segments_drawn(plot: Plot, segments: Seq<Segment>, k: int)
    requires
        0 <= k < segments.len(),
    ensures
        ({
            let seg = segments[k];
            let at = plot.x(seg.frames.start as int);
            let line = "<line x1=\""@ + at + "\" y1=\"20.0\" x2=\""@ + at
                + "\" y2=\"560.0\" stroke=\"#999\" stroke-dasharray=\"4,4\"/>\n"@;
            let shade = "<rect x=\""@ + at + "\" y=\"20.0\" width=\""@ + plot.width(
                seg.frames.end - seg.frames.start,
            ) + "\" height=\"540.0\" fill=\"#eee\"/>\n"@;
            let before = segments_text(plot, segments, k);
            segments_text(plot, segments, k + 1) == (if seg.kind is Unvoiced {
                before + shade + line
            } else {
                before + line
            })
        }),
{
    let seg = segments[k];
    let before = segments_text(plot, segments, k);
    if !(seg.kind is Unvoiced) {
        assert(before + Seq::<char>::empty() =~= before);
    }
}

// --- semitones and names ----------------------------------------------------

/// The grid has a line for every semitone of the range: from the first at or above its lowest pitch
/// to the last at or below its highest.
pub proof fn lemma_grid_spans_range(plot: Plot)
    ensures
        (first_semitone(plot) - 1) * 100_000_000_000 < plot.low <= first_semitone(plot)
            * 100_000_000_000,
        last_semitone(plot) * 100_000_000_000 <= plot.high < (last_semitone(plot) + 1)
            * 100_000_000_000,
{
    let d = 100_000_000_000int;
    let low = plot.low + d - 1;
    let high = plot.high as int;
    assert(first_semitone(plot) == low / d);
    assert(last_semitone(plot) == high / d);
}

/// A note is the nearest semitone, fifty cents away at most; A4 is number 69, and a pitch one
/// semitone higher or lower is one number higher or lower. Halfway between two, the one further
/// from number zero is taken.
pub proof fn lemma_nearest_semitone(cents: int, steps: int)
    ensures
        ({
            let away = 6_900_000_000_000 + cents - midi_note(cents) * 100_000_000_000;
            &&& -50_000_000_000 <= away <= 50_000_000_000
            &&& 6_900_000_000_000 + cents > 0 ==> away < 50_000_000_000
            &&& 6_900_000_000_000 + cents < 0 ==> away > -50_000_000_000
        }),
        midi_note(100_000_000_000 * steps) == 69 + steps,
{
    let d = 100_000_000_000int;
    let x = 6_900_000_000_000 + cents;
    if x >= 0 {
        lemma_rounded_quotient(x, d, 0);
    } else {
        lemma_rounded_quotient(-x, d, 0);
    }
    let y = 6_900_000_000_000 + 100_000_000_000 * steps;
    if y >= 0 {
        lemma_rounded_quotient(y, d, 69 + steps);
    } else {
        lemma_rounded_quotient(-y, d, -(69 + steps));
    }
}

/// Names go by octaves: notes twelve semitones apart have the same class, in octaves one apart, and
/// A4 is called so.
pub proof fn lemma_names_by_octave(semi: int)
    ensures
        note_text(100_000_000_000 * semi) == pitch_class((semi + 9) % 12) + signed_decimal(
            (semi + 9) / 12 + 4,
        ),
        pitch_class((semi + 12 + 9) % 12) == pitch_class((semi + 9) % 12),
        (semi + 12 + 9) / 12 == (semi + 9) / 12 + 1,
{
    lemma_nearest_semitone(0, semi);
}

/// The letters of the notes, from C on, and a sharp for each black key, called after the white key
/// below it.
pub proof fn lemma_pitch_classes()
    ensures
        pitch_class(0) == seq!['C'],
        pitch_class(2) == seq!['D'],
        pitch_class(4) == seq!['E'],
        pitch_class(5) == seq!['F'],
        pitch_class(7) == seq!['G'],
        pitch_class(9) == seq!['A'],
        pitch_class(11) == seq!['B'],
        pitch_class(1) == pitch_class(0) + seq!['#'],
        pitch_class(3) == pitch_class(2) + seq!['#'],
        pitch_class(6) == pitch_class(5) + seq!['#'],
        pitch_class(8) == pitch_class(7) + seq!['#'],
        pitch_class(10) == pitch_class(9) + seq!['#'],
{
    reveal_strlit("C");
    reveal_strlit("C#");
    reveal_strlit("D");
    reveal_strlit("D#");
    reveal_strlit("E");
    reveal_strlit("F");
    reveal_strlit("F#");
    reveal_strlit("G");
    reveal_strlit("G#");
    reveal_strlit("A");
    reveal_strlit("A#");
    reveal_strlit("B");
    assert(pitch_class(0) =~= seq!['C']);
    assert(pitch_class(2) =~= seq!['D']);
    assert(pitch_class(4) =~= seq!['E']);
    assert(pitch_class(5) =~= seq!['F']);
    assert(pitch_class(7) =~= seq!['G']);
    assert(pitch_class(9) =~= seq!['A']);
    assert(pitch_class(11) =~= seq!['B']);
    assert(pitch_class(1) =~= pitch_class(0) + seq!['#']);
    assert(pitch_class(3) =~= pitch_class(2) + seq!['#']);
    assert(pitch_class(6) =~= pitch_class(5) + seq!['#']);
    assert(pitch_class(8) =~= pitch_class(7) + seq!['#']);
    assert(pitch_class(10) =~= pitch_class(9) + seq!['#']);
}

// --- the time axis ----------------------------------------------------------

proof fn lemma_same_quotient(a: int, b: int, k: int)
    requires
        a >= 0,
        b > 0,
        k > 0,
    ensures
        even_quotient(k * a, k * b) == even_quotient(a, b),
{
    let q = even_quotient(a, b);
    let p = even_quotient(k * a, k * b);
    assert(k * a >= 0 && k * b > 0) by (nonlinear_arith)
        requires
            a >= 0,
            b > 0,
            k > 0,
    ;
    lemma_even_quotient(a, b);
    lemma_even_quotient(k * a, k * b);
    let e = q * b - a;
    let f = p * b - a;
    assert(p * (k * b) - k * a == k * f) by (nonlinear_arith)
        requires
            f == p * b - a,
    ;
    assert(-b <= 2 * f <= b) by (nonlinear_arith)
        requires
            -(k * b) <= 2 * (k * f) <= k * b,
            k > 0,
    ;
    assert(2 * f == b ==> 2 * (k * f) == k * b) by (nonlinear_arith);
    assert(2 * f == -b ==> 2 * (k * f) == -(k * b)) by (nonlinear_arith);
    if p != q {
        assert((p - q) * b == f - e) by (nonlinear_arith)
            requires
                e == q * b - a,
                f == p * b - a,
        ;
        assert(p - q == 1 || p - q == -1) by (nonlinear_arith)
            requires
                (p - q) * b == f - e,
                -b <= 2 * f <= b,
                -b <= 2 * e <= b,
                b > 0,
                p != q,
        ;
    }
}

/// A time label stands where the frame of that time does: at `t` tenths of a second, the one whose
/// number is `t` tenths of the frame rate.
pub proof fn lemma_labels_stand_at_frames(plot: Plot, t: int, i: int)
    requires
        plot.frames > 0,
        t >= 0,
        i >= 0,
        t * plot.frame_rate == 10_000_000_000 * i,
    ensures
        label_x(plot, t) == plot.x(i),
{
    let n = plot.frames as int;
    let k = 10_000_000_000int;
    let a = 60 * n + i * 1120;
    assert(60 * (n * k) + t * plot.frame_rate * 1120 == k * a);
    assert(n * k == k * n && k * a * 10 == k * (a * 10));
    lemma_same_quotient(a * 10, n, k);
}

/// Time labels are a tenth of a second apart up to one second, half a second up to five, one second
/// up to twenty, and five seconds beyond.
pub proof fn lemma_label_steps(plot: Plot)
    requires
        plot.frames > 0,
    ensures
        ({
            let length = plot.frames * 1_000_000_000;
            let second = plot.frame_rate as int;
            &&& length <= second ==> label_step(plot) == 1
            &&& second < length <= 5 * second ==> label_step(plot) == 5
            &&& 5 * second < length <= 20 * second ==> label_step(plot) == 10
            &&& 20 * second < length ==> label_step(plot) == 50
        }),
{
}

// --- glides -----------------------------------------------------------------

/// A glide is drawn from its depth away to the pitch at which the note's core begins: as far along
/// as its shape says.
pub proof fn lemma_glide_drawn<F: Fn(i64, i128) -> i64>(c: NoteContour, f: F, j: int)
    requires
        crate::render::contour_ok(c),
        crate::vibrato::is_swing(f),
        0 <= j < c.onset_glide@.len(),
        0 <= c.onset_glide@[j] <= c.onset_glide_span,
    ensures
        ({
            let start = glide_end(c, f) - c.onset_glide_depth_cents;
            let span = c.onset_glide_span as int;
            glide_point(c, f, j) matches Some(p) && -span <= 2 * (c.onset_glide@[j]
                * c.onset_glide_depth_cents - span * (p - start)) < span
        }),
{
    let span = c.onset_glide_span as int;
    let depth = c.onset_glide_depth_cents as int;
    let shape = c.onset_glide@[j] as int;
    let x = shape * depth;
    lemma_rounded_quotient(x, span, 0);
    let limit = crate::render::TRACK_LIMIT as int;
    assert((-limit) * span <= x <= limit * span) by (nonlinear_arith)
        requires
            x == shape * depth,
            0 <= shape <= span,
            -limit <= depth <= limit,
            limit >= 0,
    ;
    crate::num::lemma_rounded_between(x, span, -limit, limit);
    lemma_end_bound(c, f);
    let q = rounded_quotient(x, span);
    assert(q * span == span * q) by (nonlinear_arith);
}

proof fn lemma_end_bound<F: Fn(i64, i128) -> i64>(c: NoteContour, f: F)
    requires
        crate::render::contour_ok(c),
        crate::vibrato::is_swing(f),
    ensures
        -10_000_000_000_000_000 <= glide_end(c, f) <= 10_000_000_000_000_000,
{
    let amp = first_of(c.vibrato_amp@);
    if c.drift@.len() > 0 {
        assert(c.drift@[0] == c.drift@[0]);
    }
    if c.vibrato_amp@.len() > 0 {
        assert(c.vibrato_amp@[0] == c.vibrato_amp@[0]);
    }
    if c.residual@.len() > 0 {
        assert(c.residual@[0] == c.residual@[0]);
    }
    crate::vibrato::lemma_swung_bound(f, amp, first_of(c.vibrato_phase@) as i128);
}

// --- lines ------------------------------------------------------------------

/// The line of a drift is its centre and its drift, and the line of a whole pitch is that with its
/// vibrato: the pitch without its rest.
pub proof fn lemma_lines_of_note<F: Fn(i64, i128) -> i64>(c: NoteContour, f: F, j: int)
    requires
        crate::render::contour_ok(c),
        crate::vibrato::is_swing(f),
        0 <= j < c.drift@.len(),
        j < c.vibrato_amp@.len(),
    ensures
        drift_pitch(c, j) matches Some(p) && p == c.center_cents + c.drift@[j],
        vibrato_pitch(c, f, j) matches Some(p) && p == crate::vibrato::reconstructed(c, f, j)
            - c.residual@[j],
{
    assert(-crate::render::TRACK_LIMIT <= c.drift@[j] <= crate::render::TRACK_LIMIT);
    crate::vibrato::lemma_swung_bound(f, c.vibrato_amp@[j], c.vibrato_phase@[j] as i128);
}

/// What is drawn of a note: its centre from the first frame of its core to its last frame, its drift
/// and its whole pitch over the core, and its glide, where it has one, over the frames before that.
pub proof fn lemma_note_drawn<F: Fn(i64, i128) -> i64>(
    plot: Plot,
    seg: Segment,
    c: NoteContour,
    f: F,
    drift: Seq<Option<i128>>,
    whole: Seq<Option<i128>>,
    lead: Seq<Option<i128>>,
)
    requires
        drift.len() == c.drift@.len(),
        whole.len() == c.drift@.len(),
        lead.len() == c.onset_glide@.len(),
        forall|j: int| 0 <= j < drift.len() ==> #[trigger] drift[j] == drift_pitch(c, j),
        forall|j: int| 0 <= j < whole.len() ==> #[trigger] whole[j] == vibrato_pitch(c, f, j),
        forall|j: int| 0 <= j < lead.len() ==> #[trigger] lead[j] == glide_point(c, f, j),
        seg.frames.start + c.onset_glide@.len() < seg.frames.end,
    ensures
        ({
            let core = seg.frames.start + c.onset_glide@.len();
            let height = plot.y(c.center_cents as int);
            let center = "<line x1=\""@ + plot.x(core) + "\" y1=\""@ + height + "\" x2=\""@ + plot.x(
                seg.frames.end - 1,
            ) + "\" y2=\""@ + height + "\" stroke=\"#2a2\" stroke-width=\"1.5\"/>\n"@;
            let orange = "<polyline points=\""@ + points_text(plot, core, drift, drift.len() as int)
                + "\" fill=\"none\" stroke=\"#c80\" stroke-width=\"1.2\"/>\n"@;
            let red = "<polyline points=\""@ + points_text(plot, core, whole, whole.len() as int)
                + "\" fill=\"none\" stroke=\"#d22\" stroke-width=\"1\"/>\n"@;
            let pink = "<polyline points=\""@ + points_text(
                plot,
                seg.frames.start as int,
                lead,
                lead.len() as int,
            ) + "\" fill=\"none\" stroke=\"#d2a\" stroke-width=\"1.5\"/>\n"@;
            note_lines(plot, seg, c, f) == (if lead.len() == 0 {
                center + orange + red
            } else {
                center + orange + red + pink
            })
        }),
{
    let len = c.drift@.len();
    assert(drift =~= Seq::new(len, |j: int| drift_pitch(c, j)));
    assert(whole =~= Seq::new(len, |j: int| vibrato_pitch(c, f, j)));
    assert(lead =~= Seq::new(c.onset_glide@.len(), |j: int| glide_point(c, f, j)));
    if lead.len() == 0 {
        assert(note_lines(plot, seg, c, f) =~= note_lines(plot, seg, c, f) + Seq::empty());
    }
}

/// The grid has one line for each semitone, across the whole width, at its height and with its name.
pub proof fn lemma_grid_lines(plot: Plot, semi: int)
    requires
        semi >= first_semitone(plot),
    ensures
        ({
            let c = semi * 100_000_000_000;
            grid_text(plot, semi) == grid_text(plot, semi - 1) + ("<line x1=\"60.0\" y1=\""@ + plot.y(
                c,
            ) + "\" x2=\"1180.0\" y2=\""@ + plot.y(c)
                + "\" stroke=\"#ddd\"/>\n<text x=\"56\" y=\""@ + plot.y(c)
                + "\" font-size=\"9\" fill=\"#666\" text-anchor=\"end\" dominant-baseline=\"middle\">"@
                + note_text(c) + "</text>\n"@)
        }),
        grid_text(plot, first_semitone(plot) - 1) == Seq::<char>::empty(),
{
}

/// An overlaid track is a line from the first frame on, where it has a point; otherwise nothing is
/// drawn of it.
pub proof fn lemma_overlay_drawn(plot: Plot, pitches: Seq<Option<i128>>)
    ensures
        overlay_text(plot, None) == Seq::<char>::empty(),
        ({
            let points = points_text(plot, 0, pitches, pitches.len() as int);
            &&& points.len() == 0 ==> overlay_text(plot, Some(pitches)) == Seq::<char>::empty()
            &&& points.len() > 0 ==> overlay_text(plot, Some(pitches)) == "<polyline points=\""@
                + points + "\" fill=\"none\" stroke=\"#82d\" stroke-width=\"1\"/>\n"@
        }),
{
}

/// Time labels follow one another from zero, one step apart, each with its time, and there are as
/// many as lie within the contour.
pub proof fn lemma_labels_in_steps(plot: Plot, k: int)
    requires
        0 <= k,
    ensures
        ({
            let t = k * label_step(plot);
            labels_text(plot, k + 1) == labels_text(plot, k) + ("<text x=\""@ + label_x(plot, t)
                + "\" y=\"595\" font-size=\"10\" fill=\"#666\" text-anchor=\"middle\">"@ + tenths(t)
                + "s</text>\n"@)
        }),
        labels_text(plot, 0) == Seq::<char>::empty(),
        k < label_count(plot) <==> k * label_step(plot) <= last_tenth(plot),
{
    let s = label_step(plot);
    let last = last_tenth(plot);
    assert(k <= last / s <==> k * s <= last) by (nonlinear_arith)
        requires
            s > 0,
    ;
}

/// Every note among the segments has its lines, and nothing else has; the last segment has a line
/// where it ends.
pub proof fn lemma_notes_drawn<F: Fn(i64, i128) -> i64>(
    plot: Plot,
    segments: Seq<Segment>,
    f: F,
    k: int,
)
    requires
        0 <= k < segments.len(),
    ensures
        segments[k].kind matches SegmentKind::Note(c) ==> notes_text(plot, segments, f, k + 1)
            == notes_text(plot, segments, f, k) + note_lines(plot, segments[k], c, f),
        segments[k].kind is Unvoiced ==> notes_text(plot, segments, f, k + 1) == notes_text(
            plot,
            segments,
            f,
            k,
        ),
        ({
            let at = plot.x(segments[segments.len() - 1].frames.end as int);
            closing_text(plot, segments) == "<line x1=\""@ + at + "\" y1=\"20.0\" x2=\""@ + at
                + "\" y2=\"560.0\" stroke=\"#999\" stroke-dasharray=\"4,4\"/>\n"@
        }),
{
    if segments[k].kind is Unvoiced {
        assert(notes_text(plot, segments, f, k + 1) =~= notes_text(plot, segments, f, k));
    }
}

/// A drawing is its frame and white ground, then the segments, the grid, the dots, the notes, the
/// overlaid track and the time axis, each over the ones before it.
pub proof fn lemma_drawn_in_order<F: Fn(i64, i128) -> i64>(
    frames: Seq<Frame>,
    segments: Seq<Segment>,
    frame_rate: u64,
    overlay: Option<Seq<Option<i128>>>,
    f: F,
)
    ensures
        ({
            let plot = plot_of(frames, frame_rate);
            let ground =
                "<svg xmlns=\"http://www.w3.org/2000/svg\" viewBox=\"0 0 1200 600\" width=\"1200\" height=\"600\">\n<rect width=\"1200\" height=\"600\" fill=\"white\"/>\n"@;
            let behind = segments_text(plot, segments, segments.len() as int) + closing_text(
                plot,
                segments,
            ) + grid_text(plot, last_semitone(plot));
            let before = dots_text(plot, frames, frames.len() as int) + notes_text(
                plot,
                segments,
                f,
                segments.len() as int,
            ) + overlay_text(plot, overlay) + labels_text(plot, label_count(plot));
            svg_text(frames, segments, frame_rate, overlay, f) == ground + behind + before
                + "</svg>\n"@
        }),
{
    let plot = plot_of(frames, frame_rate);
    let behind = segments_text(plot, segments, segments.len() as int) + closing_text(
        plot,
        segments,
    ) + grid_text(plot, last_semitone(plot));
    let before = dots_text(plot, frames, frames.len() as int) + notes_text(
        plot,
        segments,
        f,
        segments.len() as int,
    ) + overlay_text(plot, overlay) + labels_text(plot, label_count(plot));
    let ground =
        "<svg xmlns=\"http://www.w3.org/2000/svg\" viewBox=\"0 0 1200 600\" width=\"1200\" height=\"600\">\n<rect width=\"1200\" height=\"600\" fill=\"white\"/>\n"@;
    assert(svg_text(frames, segments, frame_rate, overlay, f) =~= ground + behind + before
        + "</svg>\n"@);
}

} // verus!
