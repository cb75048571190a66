//! Drawing of a segmented pitch contour as SVG text. Coordinates are exact fractions,
//! written to a tenth of a pixel.

use crate::config::HERTZ;
use crate::contour::{bounded, frames_ok, Frame, NoteContour, MAX_FRAMES, PITCH_LIMIT};
use crate::num::{floor_div, lemma_rounded_between, max_of, round_div, rounded_quotient};
use crate::render::{contour_fits, contour_ok, TRACK_LIMIT};
use crate::segment::{Segment, SegmentKind};
use crate::text::{
    append_fixed_point, append_signed, append_tenths, fixed_point, signed_decimal, tenths,
};
use crate::vibrato::{is_swing, lemma_swung_bound, swung};
use vstd::prelude::*;
use vstd::string::StringExecFns;

verus! {

/// One cent, in nanocents.
pub const CENT: i64 = 1_000_000_000;

/// Largest magnitude of a pitch that is drawn.
pub const DRAWN_LIMIT: i128 = 4_000_000_000_000_000_000_000_000_000_000;

// --- note names -------------------------------------------------------------

/// The name of a semitone within its octave, C first.
pub open spec fn pitch_class(k: int) -> Seq<char> {
    if k == 0 {
        "C"@
    } else if k == 1 {
        "C#"@
    } else if k == 2 {
        "D"@
    } else if k == 3 {
        "D#"@
    } else if k == 4 {
        "E"@
    } else if k == 5 {
        "F"@
    } else if k == 6 {
        "F#"@
    } else if k == 7 {
        "G"@
    } else if k == 8 {
        "G#"@
    } else if k == 9 {
        "A"@
    } else if k == 10 {
        "A#"@
    } else {
        "B"@
    }
}

/// The nearest semitone to a pitch, counted so that A4 is 69. Halfway between two
/// semitones it is the one farther from zero.
pub open spec fn midi_note(cents: int) -> int {
    let x = 6900 * CENT + cents;
    if x >= 0 {
        rounded_quotient(x, 100 * CENT)
    } else {
        -rounded_quotient(-x, 100 * CENT)
    }
}

/// The name of the note nearest to a pitch: its class and its octave.
pub open spec fn note_text(cents: int) -> Seq<char> {
    let midi = midi_note(cents);
    pitch_class(midi % 12) + signed_decimal(midi / 12 - 1)
}

fn class_name(k: u8) -> (s: &'static str)
    requires
        k < 12,
    ensures
        s@ == pitch_class(k as int),
{
    match k {
        0 => "C",
        1 => "C#",
        2 => "D",
        3 => "D#",
        4 => "E",
        5 => "F",
        6 => "F#",
        7 => "G",
        8 => "G#",
        9 => "A",
        10 => "A#",
        _ => "B",
    }
}

/// Append the name of the note nearest to a pitch.
pub fn note_name(out: &mut String, cents: i64)
    ensures
        final(out)@ == old(out)@ + note_text(cents as int),
{
    let x: i128 = 6900 * CENT as i128 + cents as i128;
    let size: i128 = if x >= 0 { x } else { -x };
    let nearest: i128 = round_div(size, 100 * CENT as i128);
    proof {
        lemma_rounded_between(size as int, 100 * CENT as int, 0, 1_000_000_000_000);
    }
    let midi: i128 = if x >= 0 { nearest } else { -nearest };
    let octave: i128 = floor_div(midi, 12);
    let class: i128 = midi - 12 * octave;
    out.append(class_name(class as u8));
    append_signed(out, octave - 1);
    assert(out@ =~= old(out)@ + note_text(cents as int));
}

// --- the plot ---------------------------------------------------------------

/// What the coordinates of a plot depend on: the number of frames, the frame rate,
/// and the lowest and highest pitch.
#[derive(Clone, Copy, Debug, PartialEq, Eq, Structural)]
pub struct Plot {
    pub frames: usize,
    pub frame_rate: u64,
    pub low: i64,
    pub high: i64,
}

impl Plot {
    /// The pitch range is at least four hundred cents and fits the arithmetic.
    pub open spec fn ok(&self) -> bool {
        &&& self.frames <= MAX_FRAMES
        &&& self.frame_rate > 0
        &&& -2 * PITCH_LIMIT <= self.low
        &&& self.high <= 2 * PITCH_LIMIT
        &&& self.low + 400 * CENT <= self.high
    }

    /// The denominator of horizontal positions.
    pub open spec fn x_unit(&self) -> int {
        if self.frames == 0 { self.frame_rate as int } else { self.frames as int }
    }

    /// How far apart `k` frames lie horizontally, over the denominator of positions.
    /// An empty contour is one second wide.
    pub open spec fn x_distance(&self, k: int) -> int {
        if self.frames == 0 { k * 1120 * HERTZ } else { k * 1120 }
    }

    /// The horizontal position of frame `i`.
    pub open spec fn x(&self, i: int) -> Seq<char> {
        fixed_point(60 * self.x_unit() + self.x_distance(i), self.x_unit())
    }

    /// The width of `k` frames.
    pub open spec fn width(&self, k: int) -> Seq<char> {
        fixed_point(self.x_distance(k), self.x_unit())
    }

    /// The vertical position of a pitch.
    pub open spec fn y(&self, cents: int) -> Seq<char> {
        fixed_point(
            20 * (self.high - self.low) + (self.high - cents) * 540,
            self.high - self.low,
        )
    }

    fn find_x_unit(&self) -> (unit: i128)
        requires
            self.ok(),
        ensures
            unit == self.x_unit(),
            0 < unit <= u64::MAX,
    {
        if self.frames == 0 {
            self.frame_rate as i128
        } else {
            self.frames as i128
        }
    }

    fn find_x_distance(&self, k: i128) -> (d: i128)
        requires
            -0xffff_ffff_ffff_ffff <= k <= 0xffff_ffff_ffff_ffff,
        ensures
            d == self.x_distance(k as int),
            -0x1_0000_0000_0000_0000_0000_0000_0000 < d < 0x1_0000_0000_0000_0000_0000_0000_0000,
    {
        if self.frames == 0 {
            k * 1_120_000_000_000
        } else {
            k * 1120
        }
    }

    fn put_x(&self, out: &mut String, i: usize)
        requires
            self.ok(),
        ensures
            final(out)@ == old(out)@ + self.x(i as int),
    {
        let unit: i128 = self.find_x_unit();
        append_fixed_point(out, 60 * unit + self.find_x_distance(i as i128), unit);
    }

    fn put_width(&self, out: &mut String, k: i128)
        requires
            self.ok(),
            -0xffff_ffff_ffff_ffff <= k <= 0xffff_ffff_ffff_ffff,
        ensures
            final(out)@ == old(out)@ + self.width(k as int),
    {
        append_fixed_point(out, self.find_x_distance(k), self.find_x_unit());
    }

    fn put_y(&self, out: &mut String, cents: i128)
        requires
            self.ok(),
            -DRAWN_LIMIT <= cents <= DRAWN_LIMIT,
        ensures
            final(out)@ == old(out)@ + self.y(cents as int),
    {
        let range: i128 = self.high as i128 - self.low as i128;
        append_fixed_point(out, 20 * range + (self.high as i128 - cents) * 540, range);
    }
}

/// The lowest pitch of the first `k` frames that have one.
pub open spec fn lowest(frames: Seq<Frame>, k: int) -> Option<int>
    decreases k,
{
    if k <= 0 {
        None
    } else {
        let f = frames[k - 1];
        let before = lowest(frames, k - 1);
        if f.voiced && f.fo > 0 {
            match before {
                Some(c) => Some(if f.cents < c { f.cents as int } else { c }),
                None => Some(f.cents as int),
            }
        } else {
            before
        }
    }
}

/// The highest pitch of the first `k` frames that have one.
pub open spec fn highest(frames: Seq<Frame>, k: int) -> Option<int>
    decreases k,
{
    if k <= 0 {
        None
    } else {
        let f = frames[k - 1];
        let before = highest(frames, k - 1);
        if f.voiced && f.fo > 0 {
            match before {
                Some(c) => Some(if f.cents > c { f.cents as int } else { c }),
                None => Some(f.cents as int),
            }
        } else {
            before
        }
    }
}

/// The plot of a contour: two hundred cents beyond its pitches on either side, or
/// around A4 where there are none.
pub open spec fn plot_of(frames: Seq<Frame>, frame_rate: u64) -> Plot {
    let n = frames.len() as int;
    let low = match lowest(frames, n) {
        Some(c) => c,
        None => -1200 * CENT,
    };
    let high = match highest(frames, n) {
        Some(c) => c,
        None => 1200 * CENT,
    };
    Plot {
        frames: n as usize,
        frame_rate,
        low: (low - 200 * CENT) as i64,
        high: (high + 200 * CENT) as i64,
    }
}

fn find_plot(frames: &[Frame], frame_rate: u64) -> (plot: Plot)
    requires
        frames_ok(frames@),
        frame_rate > 0,
    ensures
        plot == plot_of(frames@, frame_rate),
        plot.ok(),
{
    let mut low: Option<i64> = None;
    let mut high: Option<i64> = None;
    let mut k: usize = 0;
    while k < frames.len()
        invariant
            frames_ok(frames@),
            k <= frames@.len(),
            low is Some <==> lowest(frames@, k as int) is Some,
            high is Some <==> highest(frames@, k as int) is Some,
            low is Some <==> high is Some,
            low matches Some(c) ==> lowest(frames@, k as int) == Some(c as int) && -PITCH_LIMIT
                <= c,
            high matches Some(c) ==> highest(frames@, k as int) == Some(c as int) && c
                <= PITCH_LIMIT,
            low is Some && high is Some ==> low->0 <= high->0,
        decreases frames@.len() - k,
    {
        let f = frames[k];
        if f.voiced && f.fo > 0 {
            low =
            match low {
                Some(c) => Some(if f.cents < c { f.cents } else { c }),
                None => Some(f.cents),
            };
            high =
            match high {
                Some(c) => Some(if f.cents > c { f.cents } else { c }),
                None => Some(f.cents),
            };
        }
        k = k + 1;
    }
    let bottom: i64 = match low {
        Some(c) => c,
        None => -1200 * CENT,
    };
    let top: i64 = match high {
        Some(c) => c,
        None => 1200 * CENT,
    };
    Plot {
        frames: frames.len(),
        frame_rate,
        low: bottom - 200 * CENT,
        high: top + 200 * CENT,
    }
}

// --- boundaries -------------------------------------------------------------

/// A dashed line at a segment boundary.
pub open spec fn boundary_text(plot: Plot, i: int) -> Seq<char> {
    "<line x1=\""@ + plot.x(i) + "\" y1=\"20.0\" x2=\""@ + plot.x(i)
        + "\" y2=\"560.0\" stroke=\"#999\" stroke-dasharray=\"4,4\"/>\n"@
}

/// The shading of an unvoiced segment.
pub open spec fn shading_text(plot: Plot, seg: Segment) -> Seq<char> {
    "<rect x=\""@ + plot.x(seg.frames.start as int) + "\" y=\"20.0\" width=\""@ + plot.width(seg.frames.end - seg.frames.start) + "\" height=\"540.0\" fill=\"#eee\"/>\n"@
}

/// Shading and start line of the first `k` segments.
pub open spec fn segments_text(plot: Plot, segments: Seq<Segment>, k: int) -> Seq<char>
    decreases k,
{
    if k <= 0 {
        Seq::empty()
    } else {
        let seg = segments[k - 1];
        let shade = if seg.kind is Unvoiced { shading_text(plot, seg) } else { Seq::empty() };
        segments_text(plot, segments, k - 1) + shade + boundary_text(plot, seg.frames.start as int)
    }
}

/// The end line of the last segment.
pub open spec fn closing_text(plot: Plot, segments: Seq<Segment>) -> Seq<char> {
    if segments.len() == 0 {
        Seq::empty()
    } else {
        boundary_text(plot, segments[segments.len() - 1].frames.end as int)
    }
}

fn put_boundary(out: &mut String, plot: &Plot, i: usize)
    requires
        plot.ok(),
    ensures
        final(out)@ == old(out)@ + boundary_text(*plot, i as int),
{
    out.append("<line x1=\"");
    plot.put_x(out, i);
    out.append("\" y1=\"20.0\" x2=\"");
    plot.put_x(out, i);
    out.append("\" y2=\"560.0\" stroke=\"#999\" stroke-dasharray=\"4,4\"/>\n");
    assert(out@ =~= old(out)@ + boundary_text(*plot, i as int));
}

fn put_shading(out: &mut String, plot: &Plot, seg: &Segment)
    requires
        plot.ok(),
    ensures
        final(out)@ == old(out)@ + shading_text(*plot, *seg),
{
    out.append("<rect x=\"");
    plot.put_x(out, seg.frames.start);
    out.append("\" y=\"20.0\" width=\"");
    plot.put_width(out, seg.frames.end as i128 - seg.frames.start as i128);
    out.append("\" height=\"540.0\" fill=\"#eee\"/>\n");
    assert(out@ =~= old(out)@ + shading_text(*plot, *seg));
}

/// Whether a segment can be drawn: its numbers fit, its vibrato is as long as its
/// drift, and its frames can be counted.
pub open spec fn drawable(seg: Segment) -> bool {
    match seg.kind {
        SegmentKind::Unvoiced => true,
        SegmentKind::Note(c) => {
            &&& contour_ok(c)
            &&& c.vibrato_amp@.len() >= c.drift@.len()
            &&& c.vibrato_phase@.len() >= c.drift@.len()
            &&& seg.frames.start + c.onset_glide@.len() + c.drift@.len() <= usize::MAX
        },
    }
}

/// Whether a segment can be drawn.
pub fn can_draw(seg: &Segment) -> (yes: bool)
    ensures
        yes == drawable(*seg),
{
    match &seg.kind {
        SegmentKind::Unvoiced => true,
        SegmentKind::Note(c) => {
            contour_fits(c) && c.vibrato_amp.len() >= c.drift.len() && c.vibrato_phase.len()
                >= c.drift.len() && c.onset_glide.len() <= usize::MAX - seg.frames.start
                && c.drift.len() <= usize::MAX - seg.frames.start - c.onset_glide.len()
        },
    }
}

fn put_segments(out: &mut String, plot: &Plot, segments: &[Segment])
    requires
        plot.ok(),
    ensures
        final(out)@ == old(out)@ + segments_text(*plot, segments@, segments@.len() as int)
            + closing_text(*plot, segments@),
{
    let ghost before = out@;
    let mut k: usize = 0;
    assert(before + segments_text(*plot, segments@, 0) =~= before);
    while k < segments.len()
        invariant
            plot.ok(),
            k <= segments@.len(),
            out@ == before + segments_text(*plot, segments@, k as int),
        decreases segments@.len() - k,
    {
        let seg = &segments[k];
        match &seg.kind {
            SegmentKind::Unvoiced => {
                put_shading(out, plot, seg);
            },
            SegmentKind::Note(_) => {},
        }
        put_boundary(out, plot, seg.frames.start);
        k = k + 1;
        assert(out@ =~= before + segments_text(*plot, segments@, k as int));
    }
    if k > 0 {
        put_boundary(out, plot, segments[k - 1].frames.end);
    }
    assert(out@ =~= before + segments_text(*plot, segments@, k as int) + closing_text(
        *plot,
        segments@,
    ));
}

// --- semitone grid ----------------------------------------------------------

/// The grid line of one semitone and its name.
pub open spec fn semitone_text(plot: Plot, semi: int) -> Seq<char> {
    let c = semi * 100 * CENT;
    "<line x1=\"60.0\" y1=\""@ + plot.y(c) + "\" x2=\"1180.0\" y2=\""@ + plot.y(c)
        + "\" stroke=\"#ddd\"/>\n<text x=\"56\" y=\""@ + plot.y(c)
        + "\" font-size=\"9\" fill=\"#666\" text-anchor=\"end\" dominant-baseline=\"middle\">"@
        + note_text(c) + "</text>\n"@
}

/// The lowest semitone of a plot.
pub open spec fn first_semitone(plot: Plot) -> int {
    (plot.low + 100 * CENT - 1) / (100 * CENT as int)
}

/// The highest semitone of a plot.
pub open spec fn last_semitone(plot: Plot) -> int {
    plot.high as int / (100 * CENT as int)
}

/// The grid from the lowest semitone up to `semi`.
pub open spec fn grid_text(plot: Plot, semi: int) -> Seq<char>
    decreases semi - first_semitone(plot) + 1,
{
    if semi < first_semitone(plot) {
        Seq::empty()
    } else {
        grid_text(plot, semi - 1) + semitone_text(plot, semi)
    }
}

fn put_semitone(out: &mut String, plot: &Plot, semi: i64)
    requires
        plot.ok(),
        -4000 <= semi <= 4000,
    ensures
        final(out)@ == old(out)@ + semitone_text(*plot, semi as int),
{
    let c: i64 = semi * 100 * CENT;
    out.append("<line x1=\"60.0\" y1=\"");
    plot.put_y(out, c as i128);
    out.append("\" x2=\"1180.0\" y2=\"");
    plot.put_y(out, c as i128);
    out.append("\" stroke=\"#ddd\"/>\n<text x=\"56\" y=\"");
    plot.put_y(out, c as i128);
    out.append(
        "\" font-size=\"9\" fill=\"#666\" text-anchor=\"end\" dominant-baseline=\"middle\">",
    );
    note_name(out, c);
    out.append("</text>\n");
    assert(out@ =~= old(out)@ + semitone_text(*plot, semi as int));
}

fn put_grid(out: &mut String, plot: &Plot)
    requires
        plot.ok(),
    ensures
        final(out)@ == old(out)@ + grid_text(*plot, last_semitone(*plot)),
{
    let ghost before = out@;
    let step: i128 = 100 * CENT as i128;
    let first: i64 = floor_div(plot.low as i128 + step - 1, step) as i64;
    let last: i64 = floor_div(plot.high as i128, step) as i64;
    let mut semi: i64 = first;
    assert(before + grid_text(*plot, first - 1) =~= before);
    while semi <= last
        invariant
            plot.ok(),
            first == first_semitone(*plot),
            last == last_semitone(*plot),
            -3000 <= first <= semi <= last + 1 <= 3000,
            out@ == before + grid_text(*plot, semi - 1),
        decreases last + 1 - semi,
    {
        put_semitone(out, plot, semi);
        assert(out@ =~= before + grid_text(*plot, semi as int));
        semi = semi + 1;
    }
}

// --- dots and lines ---------------------------------------------------------

/// The dot of one frame.
pub open spec fn dot_text(plot: Plot, i: int, cents: int) -> Seq<char> {
    "<circle cx=\""@ + plot.x(i) + "\" cy=\""@ + plot.y(cents)
        + "\" r=\"2\" fill=\"#69b\"/>\n"@
}

/// The dots of the first `k` frames that have a pitch.
pub open spec fn dots_text(plot: Plot, frames: Seq<Frame>, k: int) -> Seq<char>
    decreases k,
{
    if k <= 0 {
        Seq::empty()
    } else {
        let f = frames[k - 1];
        dots_text(plot, frames, k - 1) + (if f.voiced && f.fo > 0 {
            dot_text(plot, k - 1, f.cents as int)
        } else {
            Seq::empty()
        })
    }
}

fn put_dots(out: &mut String, plot: &Plot, frames: &[Frame])
    requires
        plot.ok(),
        frames_ok(frames@),
    ensures
        final(out)@ == old(out)@ + dots_text(*plot, frames@, frames@.len() as int),
{
    let ghost before = out@;
    let mut k: usize = 0;
    assert(before + dots_text(*plot, frames@, 0) =~= before);
    while k < frames.len()
        invariant
            plot.ok(),
            frames_ok(frames@),
            k <= frames@.len(),
            out@ == before + dots_text(*plot, frames@, k as int),
        decreases frames@.len() - k,
    {
        let f = frames[k];
        if f.voiced && f.fo > 0 {
            out.append("<circle cx=\"");
            plot.put_x(out, k);
            out.append("\" cy=\"");
            plot.put_y(out, f.cents as i128);
            out.append("\" r=\"2\" fill=\"#69b\"/>\n");
        }
        k = k + 1;
        assert(out@ =~= before + dots_text(*plot, frames@, k as int));
    }
}

/// The points of a line through the first `k` pitches, the first at frame `start`.
/// A frame without a pitch has no point.
pub open spec fn points_text(plot: Plot, start: int, pitches: Seq<Option<i128>>, k: int) -> Seq<char>
    decreases k,
{
    if k <= 0 {
        Seq::empty()
    } else {
        let before = points_text(plot, start, pitches, k - 1);
        match pitches[k - 1] {
            None => before,
            Some(c) => before + (if before.len() == 0 { Seq::empty() } else { " "@ }) + plot.x(start + k - 1) + ","@ + plot.y(c as int),
        }
    }
}

/// Whether every pitch can be drawn.
pub open spec fn pitches_ok(pitches: Seq<Option<i128>>) -> bool {
    forall|i: int|
        0 <= i < pitches.len() ==> ((#[trigger] pitches[i]) matches Some(c) ==> -DRAWN_LIMIT <= c
            <= DRAWN_LIMIT)
}

/// Whether every pitch can be drawn.
pub fn pitches_fit(pitches: &[Option<i128>]) -> (yes: bool)
    ensures
        yes == pitches_ok(pitches@),
{
    let mut k: usize = 0;
    while k < pitches.len()
        invariant
            k <= pitches@.len(),
            forall|i: int|
                0 <= i < k ==> ((#[trigger] pitches@[i]) matches Some(c) ==> -DRAWN_LIMIT <= c
                    <= DRAWN_LIMIT),
        decreases pitches@.len() - k,
    {
        match pitches[k] {
            Some(c) => {
                if c < -DRAWN_LIMIT || c > DRAWN_LIMIT {
                    assert(pitches@[k as int] == Some(c));
                    return false;
                }
            },
            None => {},
        }
        k = k + 1;
    }
    true
}

fn collect_points(plot: &Plot, start: usize, pitches: &[Option<i128>]) -> (points: String)
    requires
        plot.ok(),
        pitches_ok(pitches@),
        start + pitches@.len() <= usize::MAX,
    ensures
        points@ == points_text(*plot, start as int, pitches@, pitches@.len() as int),
{
    let mut points: String = String::new();
    let mut any: bool = false;
    let mut k: usize = 0;
    while k < pitches.len()
        invariant
            plot.ok(),
            pitches_ok(pitches@),
            start + pitches@.len() <= usize::MAX,
            k <= pitches@.len(),
            points@ == points_text(*plot, start as int, pitches@, k as int),
            any == (points@.len() > 0),
        decreases pitches@.len() - k,
    {
        let ghost before = points@;
        match pitches[k] {
            Some(c) => {
                if any {
                    points.append(" ");
                }
                plot.put_x(&mut points, start + k);
                points.append(",");
                plot.put_y(&mut points, c);
                any = true;
                proof {
                    reveal_strlit(",");
                    assert(","@.len() == 1);
                }
                assert(points@ =~= points_text(*plot, start as int, pitches@, k + 1));
            },
            None => {},
        }
        k = k + 1;
    }
    points
}

/// A line through points, in a colour and a width.
pub open spec fn polyline_text(points: Seq<char>, tail: Seq<char>) -> Seq<char> {
    "<polyline points=\""@ + points + tail
}

fn put_polyline(out: &mut String, points: &String, tail: &str)
    ensures
        final(out)@ == old(out)@ + polyline_text(points@, tail@),
{
    out.append("<polyline points=\"");
    out.append(points.as_str());
    out.append(tail);
    assert(out@ =~= old(out)@ + polyline_text(points@, tail@));
}

// --- notes ------------------------------------------------------------------

/// The pitch of core frame `j` without vibrato.
pub open spec fn drift_pitch(c: NoteContour, j: int) -> Option<i128> {
    Some((c.center_cents + c.drift@[j]) as i128)
}

/// The pitch of core frame `j` with its vibrato.
pub open spec fn vibrato_pitch<F: Fn(i64, i128) -> i64>(c: NoteContour, f: F, j: int) -> Option<
    i128,
> {
    Some(
        (c.center_cents + c.drift@[j] + swung(
            f,
            c.vibrato_amp@[j],
            c.vibrato_phase@[j] as i128,
        )) as i128,
    )
}

/// The first value of a track, zero for an empty one.
pub open spec fn first_of(track: Seq<i64>) -> i64 {
    if track.len() == 0 { 0 } else { track[0] }
}

/// The pitch at which the glide of a note ends.
pub open spec fn glide_end<F: Fn(i64, i128) -> i64>(c: NoteContour, f: F) -> int {
    c.center_cents + first_of(c.drift@) + swung(
        f,
        first_of(c.vibrato_amp@),
        first_of(c.vibrato_phase@) as i128,
    ) + first_of(c.residual@)
}

/// The pitch of glide frame `j`.
pub open spec fn glide_point<F: Fn(i64, i128) -> i64>(c: NoteContour, f: F, j: int) -> Option<
    i128,
> {
    Some(
        (glide_end(c, f) - c.onset_glide_depth_cents + rounded_quotient(
            c.onset_glide@[j] * c.onset_glide_depth_cents,
            c.onset_glide_span as int,
        )) as i128,
    )
}

/// The centre line of a note.
pub open spec fn center_text(plot: Plot, from: int, to: int, cents: int) -> Seq<char> {
    "<line x1=\""@ + plot.x(from) + "\" y1=\""@ + plot.y(cents) + "\" x2=\""@
        + plot.x(to) + "\" y2=\""@ + plot.y(cents)
        + "\" stroke=\"#2a2\" stroke-width=\"1.5\"/>\n"@
}

/// The lines of a note: its centre, its drift, its whole pitch, and its glide where
/// it has one.
pub open spec fn note_lines<F: Fn(i64, i128) -> i64>(
    plot: Plot,
    seg: Segment,
    c: NoteContour,
    f: F,
) -> Seq<char> {
    let glide = c.onset_glide@.len() as int;
    let core = seg.frames.start + glide;
    let len = c.drift@.len();
    let drift = Seq::new(len, |j: int| drift_pitch(c, j));
    let whole = Seq::new(len, |j: int| vibrato_pitch(c, f, j));
    let lead = Seq::new(c.onset_glide@.len(), |j: int| glide_point(c, f, j));
    center_text(plot, core, max_of(seg.frames.end - 1, core), c.center_cents as int)
        + polyline_text(
        points_text(plot, core, drift, len as int),
        "\" fill=\"none\" stroke=\"#c80\" stroke-width=\"1.2\"/>\n"@,
    ) + polyline_text(
        points_text(plot, core, whole, len as int),
        "\" fill=\"none\" stroke=\"#d22\" stroke-width=\"1\"/>\n"@,
    ) + (if glide == 0 {
        Seq::empty()
    } else {
        polyline_text(
            points_text(plot, seg.frames.start as int, lead, glide),
            "\" fill=\"none\" stroke=\"#d2a\" stroke-width=\"1.5\"/>\n"@,
        )
    })
}

/// The lines of the notes among the first `k` segments.
pub open spec fn notes_text<F: Fn(i64, i128) -> i64>(
    plot: Plot,
    segments: Seq<Segment>,
    f: F,
    k: int,
) -> Seq<char>
    decreases k,
{
    if k <= 0 {
        Seq::empty()
    } else {
        notes_text(plot, segments, f, k - 1) + (match segments[k - 1].kind {
            SegmentKind::Unvoiced => Seq::empty(),
            SegmentKind::Note(c) => note_lines(plot, segments[k - 1], c, f),
        })
    }
}

fn put_center(out: &mut String, plot: &Plot, from: usize, to: usize, cents: i64)
    requires
        plot.ok(),
    ensures
        final(out)@ == old(out)@ + center_text(*plot, from as int, to as int, cents as int),
{
    out.append("<line x1=\"");
    plot.put_x(out, from);
    out.append("\" y1=\"");
    plot.put_y(out, cents as i128);
    out.append("\" x2=\"");
    plot.put_x(out, to);
    out.append("\" y2=\"");
    plot.put_y(out, cents as i128);
    out.append("\" stroke=\"#2a2\" stroke-width=\"1.5\"/>\n");
    assert(out@ =~= old(out)@ + center_text(*plot, from as int, to as int, cents as int));
}

fn drift_pitches(c: &NoteContour) -> (pitches: Vec<Option<i128>>)
    requires
        contour_ok(*c),
    ensures
        pitches@ == Seq::new(c.drift@.len(), |j: int| drift_pitch(*c, j)),
        pitches_ok(pitches@),
{
    let mut pitches: Vec<Option<i128>> = Vec::new();
    let mut j: usize = 0;
    while j < c.drift.len()
        invariant
            contour_ok(*c),
            j <= c.drift@.len(),
            pitches@ == Seq::new(j as nat, |i: int| drift_pitch(*c, i)),
            pitches_ok(pitches@),
        decreases c.drift@.len() - j,
    {
        assert(-TRACK_LIMIT <= c.drift@[j as int] <= TRACK_LIMIT);
        pitches.push(Some(c.center_cents as i128 + c.drift[j] as i128));
        j = j + 1;
    }
    pitches
}

fn vibrato_pitches<F: Fn(i64, i128) -> i64>(c: &NoteContour, swing: &F) -> (pitches: Vec<
    Option<i128>,
>)
    requires
        contour_ok(*c),
        is_swing(*swing),
        c.vibrato_amp@.len() >= c.drift@.len(),
        c.vibrato_phase@.len() >= c.drift@.len(),
    ensures
        pitches@ == Seq::new(c.drift@.len(), |j: int| vibrato_pitch(*c, *swing, j)),
        pitches_ok(pitches@),
{
    let mut pitches: Vec<Option<i128>> = Vec::new();
    let mut j: usize = 0;
    while j < c.drift.len()
        invariant
            contour_ok(*c),
            is_swing(*swing),
            c.vibrato_amp@.len() >= c.drift@.len(),
            c.vibrato_phase@.len() >= c.drift@.len(),
            j <= c.drift@.len(),
            pitches@ == Seq::new(j as nat, |i: int| vibrato_pitch(*c, *swing, i)),
            pitches_ok(pitches@),
        decreases c.drift@.len() - j,
    {
        assert(-TRACK_LIMIT <= c.drift@[j as int] <= TRACK_LIMIT);
        assert(-TRACK_LIMIT <= c.vibrato_amp@[j as int] <= TRACK_LIMIT);
        let v: i64 = swing(c.vibrato_amp[j], c.vibrato_phase[j] as i128);
        assert(swung(*swing, c.vibrato_amp@[j as int], c.vibrato_phase@[j as int] as i128) == v);
        proof {
            lemma_swung_bound(
                *swing,
                c.vibrato_amp@[j as int],
                c.vibrato_phase@[j as int] as i128,
            );
        }
        pitches.push(Some(c.center_cents as i128 + c.drift[j] as i128 + v as i128));
        j = j + 1;
    }
    pitches
}

fn first_value(track: &[i64]) -> (v: i64)
    ensures
        v == first_of(track@),
{
    if track.len() == 0 {
        0
    } else {
        track[0]
    }
}

proof fn lemma_first_bound(track: Seq<i64>, limit: int)
    requires
        bounded(track, limit),
        limit >= 0,
    ensures
        -limit <= first_of(track) <= limit,
{
    if track.len() > 0 {
        assert(-limit <= track[0] <= limit);
    }
}

fn glide_pitches<F: Fn(i64, i128) -> i64>(c: &NoteContour, swing: &F) -> (pitches: Vec<
    Option<i128>,
>)
    requires
        contour_ok(*c),
        is_swing(*swing),
    ensures
        pitches@ == Seq::new(c.onset_glide@.len(), |j: int| glide_point(*c, *swing, j)),
        pitches_ok(pitches@),
{
    let drift: i64 = first_value(c.drift.as_slice());
    let amp: i64 = first_value(c.vibrato_amp.as_slice());
    let phase: i64 = first_value(c.vibrato_phase.as_slice());
    let rest: i64 = first_value(c.residual.as_slice());
    let v: i64 = swing(amp, phase as i128);
    assert(swung(*swing, amp, phase as i128) == v);
    proof {
        lemma_first_bound(c.drift@, TRACK_LIMIT as int);
        lemma_first_bound(c.vibrato_amp@, TRACK_LIMIT as int);
        lemma_first_bound(c.residual@, TRACK_LIMIT as int);
        lemma_swung_bound(*swing, amp, phase as i128);
    }
    let end: i128 = c.center_cents as i128 + drift as i128 + v as i128 + rest as i128;
    let start: i128 = end - c.onset_glide_depth_cents as i128;
    let mut pitches: Vec<Option<i128>> = Vec::new();
    let mut j: usize = 0;
    while j < c.onset_glide.len()
        invariant
            contour_ok(*c),
            start == glide_end(*c, *swing) - c.onset_glide_depth_cents,
            -10_000_000_000_000_000 <= start <= 10_000_000_000_000_000,
            j <= c.onset_glide@.len(),
            pitches@ == Seq::new(j as nat, |i: int| glide_point(*c, *swing, i)),
            pitches_ok(pitches@),
        decreases c.onset_glide@.len() - j,
    {
        let shape: i128 = c.onset_glide[j] as i128;
        let depth: i128 = c.onset_glide_depth_cents as i128;
        let span: i128 = c.onset_glide_span as i128;
        proof {
            assert(-TRACK_LIMIT <= c.onset_glide@[j as int] <= TRACK_LIMIT);
            let x = shape * depth;
            let big: int = 2_000_000_000_000_000_000_000_000_000_000;
            assert(-1_250_000_000_000_000 * 1_250_000_000_000_000 <= x <= 1_250_000_000_000_000
                * 1_250_000_000_000_000) by (nonlinear_arith)
                requires
                    x == shape * depth,
                    -1_250_000_000_000_000 <= shape <= 1_250_000_000_000_000,
                    -1_250_000_000_000_000 <= depth <= 1_250_000_000_000_000,
            ;
            assert(big <= big * span) by (nonlinear_arith)
                requires
                    big >= 0,
                    span >= 1,
            ;
            lemma_rounded_between(x, span as int, -big, big);
        }
        pitches.push(Some(start + round_div(shape * depth, span)));
        j = j + 1;
    }
    pitches
}

fn put_note<F: Fn(i64, i128) -> i64>(
    out: &mut String,
    plot: &Plot,
    seg: &Segment,
    c: &NoteContour,
    swing: &F,
)
    requires
        plot.ok(),
        seg.kind == SegmentKind::Note(*c),
        drawable(*seg),
        is_swing(*swing),
    ensures
        final(out)@ == old(out)@ + note_lines(*plot, *seg, *c, *swing),
{
    let glide: usize = c.onset_glide.len();
    let core: usize = seg.frames.start + glide;
    let last: usize = if seg.frames.end > 0 { seg.frames.end - 1 } else { 0 };
    put_center(out, plot, core, if last > core { last } else { core }, c.center_cents);
    let drift: Vec<Option<i128>> = drift_pitches(c);
    let drift_points: String = collect_points(plot, core, drift.as_slice());
    put_polyline(
        out,
        &drift_points,
        "\" fill=\"none\" stroke=\"#c80\" stroke-width=\"1.2\"/>\n",
    );
    let whole: Vec<Option<i128>> = vibrato_pitches(c, swing);
    let whole_points: String = collect_points(plot, core, whole.as_slice());
    put_polyline(
        out,
        &whole_points,
        "\" fill=\"none\" stroke=\"#d22\" stroke-width=\"1\"/>\n",
    );
    if glide > 0 {
        let lead: Vec<Option<i128>> = glide_pitches(c, swing);
        let lead_points: String = collect_points(plot, seg.frames.start, lead.as_slice());
        put_polyline(
            out,
            &lead_points,
            "\" fill=\"none\" stroke=\"#d2a\" stroke-width=\"1.5\"/>\n",
        );
    }
    assert(out@ =~= old(out)@ + note_lines(*plot, *seg, *c, *swing));
}

fn put_notes<F: Fn(i64, i128) -> i64>(
    out: &mut String,
    plot: &Plot,
    segments: &[Segment],
    swing: &F,
)
    requires
        plot.ok(),
        is_swing(*swing),
        forall|i: int|
            0 <= i < segments@.len() ==> drawable(#[trigger] segments@[i]),
    ensures
        final(out)@ == old(out)@ + notes_text(*plot, segments@, *swing, segments@.len() as int),
{
    let ghost before = out@;
    let mut k: usize = 0;
    assert(before + notes_text(*plot, segments@, *swing, 0) =~= before);
    while k < segments.len()
        invariant
            plot.ok(),
            is_swing(*swing),
            forall|i: int|
                0 <= i < segments@.len() ==> drawable(#[trigger] segments@[i]),
            k <= segments@.len(),
            out@ == before + notes_text(*plot, segments@, *swing, k as int),
        decreases segments@.len() - k,
    {
        let seg = &segments[k];
        assert(drawable(*seg));
        match &seg.kind {
            SegmentKind::Note(c) => {
                put_note(out, plot, seg, c, swing);
            },
            SegmentKind::Unvoiced => {},
        }
        k = k + 1;
        assert(out@ =~= before + notes_text(*plot, segments@, *swing, k as int));
    }
}

// --- overlay and axis -------------------------------------------------------

/// An overlaid track, where there is one with at least one point.
pub open spec fn overlay_text(plot: Plot, overlay: Option<Seq<Option<i128>>>) -> Seq<char> {
    match overlay {
        None => Seq::empty(),
        Some(pitches) => {
            let points = points_text(plot, 0, pitches, pitches.len() as int);
            if points.len() == 0 {
                Seq::empty()
            } else {
                polyline_text(points, "\" fill=\"none\" stroke=\"#82d\" stroke-width=\"1\"/>\n"@)
            }
        },
    }
}

/// The distance between time labels in tenths of a second: the longer the contour,
/// the wider.
pub open spec fn label_step(plot: Plot) -> int {
    let n = plot.frames * HERTZ;
    if plot.frames == 0 || n <= plot.frame_rate {
        1
    } else if n <= 5 * plot.frame_rate {
        5
    } else if n <= 20 * plot.frame_rate {
        10
    } else {
        50
    }
}

/// Whether the time label at `t` tenths of a second lies within the contour, to a
/// nanosecond. An empty contour is one second long.
pub open spec fn label_fits(plot: Plot, t: int) -> bool {
    if plot.frames == 0 {
        t <= 10
    } else {
        (t * 100_000_000 - 1) * plot.frame_rate <= plot.frames * 1_000_000_000_000_000_000
    }
}

/// The horizontal position of `t` tenths of a second.
pub open spec fn label_x(plot: Plot, t: int) -> Seq<char> {
    if plot.frames == 0 {
        fixed_point(600 + t * 1120, 10)
    } else {
        fixed_point(
            60 * (plot.frames * 10_000_000_000) + t * plot.frame_rate * 1120,
            plot.frames * 10_000_000_000,
        )
    }
}

/// One time label.
pub open spec fn label_text(plot: Plot, t: int) -> Seq<char> {
    "<text x=\""@ + label_x(plot, t)
        + "\" y=\"595\" font-size=\"10\" fill=\"#666\" text-anchor=\"middle\">"@ + tenths(t)
        + "s</text>\n"@
}

/// The first `k` time labels.
pub open spec fn labels_text(plot: Plot, k: int) -> Seq<char>
    decreases k,
{
    if k <= 0 {
        Seq::empty()
    } else {
        labels_text(plot, k - 1) + label_text(plot, (k - 1) * label_step(plot))
    }
}

/// The last tenth of a second at which a time label fits.
pub open spec fn last_tenth(plot: Plot) -> int {
    if plot.frames == 0 {
        10
    } else {
        (plot.frames * 1_000_000_000_000_000_000 / plot.frame_rate as int + 1) / 100_000_000
    }
}

/// How many time labels the axis of a plot has.
pub open spec fn label_count(plot: Plot) -> int {
    last_tenth(plot) / label_step(plot) + 1
}

/// A time label fits up to the last tenth of a second and no further.
pub proof fn lemma_label_fits(plot: Plot, t: int)
    requires
        plot.frame_rate > 0,
    ensures
        label_fits(plot, t) <==> t <= last_tenth(plot),
{
    if plot.frames > 0 {
        let a = t * 100_000_000 - 1;
        let r = plot.frame_rate as int;
        let f = plot.frames * 1_000_000_000_000_000_000;
        assert(a * r <= f <==> a <= f / r) by (nonlinear_arith)
            requires
                r > 0,
        ;
    }
}

/// The labels that fit are as many as are counted.
proof fn lemma_label_count(plot: Plot, k: int)
    requires
        plot.frame_rate > 0,
        k >= 1,
        label_fits(plot, (k - 1) * label_step(plot)),
        !label_fits(plot, k * label_step(plot)),
    ensures
        k == label_count(plot),
{
    let s = label_step(plot);
    let last = last_tenth(plot);
    lemma_label_fits(plot, (k - 1) * s);
    lemma_label_fits(plot, k * s);
    assert(last / s == k - 1) by (nonlinear_arith)
        requires
            s > 0,
            (k - 1) * s <= last < k * s,
    ;
}

fn put_label(out: &mut String, plot: &Plot, t: u128)
    requires
        plot.ok(),
        label_fits(*plot, t as int),
    ensures
        final(out)@ == old(out)@ + label_text(*plot, t as int),
{
    out.append("<text x=\"");
    if plot.frames == 0 {
        append_fixed_point(out, 600 + t as i128 * 1120, 10);
    } else {
        let ghost y = t * plot.frame_rate;
        proof {
            let rate = plot.frame_rate as int;
            assert((t * 100_000_000 - 1) * rate == 100_000_000 * y - rate) by (nonlinear_arith)
                requires
                    y == t * rate,
            ;
            assert(0 <= y) by (nonlinear_arith)
                requires
                    y == t * rate,
                    t >= 0,
                    rate >= 0,
            ;
            assert(t <= y) by (nonlinear_arith)
                requires
                    y == t * rate,
                    t >= 0,
                    rate >= 1,
            ;
        }
        let unit: i128 = plot.frames as i128 * 10_000_000_000;
        let over: i128 = t as i128 * plot.frame_rate as i128;
        append_fixed_point(out, 60 * unit + over * 1120, unit);
    }
    out.append("\" y=\"595\" font-size=\"10\" fill=\"#666\" text-anchor=\"middle\">");
    append_tenths(out, t);
    out.append("s</text>\n");
    assert(out@ =~= old(out)@ + label_text(*plot, t as int));
}

fn fits_label(plot: &Plot, t: u128) -> (yes: bool)
    requires
        plot.ok(),
        t == 0 || exists|s: int| 0 <= s < t <= s + 50 && #[trigger] label_fits(*plot, s),
    ensures
        yes == label_fits(*plot, t as int),
{
    if plot.frames == 0 {
        return t <= 10;
    }
    let ghost rate = plot.frame_rate as int;
    proof {
        if t > 0 {
            let s = choose|s: int| 0 <= s < t <= s + 50 && #[trigger] label_fits(*plot, s);
            let bound = plot.frames * 1_000_000_000_000_000_000;
            assert((s * 100_000_000 - 1) * rate <= bound);
            assert(t * rate <= (s + 50) * rate) by (nonlinear_arith)
                requires
                    t <= s + 50,
                    rate >= 0,
            ;
            assert((s + 50) * rate * 100_000_000 == (s * 100_000_000 - 1) * rate + 5_000_000_001
                * rate) by (nonlinear_arith);
        }
        assert(t <= t * rate) by (nonlinear_arith)
            requires
                t >= 0,
                rate >= 1,
        ;
        assert((t * 100_000_000 - 1) * rate == 100_000_000 * (t * rate) - rate)
            by (nonlinear_arith);
    }
    let over: i128 = t as i128 * plot.frame_rate as i128;
    100_000_000 * over - plot.frame_rate as i128 <= plot.frames as i128
        * 1_000_000_000_000_000_000
}

fn put_labels(out: &mut String, plot: &Plot)
    requires
        plot.ok(),
    ensures
        final(out)@ == old(out)@ + labels_text(*plot, label_count(*plot)),
{
    let ghost before = out@;
    let n: u128 = plot.frames as u128 * HERTZ as u128;
    let rate: u128 = plot.frame_rate as u128;
    let step: u128 = if plot.frames == 0 || n <= rate {
        1
    } else if n <= 5 * rate {
        5
    } else if n <= 20 * rate {
        10
    } else {
        50
    };
    assert(before + labels_text(*plot, 0) =~= before);
    let mut t: u128 = 0;
    let ghost mut k: int = 0;
    proof {
        let r = plot.frame_rate as int;
        assert((0 * 100_000_000 - 1) * r == -r) by (nonlinear_arith);
    }
    while fits_label(plot, t)
        invariant
            plot.ok(),
            step == label_step(*plot),
            1 <= step <= 50,
            k >= 0,
            t == k * step,
            t == 0 <==> k == 0,
            k > 0 ==> label_fits(*plot, (k - 1) * step),
            k > 0 ==> t - step == (k - 1) * step,
            t == 0 ==> label_fits(*plot, 0),
            out@ == before + labels_text(*plot, k),
        decreases 0x1_0000_0000_0000_0000_0000 - t,
    {
        proof {
            let r = plot.frame_rate as int;
            assert((k + 1) * step == k * step + step) by (nonlinear_arith);
            if plot.frames > 0 && t > 0 {
                assert((t * 100_000_000 - 1) * r >= t * 100_000_000 - 1) by (nonlinear_arith)
                    requires
                        r >= 1,
                        t >= 1,
                ;
            }
        }
        put_label(out, plot, t);
        assert(out@ =~= before + labels_text(*plot, k + 1));
        t = t + step;
        proof {
            k = k + 1;
        }
    }
    proof {
        lemma_label_count(*plot, k);
    }
}

// --- the whole drawing ------------------------------------------------------

/// The drawing of a contour.
pub open spec fn svg_text<F: Fn(i64, i128) -> i64>(
    frames: Seq<Frame>,
    segments: Seq<Segment>,
    frame_rate: u64,
    overlay: Option<Seq<Option<i128>>>,
    f: F,
) -> Seq<char> {
    let plot = plot_of(frames, frame_rate);
    "<svg xmlns=\"http://www.w3.org/2000/svg\" viewBox=\"0 0 1200 600\" width=\"1200\" height=\"600\">\n<rect width=\"1200\" height=\"600\" fill=\"white\"/>\n"@
        + segments_text(plot, segments, segments.len() as int) + closing_text(plot, segments)
        + grid_text(plot, last_semitone(plot)) + dots_text(plot, frames, frames.len() as int)
        + notes_text(plot, segments, f, segments.len() as int) + overlay_text(plot, overlay)
        + labels_text(plot, label_count(plot)) + "</svg>\n"@
}

/// The view of an overlay.
pub open spec fn overlay_view(overlay: Option<&[Option<i128>]>) -> Option<Seq<Option<i128>>> {
    match overlay {
        Some(p) => Some(p@),
        None => None,
    }
}

/// Draw a segmented contour: unvoiced stretches, boundaries, the semitone grid, the
/// pitch of every frame, the lines of every note, an overlaid track of pitches, and
/// a time axis.
pub fn contour_svg<F: Fn(i64, i128) -> i64>(
    frames: &[Frame],
    segments: &[Segment],
    frame_rate: u64,
    overlay: Option<&[Option<i128>]>,
    swing: F,
) -> (svg: String)
    requires
        frames_ok(frames@),
        frame_rate > 0,
        is_swing(swing),
        forall|i: int|
            0 <= i < segments@.len() ==> drawable(#[trigger] segments@[i]),
        overlay matches Some(p) ==> pitches_ok(p@),
    ensures
        svg@ == svg_text(frames@, segments@, frame_rate, overlay_view(overlay), swing),
{
    let plot = find_plot(frames, frame_rate);
    let mut out: String = String::new();
    out.append(
        "<svg xmlns=\"http://www.w3.org/2000/svg\" viewBox=\"0 0 1200 600\" width=\"1200\" height=\"600\">\n<rect width=\"1200\" height=\"600\" fill=\"white\"/>\n",
    );
    put_segments(&mut out, &plot, segments);
    put_grid(&mut out, &plot);
    put_dots(&mut out, &plot, frames);
    put_notes(&mut out, &plot, segments, &swing);
    let ghost before = out@;
    match overlay {
        Some(pitches) => {
            if pitches.len() > 0 {
                let points: String = collect_points(&plot, 0, pitches);
                if !points.as_str().is_empty() {
                    put_polyline(
                        &mut out,
                        &points,
                        "\" fill=\"none\" stroke=\"#82d\" stroke-width=\"1\"/>\n",
                    );
                }
            }
        },
        None => {},
    }
    assert(out@ =~= before + overlay_text(plot, overlay_view(overlay)));
    put_labels(&mut out, &plot);
    out.append("</svg>\n");
    assert(out@ =~= svg_text(frames@, segments@, frame_rate, overlay_view(overlay), swing));
    out
}

} // verus!
