//! Rendering of edited notes: how many frames each segment becomes, which source
//! frames they are blended from, and at which pitch.

use crate::contour::{bounded, lies_within, Frame, NoteContour, MAX_FRAMES, PITCH_LIMIT};
use crate::num::{lemma_rounded_between, min_of, round_div, rounded_quotient};
use crate::segment::{Segment, SegmentKind};
use crate::vibrato::{is_swing, lemma_swung_bound, swung};
use vstd::prelude::*;

verus! {

/// A scale of one, in millionths.
pub const UNIT: i64 = 1_000_000;

/// Largest magnitude of a scale, in millionths. A scaled track stays within the 64 bits
/// of a pitch.
pub const SCALE_LIMIT: i64 = 1_000_000_000;

/// Largest magnitude of a track of a contour; those that pitches within the limit give
/// are below it.
pub const TRACK_LIMIT: i64 = 1_250_000_000_000_000;

/// Pitches beyond this, in nanocents, are held at it; as a frequency they have
/// long left any audible range.
pub const PITCH_CEILING: i64 = 9_000_000_000_000_000_000;

/// An edit of one segment. Scales are in millionths, pitches in nanocents.
#[derive(Clone, Copy, Debug, PartialEq, Eq, Structural)]
pub struct NoteEdit {
    pub segment_index: usize,
    /// New centre pitch.
    pub target_cents: Option<i64>,
    pub drift_scale: i64,
    pub vibrato_scale: i64,
    pub vibrato_rate_scale: i64,
    /// Scales the depth of the onset glide; zero makes it a hard step at the
    /// note's entry pitch.
    pub glide_scale: i64,
    /// Scales the duration of the onset glide; zero drops its frames, so that the
    /// note shortens.
    pub glide_time_scale: i64,
    /// Frames that the segment is stretched or shortened to; zero drops it. The
    /// scaling of the glide's duration comes on top, so that with both the segment
    /// does not have this many frames: its core has the length that it would have
    /// without the scaling.
    pub out_len: Option<usize>,
    /// Silent frames rendered before the segment. A gap severs the note from its
    /// predecessor, so that an onset glide keeps its own depth.
    pub lead_gap_frames: usize,
}

/// The edit that changes nothing.
pub open spec fn identity_edit(segment_index: usize) -> NoteEdit {
    NoteEdit {
        segment_index,
        target_cents: None,
        drift_scale: UNIT,
        vibrato_scale: UNIT,
        vibrato_rate_scale: UNIT,
        glide_scale: UNIT,
        glide_time_scale: UNIT,
        out_len: None,
        lead_gap_frames: 0,
    }
}

/// Whether a scale fits the arithmetic.
pub open spec fn scale_ok(scale: i64) -> bool {
    -SCALE_LIMIT <= scale <= SCALE_LIMIT
}

impl NoteEdit {
    /// The edit that changes nothing.
    pub fn identity(segment_index: usize) -> (edit: Self)
        ensures
            edit == identity_edit(segment_index),
            edit.ok(),
            edit.segment_index == segment_index,
            edit.target_cents is None && edit.out_len is None && edit.lead_gap_frames == 0,
            edit.drift_scale == 1_000_000 && edit.vibrato_scale == 1_000_000,
            edit.vibrato_rate_scale == 1_000_000 && edit.glide_scale == 1_000_000,
            edit.glide_time_scale == 1_000_000,
    {
        NoteEdit {
            segment_index,
            target_cents: None,
            drift_scale: UNIT,
            vibrato_scale: UNIT,
            vibrato_rate_scale: UNIT,
            glide_scale: UNIT,
            glide_time_scale: UNIT,
            out_len: None,
            lead_gap_frames: 0,
        }
    }

    /// Whether the edit fits the arithmetic.
    pub open spec fn ok(&self) -> bool {
        &&& self.target_cents matches Some(c) ==> -PITCH_LIMIT <= c <= PITCH_LIMIT
        &&& self.out_len matches Some(n) ==> n <= MAX_FRAMES
        &&& self.lead_gap_frames <= MAX_FRAMES
        &&& scale_ok(self.drift_scale)
        &&& scale_ok(self.vibrato_scale)
        &&& scale_ok(self.vibrato_rate_scale)
        &&& scale_ok(self.glide_scale)
        &&& scale_ok(self.glide_time_scale)
    }

    /// Whether the edit fits the arithmetic.
    pub fn fits(&self) -> (yes: bool)
        ensures
            yes == self.ok(),
            yes <==> (self.target_cents matches Some(c) ==> -120_000_000_000_000 <= c
                <= 120_000_000_000_000) && (self.out_len matches Some(n) ==> n <= 0x400_0000)
                && self.lead_gap_frames <= 0x400_0000 && -1_000_000_000 <= self.drift_scale
                <= 1_000_000_000 && -1_000_000_000 <= self.vibrato_scale <= 1_000_000_000
                && -1_000_000_000 <= self.vibrato_rate_scale <= 1_000_000_000 && -1_000_000_000
                <= self.glide_scale <= 1_000_000_000 && -1_000_000_000 <= self.glide_time_scale
                <= 1_000_000_000,
    {
        let target: bool = match self.target_cents {
            Some(c) => -PITCH_LIMIT <= c && c <= PITCH_LIMIT,
            None => true,
        };
        let length: bool = match self.out_len {
            Some(n) => n <= MAX_FRAMES,
            None => true,
        };
        target && length && self.lead_gap_frames <= MAX_FRAMES && scale_fits(self.drift_scale)
            && scale_fits(self.vibrato_scale) && scale_fits(self.vibrato_rate_scale)
            && scale_fits(self.glide_scale) && scale_fits(self.glide_time_scale)
    }
}

fn scale_fits(scale: i64) -> (yes: bool)
    ensures
        yes == scale_ok(scale),
{
    -SCALE_LIMIT <= scale && scale <= SCALE_LIMIT
}

// --- lengths ----------------------------------------------------------------

/// Glide frames of a note of `src_len` frames stretched to `total` frames.
pub open spec fn stretched_glide(src_len: int, glide_len: int, total: int) -> int {
    min_of(rounded_quotient(glide_len * total, src_len), total - 1)
}

/// Glide frames after the glide duration has been scaled as well.
pub open spec fn scaled_glide(src_len: int, glide_len: int, total: int, scale: int) -> int {
    let frames = if rounded_quotient(glide_len * total, src_len) > total - 1 {
        rounded_quotient((total - 1) * scale, UNIT as int)
    } else {
        rounded_quotient(glide_len * total * scale, src_len * UNIT)
    };
    if frames < 0 { 0 } else { frames }
}

/// The number of glide frames and of core frames of a note under an edit, or
/// nothing when the edit drops the note. The core has the frames that the
/// stretched note leaves it, however the glide is scaled.
pub open spec fn render_lengths(src_len: int, glide_len: int, edit: NoteEdit) -> Option<
    (int, int),
> {
    if edit.out_len == Some(0usize) {
        None
    } else {
        let total = match edit.out_len {
            Some(n) => n as int,
            None => src_len,
        };
        Some(
            (
                scaled_glide(src_len, glide_len, total, edit.glide_time_scale as int),
                total - stretched_glide(src_len, glide_len, total),
            ),
        )
    }
}

proof fn lemma_rounded_bounds(a: int, b: int, limit: int)
    requires
        b > 0,
        0 <= a <= limit * b,
    ensures
        0 <= rounded_quotient(a, b) <= limit,
{
    let x = 2 * a + b;
    assert(x / (2 * b) >= 0) by (nonlinear_arith)
        requires
            x >= 0,
            b > 0,
    ;
    assert(x / (2 * b) <= limit) by (nonlinear_arith)
        requires
            x == 2 * a + b,
            a <= limit * b,
            b > 0,
    ;
}

proof fn lemma_scaled_product(a: int, scale: int, limit: int)
    requires
        0 <= a <= limit,
        -SCALE_LIMIT <= scale <= SCALE_LIMIT,
    ensures
        -(limit * SCALE_LIMIT) <= a * scale <= limit * SCALE_LIMIT,
        scale >= 0 ==> a * scale >= 0,
        scale <= 0 ==> a * scale <= 0,
{
    assert(-(limit * SCALE_LIMIT) <= a * scale <= limit * SCALE_LIMIT) by (nonlinear_arith)
        requires
            0 <= a <= limit,
            -SCALE_LIMIT <= scale <= SCALE_LIMIT,
    ;
    assert(scale >= 0 ==> a * scale >= 0) by (nonlinear_arith)
        requires
            0 <= a,
    ;
    assert(scale <= 0 ==> a * scale <= 0) by (nonlinear_arith)
        requires
            0 <= a,
    ;
}

proof fn lemma_rounded_nonpositive(a: int, b: int)
    requires
        b > 0,
        a <= 0,
    ensures
        rounded_quotient(a, b) <= 0,
{
    let x = 2 * a + b;
    assert(x / (2 * b) <= 0) by (nonlinear_arith)
        requires
            x <= b,
            b > 0,
    ;
}

/// Bounds of the lengths that a note is rendered to.
pub proof fn lemma_render_lengths(src_len: int, glide_len: int, edit: NoteEdit)
    requires
        0 <= glide_len < src_len <= MAX_FRAMES,
        edit.ok(),
    ensures
        render_lengths(src_len, glide_len, edit) matches Some(l) ==> {
            &&& 0 <= l.0 <= 1000 * MAX_FRAMES
            &&& 1 <= l.1 <= MAX_FRAMES
            &&& glide_len == 0 ==> l.0 == 0
            &&& edit.glide_time_scale == UNIT ==> l.0 + l.1 == (match edit.out_len {
                Some(n) => n as int,
                None => src_len,
            })
            &&& edit.glide_time_scale == 0 ==> l.0 == 0
        },
{
    if let Some(l) = render_lengths(src_len, glide_len, edit) {
        let total = match edit.out_len {
            Some(n) => n as int,
            None => src_len,
        };
        let scale = edit.glide_time_scale as int;
        let whole = glide_len * total;
        assert(0 <= whole <= total * src_len) by (nonlinear_arith)
            requires
                whole == glide_len * total,
                0 <= glide_len < src_len,
                total >= 0,
        ;
        lemma_rounded_bounds(whole, src_len, total);
        let r = rounded_quotient(whole, src_len);
        if r > total - 1 {
            lemma_scaled_product(total - 1, scale, total - 1);
            let a = (total - 1) * scale;
            if scale >= 0 {
                lemma_rounded_bounds(a, UNIT as int, 1000 * (total - 1));
            } else {
                lemma_rounded_nonpositive(a, UNIT as int);
            }
            if scale == UNIT {
                assert(a == (total - 1) * UNIT) by (nonlinear_arith)
                    requires
                        a == (total - 1) * scale,
                        scale == UNIT,
                ;
                lemma_rounded_between(a, UNIT as int, total - 1, total - 1);
            }
            if scale == 0 {
                assert(a == 0) by (nonlinear_arith)
                    requires
                        a == (total - 1) * scale,
                        scale == 0,
                ;
                lemma_rounded_bounds(0, UNIT as int, 0);
            }
            if glide_len == 0 {
                assert(whole == 0) by (nonlinear_arith)
                    requires
                        whole == glide_len * total,
                        glide_len == 0,
                ;
                lemma_rounded_bounds(0, src_len, 0);
            }
        } else {
            let a = whole * scale;
            let d = src_len * UNIT;
            if scale >= 0 {
                assert(0 <= a <= (1000 * total) * d) by (nonlinear_arith)
                    requires
                        a == whole * scale,
                        d == src_len * 1_000_000,
                        0 <= whole <= total * src_len,
                        0 <= scale <= 1_000_000_000,
                        total >= 0,
                        src_len > 0,
                ;
                lemma_rounded_bounds(a, d, 1000 * total);
            } else {
                assert(a <= 0) by (nonlinear_arith)
                    requires
                        a == whole * scale,
                        whole >= 0,
                        scale < 0,
                ;
                lemma_rounded_nonpositive(a, d);
            }
            if glide_len == 0 {
                assert(whole == 0) by (nonlinear_arith)
                    requires
                        whole == glide_len * total,
                        glide_len == 0,
                ;
                assert(a == 0) by (nonlinear_arith)
                    requires
                        a == whole * scale,
                        whole == 0,
                ;
                lemma_rounded_bounds(0, d, 0);
            }
            if scale == 0 {
                assert(a == 0) by (nonlinear_arith)
                    requires
                        a == whole * scale,
                        scale == 0,
                ;
                lemma_rounded_bounds(0, d, 0);
            }
            if scale == UNIT {
                let x = 2 * whole + src_len;
                assert(a == whole * 1_000_000) by (nonlinear_arith)
                    requires
                        a == whole * scale,
                        scale == 1_000_000,
                ;
                vstd::arithmetic::div_mod::lemma_div_multiples_vanish_quotient(
                    1_000_000,
                    x,
                    2 * src_len,
                );
                assert(1_000_000 * x == 2 * a + d);
                assert(1_000_000 * (2 * src_len) == 2 * d);
            }
        }
    }
}

/// The number of glide frames and of core frames of a note under `edit`, or
/// nothing when the edit drops the note.
fn find_lengths(src_len: usize, glide_len: usize, edit: &NoteEdit) -> (lengths: Option<
    (i128, usize),
>)
    requires
        glide_len < src_len <= MAX_FRAMES,
        edit.ok(),
    ensures
        match lengths {
            Some(l) => render_lengths(src_len as int, glide_len as int, *edit) == Some(
                (l.0 as int, l.1 as int),
            ),
            None => render_lengths(src_len as int, glide_len as int, *edit) is None,
        },
{
    proof {
        lemma_render_lengths(src_len as int, glide_len as int, *edit);
    }
    let total: usize = match edit.out_len {
        Some(n) => {
            if n == 0 {
                return None;
            }
            n
        },
        None => src_len,
    };
    let scale: i128 = edit.glide_time_scale as i128;
    assert(0 <= glide_len * total <= 0x400_0000 * 0x400_0000) by (nonlinear_arith)
        requires
            0 <= glide_len <= 0x400_0000,
            0 <= total <= 0x400_0000,
    ;
    let whole: i128 = glide_len as i128 * total as i128;
    let len: i128 = src_len as i128;
    proof {
        lemma_scaled_product(whole as int, scale as int, 0x10_0000_0000_0000);
        lemma_scaled_product(total - 1, scale as int, 0x400_0000);
        assert(whole <= total * src_len) by (nonlinear_arith)
            requires
                whole == glide_len * total,
                0 <= glide_len < src_len,
                total >= 0,
        ;
        lemma_rounded_bounds(whole as int, len as int, total as int);
    }
    let plain: i128 = round_div(whole, len);
    let last: i128 = total as i128 - 1;
    let frames: i128 = if plain > last {
        round_div(last * scale, UNIT as i128)
    } else {
        round_div(whole * scale, len * UNIT as i128)
    };
    let glide: i128 = if frames < 0 { 0 } else { frames };
    let core: usize = total - (if plain > last { last as usize } else { plain as usize });
    Some((glide, core))
}

/// The number of glide frames and of core frames of a note under `edit`, or
/// nothing when the edit drops the note.
pub fn note_render_lengths(src_len: usize, glide_len: usize, edit: &NoteEdit) -> (lengths: Option<
    (usize, usize),
>)
    requires
        glide_len < src_len <= MAX_FRAMES,
        edit.ok(),
        render_lengths(src_len as int, glide_len as int, *edit) matches Some(l) ==> l.0
            <= usize::MAX,
    ensures
        match lengths {
            Some(l) => render_lengths(src_len as int, glide_len as int, *edit) == Some(
                (l.0 as int, l.1 as int),
            ),
            None => render_lengths(src_len as int, glide_len as int, *edit) is None,
        },
{
    proof {
        lemma_render_lengths(src_len as int, glide_len as int, *edit);
    }
    match find_lengths(src_len, glide_len, edit) {
        Some(l) => Some((l.0 as usize, l.1)),
        None => None,
    }
}

// --- positions and tracks ---------------------------------------------------

/// Where output frame `j` reads when `src_len` frames become `out_len`: the
/// position is `pos_num / pos_den`, so that the ends meet the ends.
pub open spec fn pos_num(j: int, src_len: int, out_len: int) -> int {
    if out_len <= 1 { 0 } else { j * (src_len - 1) }
}

/// See `pos_num`.
pub open spec fn pos_den(out_len: int) -> int {
    if out_len <= 1 { 1 } else { out_len - 1 }
}

/// A value between `a` and `b`, `r / q` of the way.
pub open spec fn blend(a: int, b: int, r: int, q: int) -> int {
    rounded_quotient(a * (q - r) + b * r, q)
}

/// The value of a track at position `p / q`, interpolated; the track's last value
/// beyond its end, zero for an empty track.
pub open spec fn track_at(track: Seq<i64>, p: int, q: int) -> int {
    if track.len() == 0 {
        0
    } else {
        let i = min_of(p / q, track.len() - 1);
        let k = min_of(i + 1, track.len() - 1);
        blend(track[i] as int, track[k] as int, p % q, q)
    }
}

/// A value times a scale in millionths.
pub open spec fn scaled(scale: int, x: int) -> int {
    rounded_quotient(scale * x, UNIT as int)
}

/// A pitch held within the pitch ceiling.
pub open spec fn held(x: int) -> int {
    if x > PITCH_CEILING {
        PITCH_CEILING as int
    } else if x < -PITCH_CEILING {
        -PITCH_CEILING
    } else {
        x
    }
}

/// A blend lies between what it blends, and is the first value at its start.
pub proof fn lemma_blend(a: int, b: int, r: int, q: int, lo: int, hi: int)
    requires
        0 <= r < q,
        lo <= a <= hi,
        lo <= b <= hi,
    ensures
        lo <= blend(a, b, r, q) <= hi,
        r == 0 ==> blend(a, b, r, q) == a,
{
    let x = a * (q - r) + b * r;
    assert(lo * q <= x <= hi * q) by (nonlinear_arith)
        requires
            x == a * (q - r) + b * r,
            0 <= r < q,
            lo <= a <= hi,
            lo <= b <= hi,
    ;
    lemma_rounded_between(x, q, lo, hi);
    if r == 0 {
        assert(x == a * q) by (nonlinear_arith)
            requires
                x == a * (q - r) + b * r,
                r == 0,
        ;
        lemma_rounded_between(x, q, a, a);
    }
}

/// A track value stays within the bounds of the track.
pub proof fn lemma_track_at(track: Seq<i64>, p: int, q: int, limit: int)
    requires
        q > 0,
        p >= 0,
        limit >= 0,
        forall|i: int| 0 <= i < track.len() ==> -limit <= #[trigger] track[i] <= limit,
    ensures
        -limit <= track_at(track, p, q) <= limit,
        i64::MIN <= track_at(track, p, q) <= i64::MAX,
{
    if track.len() > 0 {
        assert(p / q >= 0) by (nonlinear_arith)
            requires
                p >= 0,
                q > 0,
        ;
        let i = min_of(p / q, track.len() - 1);
        let k = min_of(i + 1, track.len() - 1);
        assert(0 <= p % q < q) by (nonlinear_arith)
            requires
                q > 0,
        ;
        lemma_blend(track[i] as int, track[k] as int, p % q, q, -limit, limit);
        lemma_blend(
            track[i] as int,
            track[k] as int,
            p % q,
            q,
            i64::MIN as int,
            i64::MAX as int,
        );
    }
}

/// On the grid a track gives its own values.
pub proof fn lemma_track_on_grid(track: Seq<i64>, i: int, q: int)
    requires
        q > 0,
        0 <= i < track.len(),
    ensures
        track_at(track, i * q, q) == track[i],
        i * q / q == i,
        (i * q) % q == 0,
{
    vstd::arithmetic::div_mod::lemma_div_multiples_vanish(i, q);
    vstd::arithmetic::mul::lemma_mul_is_commutative(i, q);
    vstd::arithmetic::div_mod::lemma_mod_multiples_basic(i, q);
    let k = min_of(i + 1, track.len() - 1);
    lemma_blend(
        track[i] as int,
        track[k] as int,
        0,
        q,
        i64::MIN as int,
        i64::MAX as int,
    );
}

/// Scaling by one changes nothing, and a scaled value keeps the scaled bound.
pub proof fn lemma_scaled(scale: int, x: int, limit: int)
    requires
        -SCALE_LIMIT <= scale <= SCALE_LIMIT,
        -limit <= x <= limit,
    ensures
        -(1000 * limit) <= scaled(scale, x) <= 1000 * limit,
        -(1_000_000_000 * limit) <= scale * x <= 1_000_000_000 * limit,
        scale == UNIT ==> scaled(scale, x) == x,
        scale == 0 ==> scaled(scale, x) == 0,
{
    let y = scale * x;
    assert(-(1_000_000_000 * limit) <= y <= 1_000_000_000 * limit) by (nonlinear_arith)
        requires
            y == scale * x,
            -1_000_000_000 <= scale <= 1_000_000_000,
            -limit <= x <= limit,
    ;
    lemma_rounded_between(y, UNIT as int, -(1000 * limit), 1000 * limit);
    if scale == UNIT {
        assert(y == x * UNIT) by (nonlinear_arith)
            requires
                y == scale * x,
                scale == UNIT,
        ;
        lemma_rounded_between(y, UNIT as int, x, x);
    }
    if scale == 0 {
        assert(y == 0) by (nonlinear_arith)
            requires
                y == scale * x,
                scale == 0,
        ;
        lemma_rounded_between(y, UNIT as int, 0, 0);
    }
}

/// The value of a track at position `p / q`.
fn lerp_track(track: &[i64], p: u64, q: u64) -> (v: i64)
    requires
        0 < q <= 0x100_0000_0000,
    ensures
        v == track_at(track@, p as int, q as int),
{
    proof {
        lemma_track_at(track@, p as int, q as int, 0x8000_0000_0000_0000);
    }
    if track.len() == 0 {
        return 0;
    }
    let last: u64 = track.len() as u64 - 1;
    let whole: u64 = p / q;
    let i: u64 = if whole < last { whole } else { last };
    let k: u64 = if i < last { i + 1 } else { last };
    let r: i128 = (p % q) as i128;
    let a: i128 = track[i as usize] as i128;
    let b: i128 = track[k as usize] as i128;
    let d: i128 = q as i128;
    assert(-0x8000_0000_0000_0000 * 0x100_0000_0000 <= a * (d - r) <= 0x8000_0000_0000_0000
        * 0x100_0000_0000) by (nonlinear_arith)
        requires
            -0x8000_0000_0000_0000 <= a <= 0x8000_0000_0000_0000,
            0 <= d - r <= 0x100_0000_0000,
    ;
    assert(-0x8000_0000_0000_0000 * 0x100_0000_0000 <= b * r <= 0x8000_0000_0000_0000
        * 0x100_0000_0000) by (nonlinear_arith)
        requires
            -0x8000_0000_0000_0000 <= b <= 0x8000_0000_0000_0000,
            0 <= r <= 0x100_0000_0000,
    ;
    round_div(a * (d - r) + b * r, d) as i64
}

/// A value times a scale in millionths.
fn scale_by(scale: i64, x: i128) -> (v: i128)
    requires
        scale_ok(scale),
        -0x1_0000_0000_0000_0000_0000 <= x <= 0x1_0000_0000_0000_0000_0000,
    ensures
        v == scaled(scale as int, x as int),
{
    proof {
        lemma_scaled(scale as int, x as int, 0x1_0000_0000_0000_0000_0000);
    }
    round_div(scale as i128 * x, UNIT as i128)
}

// --- pitch ------------------------------------------------------------------

/// Whether the numbers of a contour fit the arithmetic.
pub open spec fn contour_ok(c: NoteContour) -> bool {
    &&& -PITCH_LIMIT <= c.center_cents <= PITCH_LIMIT
    &&& bounded(c.drift@, TRACK_LIMIT as int)
    &&& bounded(c.vibrato_amp@, TRACK_LIMIT as int)
    &&& bounded(c.residual@, TRACK_LIMIT as int)
    &&& bounded(c.onset_glide@, TRACK_LIMIT as int)
    &&& c.onset_glide_span >= 1
    &&& -TRACK_LIMIT <= c.onset_glide_depth_cents <= TRACK_LIMIT
}

/// Whether the numbers of a contour fit the arithmetic.
pub fn contour_fits(c: &NoteContour) -> (yes: bool)
    ensures
        yes == contour_ok(*c),
{
    -PITCH_LIMIT <= c.center_cents && c.center_cents <= PITCH_LIMIT && lies_within(
        c.drift.as_slice(),
        TRACK_LIMIT,
    ) && lies_within(c.vibrato_amp.as_slice(), TRACK_LIMIT) && lies_within(
        c.residual.as_slice(),
        TRACK_LIMIT,
    ) && lies_within(c.onset_glide.as_slice(), TRACK_LIMIT) && c.onset_glide_span >= 1
        && -TRACK_LIMIT <= c.onset_glide_depth_cents && c.onset_glide_depth_cents <= TRACK_LIMIT
}

/// The vibrato phase of core frame `j` of `out` frames: it advances with the
/// source phase, faster or slower as the edit says.
pub open spec fn vibrato_phase_at(
    c: NoteContour,
    edit: NoteEdit,
    core_len: int,
    out: int,
    j: int,
) -> int
    decreases j,
{
    let here = track_at(c.vibrato_phase@, pos_num(j, core_len, out), pos_den(out));
    if j <= 0 {
        here
    } else {
        let before = track_at(c.vibrato_phase@, pos_num(j - 1, core_len, out), pos_den(out));
        vibrato_phase_at(c, edit, core_len, out, j - 1) + scaled(
            edit.vibrato_rate_scale as int,
            here - before,
        )
    }
}

/// The pitch that tracks and vibrato phase give at position `p / q`.
pub open spec fn pitch_at<F: Fn(i64, i128) -> i64>(
    c: NoteContour,
    edit: NoteEdit,
    f: F,
    p: int,
    q: int,
    phase: int,
) -> int {
    let center = match edit.target_cents {
        Some(t) => t as int,
        None => c.center_cents as int,
    };
    center + scaled(edit.drift_scale as int, track_at(c.drift@, p, q)) + swung(
        f,
        scaled(edit.vibrato_scale as int, track_at(c.vibrato_amp@, p, q)) as i64,
        phase as i128,
    ) + scaled(edit.drift_scale as int, track_at(c.residual@, p, q))
}

/// The pitch of core frame `j` of `out` frames.
pub open spec fn core_pitch<F: Fn(i64, i128) -> i64>(
    c: NoteContour,
    edit: NoteEdit,
    f: F,
    core_len: int,
    out: int,
    j: int,
) -> int {
    pitch_at(
        c,
        edit,
        f,
        pos_num(j, core_len, out),
        pos_den(out),
        vibrato_phase_at(c, edit, core_len, out, j),
    )
}

/// The pitch at which a note's core begins.
pub open spec fn entry_pitch<F: Fn(i64, i128) -> i64>(c: NoteContour, edit: NoteEdit, f: F) -> int {
    pitch_at(c, edit, f, 0, 1, track_at(c.vibrato_phase@, 0, 1))
}

/// The pitch of a glide from `start` to `entry` where its shape is at `p / q`.
pub open spec fn glide_pitch(
    c: NoteContour,
    edit: NoteEdit,
    start: int,
    entry: int,
    p: int,
    q: int,
) -> int {
    let along = held(
        start + rounded_quotient(
            track_at(c.onset_glide@, p, q) * (entry - start),
            c.onset_glide_span as int,
        ),
    );
    held(entry - scaled(edit.glide_scale as int, entry - along))
}

proof fn lemma_pitch_bound<F: Fn(i64, i128) -> i64>(
    c: NoteContour,
    edit: NoteEdit,
    f: F,
    p: int,
    q: int,
    phase: int,
)
    requires
        contour_ok(c),
        edit.ok(),
        is_swing(f),
        p >= 0,
        q > 0,
    ensures
        -4_000_000_000_000_000_000 <= pitch_at(c, edit, f, p, q, phase) <= 4_000_000_000_000_000_000,
        -1000 * TRACK_LIMIT <= scaled(
            edit.vibrato_scale as int,
            track_at(c.vibrato_amp@, p, q),
        ) <= 1000 * TRACK_LIMIT,
        -1000 * TRACK_LIMIT <= scaled(edit.drift_scale as int, track_at(c.drift@, p, q)) <= 1000
            * TRACK_LIMIT,
        -1000 * TRACK_LIMIT <= scaled(edit.drift_scale as int, track_at(c.residual@, p, q)) <= 1000
            * TRACK_LIMIT,
{
    let l = TRACK_LIMIT as int;
    lemma_track_at(c.drift@, p, q, l);
    lemma_track_at(c.vibrato_amp@, p, q, l);
    lemma_track_at(c.residual@, p, q, l);
    lemma_scaled(edit.drift_scale as int, track_at(c.drift@, p, q), l);
    lemma_scaled(edit.drift_scale as int, track_at(c.residual@, p, q), l);
    lemma_scaled(edit.vibrato_scale as int, track_at(c.vibrato_amp@, p, q), l);
    lemma_swung_bound(
        f,
        scaled(edit.vibrato_scale as int, track_at(c.vibrato_amp@, p, q)) as i64,
        phase as i128,
    );
}

/// The pitch that tracks and vibrato phase give at position `p / q`.
fn pitch_of<F: Fn(i64, i128) -> i64>(
    c: &NoteContour,
    edit: &NoteEdit,
    swing: &F,
    p: u64,
    q: u64,
    phase: i128,
) -> (cents: i64)
    requires
        contour_ok(*c),
        edit.ok(),
        is_swing(*swing),
        0 < q <= 0x100_0000_0000,
    ensures
        cents == pitch_at(*c, *edit, *swing, p as int, q as int, phase as int),
        -4_000_000_000_000_000_000 <= cents <= 4_000_000_000_000_000_000,
{
    proof {
        lemma_pitch_bound(*c, *edit, *swing, p as int, q as int, phase as int);
    }
    let center: i64 = match edit.target_cents {
        Some(t) => t,
        None => c.center_cents,
    };
    let drift: i128 = scale_by(
        edit.drift_scale,
        lerp_track(c.drift.as_slice(), p, q) as i128,
    );
    let amp: i128 = scale_by(
        edit.vibrato_scale,
        lerp_track(c.vibrato_amp.as_slice(), p, q) as i128,
    );
    let rest: i128 = scale_by(
        edit.drift_scale,
        lerp_track(c.residual.as_slice(), p, q) as i128,
    );
    let vibrato: i64 = swing(amp as i64, phase);
    assert(swung(*swing, amp as i64, phase) == vibrato);
    proof {
        lemma_swung_bound(*swing, amp as i64, phase);
    }
    center + drift as i64 + vibrato + rest as i64
}

/// The pitch of a glide where its shape is at `p / q`.
fn glide_pitch_of(
    c: &NoteContour,
    edit: &NoteEdit,
    start: i64,
    entry: i64,
    p: u64,
    q: u64,
) -> (cents: i64)
    requires
        contour_ok(*c),
        edit.ok(),
        -4_500_000_000_000_000_000 <= start <= 4_500_000_000_000_000_000,
        -4_500_000_000_000_000_000 <= entry <= 4_500_000_000_000_000_000,
        0 < q <= 0x100_0000_0000,
    ensures
        cents == glide_pitch(*c, *edit, start as int, entry as int, p as int, q as int),
{
    proof {
        lemma_track_at(c.onset_glide@, p as int, q as int, TRACK_LIMIT as int);
    }
    let shape: i128 = lerp_track(c.onset_glide.as_slice(), p, q) as i128;
    let rise: i128 = entry as i128 - start as i128;
    assert(-1_250_000_000_000_000 * 9_000_000_000_000_000_000 <= shape * rise
        <= 1_250_000_000_000_000 * 9_000_000_000_000_000_000) by (nonlinear_arith)
        requires
            -1_250_000_000_000_000 <= shape <= 1_250_000_000_000_000,
            -9_000_000_000_000_000_000 <= rise <= 9_000_000_000_000_000_000,
    ;
    let span: i128 = c.onset_glide_span as i128;
    let moved: i128 = round_div(shape * rise, span);
    proof {
        let big: int = 20_000_000_000_000_000_000_000_000_000_000_000;
        let x = shape * rise;
        assert(big <= big * span) by (nonlinear_arith)
            requires
                big >= 0,
                span >= 1,
        ;
        lemma_rounded_between(x, span as int, -big, big);
    }
    let along: i128 = hold_pitch(start as i128 + moved);
    proof {
        lemma_scaled(
            edit.glide_scale as int,
            entry - along,
            0x1_0000_0000_0000_0000_0000,
        );
    }
    let back: i128 = scale_by(edit.glide_scale, entry as i128 - along);
    hold_pitch(entry as i128 - back) as i64
}

/// A pitch held within the pitch ceiling.
fn hold_pitch(x: i128) -> (y: i128)
    ensures
        y == held(x as int),
{
    if x > PITCH_CEILING as i128 {
        PITCH_CEILING as i128
    } else if x < -(PITCH_CEILING as i128) {
        -(PITCH_CEILING as i128)
    } else {
        x
    }
}

// --- frames -----------------------------------------------------------------

/// What an output frame is made of.
#[derive(Clone, Copy, Debug, PartialEq, Eq, Structural)]
pub enum RenderedFrame {
    /// A source frame as it is.
    Kept(usize),
    /// Silence with the spectrum of a source frame.
    Silent(usize),
    /// Two source frames blended, `num / den` of the way from one to the other,
    /// at a pitch of its own. Voicing is that of the nearest of the two.
    Voiced { from: usize, to: usize, nearest: usize, num: u64, den: u64, cents: i64 },
}

/// The frame blended at position `p / q` of the `len` source frames from `base`.
pub open spec fn blended(base: int, len: int, p: int, q: int, cents: int) -> RenderedFrame {
    let i = min_of(p / q, len - 1);
    let k = min_of(i + 1, len - 1);
    RenderedFrame::Voiced {
        from: (base + i) as usize,
        to: (base + k) as usize,
        nearest: (base + (if 2 * (p % q) < q { i } else { k })) as usize,
        num: (p % q) as u64,
        den: q as u64,
        cents: cents as i64,
    }
}

/// The first edit of segment `i` from edit `k` on, or the one that changes nothing.
pub open spec fn edit_for(edits: Seq<NoteEdit>, i: usize, k: int) -> NoteEdit
    decreases edits.len() - k,
{
    if k < 0 || k >= edits.len() {
        identity_edit(i)
    } else if edits[k].segment_index == i {
        edits[k]
    } else {
        edit_for(edits, i, k + 1)
    }
}

/// The number of frames of a segment.
pub open spec fn source_len(seg: Segment) -> int {
    seg.frames.end - seg.frames.start
}

/// Whether a segment lies within `n` frames and its numbers fit the arithmetic.
pub open spec fn renderable(seg: Segment, n: int) -> bool {
    &&& seg.frames.start < seg.frames.end <= n
    &&& n <= MAX_FRAMES
    &&& match seg.kind {
        SegmentKind::Unvoiced => true,
        SegmentKind::Note(c) => contour_ok(c) && c.onset_glide@.len() < source_len(seg),
    }
}

/// Whether a segment lies within `n` frames and its numbers fit the arithmetic.
pub fn can_render(seg: &Segment, n: usize) -> (yes: bool)
    ensures
        yes == renderable(*seg, n as int),
{
    if n > MAX_FRAMES || seg.frames.start >= seg.frames.end || seg.frames.end > n {
        return false;
    }
    match &seg.kind {
        SegmentKind::Unvoiced => true,
        SegmentKind::Note(c) => {
            contour_fits(c) && c.onset_glide.len() < seg.frames.end - seg.frames.start
        },
    }
}

/// The number of frames that an unvoiced segment becomes.
pub open spec fn unvoiced_len(seg: Segment, edit: NoteEdit) -> int {
    match edit.out_len {
        Some(n) => n as int,
        None => source_len(seg),
    }
}

/// The number of frames that a segment becomes.
pub open spec fn output_len(seg: Segment, edit: NoteEdit) -> int {
    match seg.kind {
        SegmentKind::Unvoiced => unvoiced_len(seg, edit),
        SegmentKind::Note(c) => match render_lengths(
            source_len(seg),
            c.onset_glide@.len() as int,
            edit,
        ) {
            Some(l) => edit.lead_gap_frames + l.0 + l.1,
            None => 0,
        },
    }
}

/// The frames of an unvoiced segment.
pub open spec fn unvoiced_frames(seg: Segment, edit: NoteEdit) -> Seq<RenderedFrame> {
    let len = source_len(seg);
    let out = unvoiced_len(seg, edit);
    Seq::new(
        out as nat,
        |j: int|
            RenderedFrame::Kept(
                (seg.frames.start + min_of(pos_num(j, len, out) / pos_den(out), len - 1)) as usize,
            ),
    )
}

/// The silence before a note.
pub open spec fn gap_frames(seg: Segment, edit: NoteEdit) -> Seq<RenderedFrame> {
    Seq::new(edit.lead_gap_frames as nat, |j: int| RenderedFrame::Silent(seg.frames.start))
}

/// Where the onset glide of a note starts: at the exit of the note before it, or
/// else at its own depth from the entry.
pub open spec fn glide_start<F: Fn(i64, i128) -> i64>(
    c: NoteContour,
    edit: NoteEdit,
    f: F,
    exit: Option<i64>,
) -> int {
    if edit.lead_gap_frames == 0 && exit is Some {
        exit->0 as int
    } else {
        entry_pitch(c, edit, f) - c.onset_glide_depth_cents
    }
}

/// The glide frames of a note.
pub open spec fn glide_frames<F: Fn(i64, i128) -> i64>(
    seg: Segment,
    c: NoteContour,
    edit: NoteEdit,
    f: F,
    exit: Option<i64>,
    out: int,
) -> Seq<RenderedFrame> {
    let len = c.onset_glide@.len() as int;
    Seq::new(
        out as nat,
        |j: int|
            blended(
                seg.frames.start as int,
                len,
                pos_num(j, len, out),
                pos_den(out),
                glide_pitch(
                    c,
                    edit,
                    glide_start(c, edit, f, exit),
                    entry_pitch(c, edit, f),
                    pos_num(j, len, out),
                    pos_den(out),
                ),
            ),
    )
}

/// The core frames of a note.
pub open spec fn core_frames<F: Fn(i64, i128) -> i64>(
    seg: Segment,
    c: NoteContour,
    edit: NoteEdit,
    f: F,
    out: int,
) -> Seq<RenderedFrame> {
    let glide = c.onset_glide@.len() as int;
    let len = source_len(seg) - glide;
    Seq::new(
        out as nat,
        |j: int|
            blended(
                seg.frames.start + glide,
                len,
                pos_num(j, len, out),
                pos_den(out),
                core_pitch(c, edit, f, len, out, j),
            ),
    )
}

/// The frames of one segment after a segment that left at pitch `exit`, and the
/// pitch at which this one leaves.
pub open spec fn segment_frames<F: Fn(i64, i128) -> i64>(
    seg: Segment,
    edit: NoteEdit,
    f: F,
    exit: Option<i64>,
) -> (Seq<RenderedFrame>, Option<i64>) {
    match seg.kind {
        SegmentKind::Unvoiced => (unvoiced_frames(seg, edit), None),
        SegmentKind::Note(c) => {
            let glide = c.onset_glide@.len() as int;
            match render_lengths(source_len(seg), glide, edit) {
                None => (Seq::empty(), exit),
                Some(l) => (
                    gap_frames(seg, edit) + glide_frames(seg, c, edit, f, exit, l.0) + core_frames(
                        seg,
                        c,
                        edit,
                        f,
                        l.1,
                    ),
                    Some(core_pitch(c, edit, f, source_len(seg) - glide, l.1, l.1 - 1) as i64),
                ),
            }
        },
    }
}

/// The frames of the first `k` segments, and the pitch at which the last leaves.
pub open spec fn rendered<F: Fn(i64, i128) -> i64>(
    segments: Seq<Segment>,
    edits: Seq<NoteEdit>,
    f: F,
    k: int,
) -> (Seq<RenderedFrame>, Option<i64>)
    decreases k,
{
    if k <= 0 {
        (Seq::empty(), None)
    } else {
        let (before, exit) = rendered(segments, edits, f, k - 1);
        let (frames, left) = segment_frames(
            segments[k - 1],
            edit_for(edits, (k - 1) as usize, 0),
            f,
            exit,
        );
        (before + frames, left)
    }
}

/// The frames of the first `k` segments, counted.
pub open spec fn output_len_sum(segments: Seq<Segment>, edits: Seq<NoteEdit>, k: int) -> int
    decreases k,
{
    if k <= 0 {
        0
    } else {
        output_len_sum(segments, edits, k - 1) + output_len(
            segments[k - 1],
            edit_for(edits, (k - 1) as usize, 0),
        )
    }
}

/// Whether all edits fit the arithmetic.
pub open spec fn edits_ok(edits: Seq<NoteEdit>) -> bool {
    forall|i: int| 0 <= i < edits.len() ==> (#[trigger] edits[i]).ok()
}

proof fn lemma_edit_for_ok(edits: Seq<NoteEdit>, i: usize, k: int)
    requires
        edits_ok(edits),
    ensures
        edit_for(edits, i, k).ok(),
    decreases edits.len() - k,
{
    if 0 <= k < edits.len() && edits[k].segment_index != i {
        lemma_edit_for_ok(edits, i, k + 1);
    }
}

/// The number of frames that [`render`] makes of a segment, `None` being the
/// edit that changes nothing.
pub fn segment_output_len(seg: &Segment, edit: Option<&NoteEdit>) -> (len: usize)
    requires
        seg.frames.start < seg.frames.end <= MAX_FRAMES,
        seg.kind matches SegmentKind::Note(c) ==> c.onset_glide@.len() < source_len(*seg),
        edit matches Some(e) ==> e.ok(),
        output_len(
            *seg,
            match edit {
                Some(e) => *e,
                None => identity_edit(0),
            },
        ) <= usize::MAX,
    ensures
        len == output_len(
            *seg,
            match edit {
                Some(e) => *e,
                None => identity_edit(0),
            },
        ),
{
    let src_len: usize = seg.frames.end - seg.frames.start;
    let chosen: NoteEdit = match edit {
        Some(e) => *e,
        None => NoteEdit::identity(0),
    };
    match &seg.kind {
        SegmentKind::Unvoiced => match chosen.out_len {
            Some(n) => n,
            None => src_len,
        },
        SegmentKind::Note(c) => {
            proof {
                lemma_render_lengths(src_len as int, c.onset_glide@.len() as int, chosen);
            }
            match note_render_lengths(src_len, c.onset_glide.len(), &chosen) {
                Some(l) => chosen.lead_gap_frames + l.0 + l.1,
                None => 0,
            }
        },
    }
}

/// Whether the frames that a segment becomes can be counted.
pub fn output_fits(seg: &Segment, edit: &NoteEdit) -> (yes: bool)
    requires
        seg.frames.start < seg.frames.end <= MAX_FRAMES,
        seg.kind matches SegmentKind::Note(c) ==> c.onset_glide@.len() < source_len(*seg),
        edit.ok(),
    ensures
        yes == (output_len(*seg, *edit) <= usize::MAX),
{
    let src_len: usize = seg.frames.end - seg.frames.start;
    match &seg.kind {
        SegmentKind::Unvoiced => true,
        SegmentKind::Note(c) => {
            proof {
                lemma_render_lengths(src_len as int, c.onset_glide@.len() as int, *edit);
            }
            match find_lengths(src_len, c.onset_glide.len(), edit) {
                Some(l) => edit.lead_gap_frames as i128 + l.0 + l.1 as i128
                    <= usize::MAX as i128,
                None => true,
            }
        },
    }
}

/// Whether the frames that each segment becomes under the edits can be counted.
pub open spec fn outputs_ok(segments: Seq<Segment>, edits: Seq<NoteEdit>) -> bool {
    forall|i: int|
        0 <= i < segments.len() ==> output_len(
            #[trigger] segments[i],
            edit_for(edits, i as usize, 0),
        ) <= usize::MAX
}

/// Whether the frames that each segment becomes under the edits can be counted.
pub fn outputs_fit(segments: &[Segment], edits: &[NoteEdit], n: usize) -> (yes: bool)
    requires
        forall|i: int| 0 <= i < segments@.len() ==> renderable(#[trigger] segments@[i], n as int),
        edits_ok(edits@),
    ensures
        yes == outputs_ok(segments@, edits@),
{
    let mut k: usize = 0;
    while k < segments.len()
        invariant
            forall|i: int|
                0 <= i < segments@.len() ==> renderable(#[trigger] segments@[i], n as int),
            edits_ok(edits@),
            k <= segments@.len(),
            forall|i: int|
                0 <= i < k ==> output_len(
                    #[trigger] segments@[i],
                    edit_for(edits@, i as usize, 0),
                ) <= usize::MAX,
        decreases segments@.len() - k,
    {
        assert(renderable(segments@[k as int], n as int));
        let edit = find_edit(edits, k);
        if !output_fits(&segments[k], &edit) {
            assert(output_len(segments@[k as int], edit_for(edits@, k, 0)) > usize::MAX);
            return false;
        }
        k = k + 1;
    }
    true
}

proof fn lemma_moderate_glide(src_len: int, glide_len: int, total: int, scale: int)
    requires
        0 <= glide_len < src_len,
        total >= 1,
        scale <= 50 * UNIT,
    ensures
        scaled_glide(src_len, glide_len, total, scale) <= 50 * total,
{
    let whole = glide_len * total;
    assert(0 <= whole <= total * src_len) by (nonlinear_arith)
        requires
            whole == glide_len * total,
            0 <= glide_len < src_len,
            total >= 0,
    ;
    let a = (total - 1) * scale;
    let b = whole * scale;
    let d = src_len * UNIT;
    if scale >= 0 {
        assert(0 <= a <= (50 * total) * 1_000_000) by (nonlinear_arith)
            requires
                a == (total - 1) * scale,
                total >= 1,
                0 <= scale <= 50_000_000,
        ;
        lemma_rounded_bounds(a, UNIT as int, 50 * total);
        assert(0 <= b <= (50 * total) * d) by (nonlinear_arith)
            requires
                b == whole * scale,
                d == src_len * 1_000_000,
                0 <= whole <= total * src_len,
                0 <= scale <= 50_000_000,
                total >= 0,
                src_len > 0,
        ;
        lemma_rounded_bounds(b, d, 50 * total);
    } else {
        assert(a <= 0 && b <= 0) by (nonlinear_arith)
            requires
                a == (total - 1) * scale,
                b == whole * scale,
                total >= 1,
                whole >= 0,
                scale < 0,
        ;
        lemma_rounded_nonpositive(a, UNIT as int);
        lemma_rounded_nonpositive(b, d);
    }
}

/// Edits that make a glide at most fifty times as long always fit.
pub proof fn lemma_moderate_outputs_fit(seg: Segment, edit: NoteEdit)
    requires
        seg.frames.start < seg.frames.end <= MAX_FRAMES,
        seg.kind matches SegmentKind::Note(c) ==> c.onset_glide@.len() < source_len(seg),
        edit.ok(),
        edit.glide_time_scale <= 50 * UNIT,
    ensures
        output_len(seg, edit) <= usize::MAX,
{
    if let SegmentKind::Note(c) = seg.kind {
        let glide = c.onset_glide@.len() as int;
        lemma_render_lengths(source_len(seg), glide, edit);
        let total = unvoiced_len(seg, edit);
        if total >= 1 {
            lemma_moderate_glide(source_len(seg), glide, total, edit.glide_time_scale as int);
        }
    }
}

/// The first edit of segment `i`.
fn find_edit(edits: &[NoteEdit], i: usize) -> (edit: NoteEdit)
    requires
        edits_ok(edits@),
    ensures
        edit == edit_for(edits@, i, 0),
        edit.ok(),
{
    let mut k: usize = 0;
    while k < edits.len()
        invariant
            edits_ok(edits@),
            k <= edits@.len(),
            edit_for(edits@, i, 0) == edit_for(edits@, i, k as int),
        decreases edits@.len() - k,
    {
        if edits[k].segment_index == i {
            return edits[k];
        }
        k = k + 1;
    }
    NoteEdit::identity(i)
}

/// Where output frame `j` reads.
fn position(j: usize, src_len: usize, out_len: usize) -> (pos: (u64, u64))
    requires
        j < out_len <= 1000 * MAX_FRAMES,
        0 < src_len <= MAX_FRAMES,
    ensures
        pos.0 == pos_num(j as int, src_len as int, out_len as int),
        pos.1 == pos_den(out_len as int),
        0 < pos.1 <= 0x100_0000_0000,
        out_len >= 2 ==> pos.0 == j * (src_len - 1) && pos.1 == out_len - 1,
        out_len <= 1 ==> pos.0 == 0 && pos.1 == 1,
{
    if out_len <= 1 {
        (0, 1)
    } else {
        assert(0 <= j * (src_len - 1) <= 1000 * 0x400_0000 * 0x400_0000) by (nonlinear_arith)
            requires
                0 <= j <= 1000 * 0x400_0000,
                0 <= src_len - 1 <= 0x400_0000,
        ;
        (j as u64 * (src_len - 1) as u64, (out_len - 1) as u64)
    }
}

/// The frame blended at position `p / q` of the `len` source frames from `base`.
fn blend_frame(base: usize, len: usize, p: u64, q: u64, cents: i64) -> (frame: RenderedFrame)
    requires
        0 < len,
        base + len <= MAX_FRAMES,
        0 < q <= 0x100_0000_0000,
    ensures
        frame == blended(base as int, len as int, p as int, q as int, cents as int),
{
    let last: u64 = len as u64 - 1;
    let whole: u64 = p / q;
    let i: u64 = if whole < last { whole } else { last };
    let k: u64 = if i < last { i + 1 } else { last };
    let r: u64 = p % q;
    RenderedFrame::Voiced {
        from: base + i as usize,
        to: base + k as usize,
        nearest: base + (if 2 * r < q { i as usize } else { k as usize }),
        num: r,
        den: q,
        cents,
    }
}

/// Render an unvoiced segment.
fn render_unvoiced(output: &mut Vec<RenderedFrame>, seg: &Segment, edit: &NoteEdit)
    requires
        seg.frames.start < seg.frames.end <= MAX_FRAMES,
        edit.ok(),
    ensures
        final(output)@ == old(output)@ + unvoiced_frames(*seg, *edit),
{
    let start: usize = seg.frames.start;
    let src_len: usize = seg.frames.end - start;
    let out: usize = match edit.out_len {
        Some(n) => n,
        None => src_len,
    };
    let ghost before = output@;
    let ghost all = unvoiced_frames(*seg, *edit);
    let mut j: usize = 0;
    assert(before + all.take(0) =~= before);
    while j < out
        invariant
            start == seg.frames.start,
            start < seg.frames.end <= MAX_FRAMES,
            src_len == source_len(*seg),
            out == unvoiced_len(*seg, *edit),
            out <= MAX_FRAMES,
            all == unvoiced_frames(*seg, *edit),
            j <= out,
            output@ == before + all.take(j as int),
        decreases out - j,
    {
        let (p, q) = position(j, src_len, out);
        let whole: u64 = p / q;
        let last: u64 = src_len as u64 - 1;
        let i: u64 = if whole < last { whole } else { last };
        let frame = RenderedFrame::Kept(start + i as usize);
        assert(frame == all[j as int]);
        assert(before + all.take(j + 1) =~= output@.push(all[j as int]));
        output.push(frame);
        j = j + 1;
    }
    assert(all.take(j as int) =~= all);
}

/// Render the glide of a note.
fn render_glide<F: Fn(i64, i128) -> i64>(
    output: &mut Vec<RenderedFrame>,
    seg: &Segment,
    c: &NoteContour,
    edit: &NoteEdit,
    swing: &F,
    exit: Option<i64>,
    out: usize,
)
    requires
        seg.frames.start < seg.frames.end <= MAX_FRAMES,
        contour_ok(*c),
        c.onset_glide@.len() < source_len(*seg),
        edit.ok(),
        is_swing(*swing),
        exit matches Some(x) ==> -4_000_000_000_000_000_000 <= x <= 4_000_000_000_000_000_000,
        out <= 1000 * MAX_FRAMES,
        out > 0 ==> c.onset_glide@.len() > 0,
    ensures
        final(output)@ == old(output)@ + glide_frames(
            *seg,
            *c,
            *edit,
            *swing,
            exit,
            out as int,
        ),
{
    let phase: i64 = lerp_track(c.vibrato_phase.as_slice(), 0, 1);
    let entry: i64 = pitch_of(c, edit, swing, 0, 1, phase as i128);
    let start: i64 = match exit {
        Some(x) => if edit.lead_gap_frames == 0 { x } else { entry - c.onset_glide_depth_cents },
        None => entry - c.onset_glide_depth_cents,
    };
    assert(start == glide_start(*c, *edit, *swing, exit));
    let len: usize = c.onset_glide.len();
    let ghost before = output@;
    let ghost all = glide_frames(*seg, *c, *edit, *swing, exit, out as int);
    let mut j: usize = 0;
    assert(before + all.take(0) =~= before);
    while j < out
        invariant
            seg.frames.start < seg.frames.end <= MAX_FRAMES,
            contour_ok(*c),
            len == c.onset_glide@.len(),
            0 < out ==> 0 < len,
            len < source_len(*seg),
            edit.ok(),
            is_swing(*swing),
            out <= 1000 * MAX_FRAMES,
            entry == entry_pitch(*c, *edit, *swing),
            start == glide_start(*c, *edit, *swing, exit),
            -4_500_000_000_000_000_000 <= start <= 4_500_000_000_000_000_000,
            -4_500_000_000_000_000_000 <= entry <= 4_500_000_000_000_000_000,
            all == glide_frames(*seg, *c, *edit, *swing, exit, out as int),
            j <= out,
            output@ == before + all.take(j as int),
        decreases out - j,
    {
        let (p, q) = position(j, len, out);
        let cents: i64 = glide_pitch_of(c, edit, start, entry, p, q);
        let frame = blend_frame(seg.frames.start, len, p, q, cents);
        assert(frame == all[j as int]);
        assert(before + all.take(j + 1) =~= output@.push(all[j as int]));
        output.push(frame);
        j = j + 1;
    }
    assert(all.take(j as int) =~= all);
}

/// Render the core of a note; gives the pitch at which it leaves.
fn render_core<F: Fn(i64, i128) -> i64>(
    output: &mut Vec<RenderedFrame>,
    seg: &Segment,
    c: &NoteContour,
    edit: &NoteEdit,
    swing: &F,
    out: usize,
) -> (left: i64)
    requires
        seg.frames.start < seg.frames.end <= MAX_FRAMES,
        contour_ok(*c),
        c.onset_glide@.len() < source_len(*seg),
        edit.ok(),
        is_swing(*swing),
        0 < out <= MAX_FRAMES,
    ensures
        final(output)@ == old(output)@ + core_frames(*seg, *c, *edit, *swing, out as int),
        left == core_pitch(
            *c,
            *edit,
            *swing,
            source_len(*seg) - c.onset_glide@.len(),
            out as int,
            out - 1,
        ),
        -4_000_000_000_000_000_000 <= left <= 4_000_000_000_000_000_000,
{
    let glide: usize = c.onset_glide.len();
    let len: usize = seg.frames.end - seg.frames.start - glide;
    let base: usize = seg.frames.start + glide;
    let ghost before = output@;
    let ghost all = core_frames(*seg, *c, *edit, *swing, out as int);
    let mut left: i64 = 0;
    let mut phi: i128 = 0;
    let mut prev: i64 = 0;
    let mut j: usize = 0;
    assert(before + all.take(0) =~= before);
    while j < out
        invariant
            contour_ok(*c),
            edit.ok(),
            is_swing(*swing),
            glide == c.onset_glide@.len(),
            seg.frames.start < seg.frames.end <= MAX_FRAMES,
            base == seg.frames.start + glide,
            len == source_len(*seg) - glide,
            0 < len <= MAX_FRAMES,
            base + len <= MAX_FRAMES,
            0 < out <= MAX_FRAMES,
            all == core_frames(*seg, *c, *edit, *swing, out as int),
            j <= out,
            output@ == before + all.take(j as int),
            j > 0 ==> prev == track_at(
                c.vibrato_phase@,
                pos_num(j - 1, len as int, out as int),
                pos_den(out as int),
            ),
            j > 0 ==> phi == vibrato_phase_at(*c, *edit, len as int, out as int, j - 1),
            -((j + 1) * 0x800_0000_0000_0000_0000) <= phi <= (j + 1) * 0x800_0000_0000_0000_0000,
            j > 0 ==> left == core_pitch(
                *c,
                *edit,
                *swing,
                len as int,
                out as int,
                j - 1,
            ),
            -4_000_000_000_000_000_000 <= left <= 4_000_000_000_000_000_000,
        decreases out - j,
    {
        let (p, q) = position(j, len, out);
        let here: i64 = lerp_track(c.vibrato_phase.as_slice(), p, q);
        if j == 0 {
            phi = here as i128;
        } else {
            proof {
                lemma_scaled(
                    edit.vibrato_rate_scale as int,
                    here - prev,
                    0x1_0000_0000_0000_0000,
                );
            }
            phi = phi + scale_by(edit.vibrato_rate_scale, here as i128 - prev as i128);
        }
        prev = here;
        left = pitch_of(c, edit, swing, p, q, phi);
        let frame = blend_frame(base, len, p, q, left);
        assert(frame == all[j as int]);
        assert(before + all.take(j + 1) =~= output@.push(all[j as int]));
        output.push(frame);
        j = j + 1;
    }
    assert(all.take(j as int) =~= all);
    left
}

/// Render the silence before a note.
fn render_gap(output: &mut Vec<RenderedFrame>, seg: &Segment, edit: &NoteEdit)
    ensures
        final(output)@ == old(output)@ + gap_frames(*seg, *edit),
{
    let ghost before = output@;
    let ghost all = gap_frames(*seg, *edit);
    let mut j: usize = 0;
    assert(before + all.take(0) =~= before);
    while j < edit.lead_gap_frames
        invariant
            all == gap_frames(*seg, *edit),
            j <= edit.lead_gap_frames,
            output@ == before + all.take(j as int),
        decreases edit.lead_gap_frames - j,
    {
        assert(before + all.take(j + 1) =~= output@.push(all[j as int]));
        output.push(RenderedFrame::Silent(seg.frames.start));
        j = j + 1;
    }
    assert(all.take(j as int) =~= all);
}

/// Render the segments of a contour of `frames` under `edits`.
pub fn render<F: Fn(i64, i128) -> i64>(
    frames: &[Frame],
    segments: &[Segment],
    edits: &[NoteEdit],
    swing: F,
) -> (output: Vec<RenderedFrame>)
    requires
        forall|i: int|
            0 <= i < segments@.len() ==> renderable(
                #[trigger] segments@[i],
                frames@.len() as int,
            ),
        edits_ok(edits@),
        outputs_ok(segments@, edits@),
        is_swing(swing),
    ensures
        output@ == rendered(segments@, edits@, swing, segments@.len() as int).0,
{
    let mut output: Vec<RenderedFrame> = Vec::new();
    let mut exit: Option<i64> = None;
    let mut k: usize = 0;
    while k < segments.len()
        invariant
            forall|i: int|
                0 <= i < segments@.len() ==> renderable(
                    #[trigger] segments@[i],
                    frames@.len() as int,
                ),
            edits_ok(edits@),
            outputs_ok(segments@, edits@),
            is_swing(swing),
            k <= segments@.len(),
            output@ == rendered(segments@, edits@, swing, k as int).0,
            exit == rendered(segments@, edits@, swing, k as int).1,
            exit matches Some(x) ==> -4_000_000_000_000_000_000 <= x <= 4_000_000_000_000_000_000,
        decreases segments@.len() - k,
    {
        let seg = &segments[k];
        assert(renderable(*seg, frames@.len() as int));
        let edit = find_edit(edits, k);
        let ghost before = output@;
        match &seg.kind {
            SegmentKind::Unvoiced => {
                render_unvoiced(&mut output, seg, &edit);
                exit = None;
            },
            SegmentKind::Note(c) => {
                let src_len: usize = seg.frames.end - seg.frames.start;
                proof {
                    lemma_render_lengths(src_len as int, c.onset_glide@.len() as int, edit);
                }
                match note_render_lengths(src_len, c.onset_glide.len(), &edit) {
                    Some(l) => {
                        render_gap(&mut output, seg, &edit);
                        render_glide(&mut output, seg, c, &edit, &swing, exit, l.0);
                        let left: i64 = render_core(&mut output, seg, c, &edit, &swing, l.1);
                        proof {
                            let (fs, _) = segment_frames(*seg, edit, swing, exit);
                            assert(output@ =~= before + fs);
                        }
                        exit = Some(left);
                    },
                    None => {
                        assert(before + Seq::<RenderedFrame>::empty() =~= before);
                    },
                }
            },
        }
        k = k + 1;
    }
    output
}

// --- laws -------------------------------------------------------------------

/// The rendered frames are as many as `segment_output_len` counts.
pub proof fn lemma_render_length<F: Fn(i64, i128) -> i64>(
    segments: Seq<Segment>,
    edits: Seq<NoteEdit>,
    f: F,
    n: int,
    k: int,
)
    requires
        forall|i: int| 0 <= i < segments.len() ==> renderable(#[trigger] segments[i], n),
        edits_ok(edits),
        0 <= k <= segments.len(),
    ensures
        rendered(segments, edits, f, k).0.len() == output_len_sum(segments, edits, k),
    decreases k,
{
    if k > 0 {
        lemma_render_length(segments, edits, f, n, k - 1);
        let seg = segments[k - 1];
        assert(renderable(seg, n));
        let edit = edit_for(edits, (k - 1) as usize, 0);
        lemma_edit_for_ok(edits, (k - 1) as usize, 0);
        if let SegmentKind::Note(c) = seg.kind {
            lemma_render_lengths(source_len(seg), c.onset_glide@.len() as int, edit);
        }
    }
}

} // verus!
