//! What stretching and shortening do: which source frames each output frame reads, and
//! where on a track it reads its values.

use crate::contour::{NoteContour, MAX_FRAMES};
use crate::num::{lemma_rounded_quotient, rounded_quotient};
use crate::render::{
    blended, core_frames, glide_frames, pos_den, pos_num, scaled, source_len, track_at,
    unvoiced_frames, unvoiced_len, NoteEdit, RenderedFrame, UNIT,
};
use crate::segment::Segment;
use vstd::prelude::*;

verus! {

/// The positions at which output frames read are spread evenly over the source: the first
/// is the first source frame, the last is the last, and each is
/// `(src_len - 1) / (out_len - 1)` after the one before. A single output frame reads the
/// first.
pub proof fn lemma_positions_are_even(j: int, src_len: int, out_len: int)
    ensures
        out_len >= 2 ==> {
            &&& pos_den(out_len) == out_len - 1
            &&& pos_num(0, src_len, out_len) == 0
            &&& pos_num(out_len - 1, src_len, out_len) == (src_len - 1) * pos_den(out_len)
            &&& pos_num(j + 1, src_len, out_len) - pos_num(j, src_len, out_len) == src_len - 1
        },
        out_len <= 1 ==> pos_num(j, src_len, out_len) == 0 && pos_den(out_len) == 1,
{
    assert((out_len - 1) * (src_len - 1) == (src_len - 1) * (out_len - 1)) by (nonlinear_arith);
    assert((j + 1) * (src_len - 1) - j * (src_len - 1) == src_len - 1) by (nonlinear_arith);
    assert(0 * (src_len - 1) == 0);
}

/// Whether `frame` is output frame `j` of `out` that `len` source frames from `base` on
/// are stretched to, as far as the frames that it reads go: it stands
/// `j / (out - 1)` of the way from the first source frame to the last, between two
/// neighbours, and its voicing is that of the nearer one.
pub open spec fn reads_evenly(
    frame: RenderedFrame,
    base: int,
    len: int,
    out: int,
    j: int,
) -> bool {
    frame matches RenderedFrame::Voiced { from, to, nearest, num, den, cents } && {
        &&& 0 <= num < den
        &&& base <= from <= to <= base + len - 1
        &&& from < base + len - 1 ==> to == from + 1
        &&& nearest == (if 2 * num < den { from } else { to })
        &&& out >= 2 ==> den == out - 1 && (from - base) * (out - 1) + num == j * (len - 1)
        &&& out == 1 ==> from == base && num == 0
    }
}

proof fn lemma_within(j: int, len: int, out: int, i: int, r: int)
    requires
        0 <= j <= out - 1,
        1 <= len,
        2 <= out,
        j * (len - 1) == i * (out - 1) + r,
        0 <= r < out - 1,
    ensures
        0 <= i <= len - 1,
        i == len - 1 ==> r == 0,
        j == out - 1 ==> i == len - 1 && r == 0,
        j == 0 ==> i == 0 && r == 0,
{
    let x = j * (len - 1);
    let d = out - 1;
    assert(0 <= x <= d * (len - 1)) by (nonlinear_arith)
        requires
            x == j * (len - 1),
            0 <= j <= d,
            1 <= len,
    ;
    assert(i >= 0) by (nonlinear_arith)
        requires
            x == i * d + r,
            x >= 0,
            r < d,
            d >= 1,
    ;
    assert(i <= len - 1) by (nonlinear_arith)
        requires
            x == i * d + r,
            x <= d * (len - 1),
            r >= 0,
            d >= 1,
    ;
    assert(i == len - 1 ==> r == 0) by (nonlinear_arith)
        requires
            x == i * d + r,
            x <= d * (len - 1),
            0 <= r,
    ;
    if j == out - 1 {
        assert(i == len - 1 && r == 0) by (nonlinear_arith)
            requires
                x == i * d + r,
                x == d * (len - 1),
                0 <= r < d,
        ;
    }
    if j == 0 {
        assert(i == 0 && r == 0) by (nonlinear_arith)
            requires
                0 == i * d + r,
                0 <= r < d,
                i >= 0,
        ;
    }
}

proof fn lemma_blended_reads(base: int, len: int, out: int, j: int, cents: int)
    requires
        0 <= base,
        1 <= len,
        base + len <= MAX_FRAMES,
        0 <= j < out <= 1000 * MAX_FRAMES,
    ensures
        reads_evenly(
            blended(base, len, pos_num(j, len, out), pos_den(out), cents),
            base,
            len,
            out,
            j,
        ),
{
    let p = pos_num(j, len, out);
    let q = pos_den(out);
    lemma_positions_are_even(j, len, out);
    vstd::arithmetic::div_mod::lemma_fundamental_div_mod(p, q);
    let i = p / q;
    let r = p % q;
    assert(q * i == i * q) by (nonlinear_arith);
    if out >= 2 {
        lemma_within(j, len, out, i, r);
    }
    let frame = blended(base, len, p, q, cents);
    if let RenderedFrame::Voiced { from, to, nearest, num, den, cents } = frame {
        assert(from == base + i && num == r && den == q);
    }
}

/// The core frames of a note read its core evenly: the first reads the first core frame,
/// the last the last frame of the note, and those between go on by equal steps.
pub proof fn lemma_core_reads_evenly<F: Fn(i64, i128) -> i64>(
    seg: Segment,
    c: NoteContour,
    edit: NoteEdit,
    f: F,
    out: int,
    j: int,
)
    requires
        seg.frames.start + c.onset_glide@.len() < seg.frames.end <= MAX_FRAMES,
        0 <= j < out <= 1000 * MAX_FRAMES,
    ensures
        ({
            let frames = core_frames(seg, c, edit, f, out);
            let base = seg.frames.start + c.onset_glide@.len();
            let len = seg.frames.end - base;
            &&& frames.len() == out
            &&& reads_evenly(frames[j], base, len, out, j)
            &&& (frames[0] matches RenderedFrame::Voiced { from, num, .. } && from == base && num
                == 0)
            &&& out >= 2 ==> (frames[out - 1] matches RenderedFrame::Voiced { from, num, .. }
                && from == seg.frames.end - 1 && num == 0)
        }),
{
    let base = seg.frames.start + c.onset_glide@.len();
    let len = seg.frames.end - base;
    let frames = core_frames(seg, c, edit, f, out);
    lemma_blended_reads(base, len, out, j, crate::render::core_pitch(c, edit, f, len, out, j));
    lemma_blended_reads(base, len, out, 0, crate::render::core_pitch(c, edit, f, len, out, 0));
    lemma_blended_reads(
        base,
        len,
        out,
        out - 1,
        crate::render::core_pitch(c, edit, f, len, out, out - 1),
    );
    if out >= 2 {
        if let RenderedFrame::Voiced { from, num, .. } = frames[0] {
            assert(0 * (len - 1) == 0);
            lemma_within(0, len, out, from - base, num as int);
        }
        if let RenderedFrame::Voiced { from, num, .. } = frames[out - 1] {
            lemma_within(out - 1, len, out, from - base, num as int);
        }
    }
}

/// The glide frames of a note read its glide evenly: the first reads the first frame of
/// the note, the last the last frame of the glide, and those between go on by equal
/// steps.
pub proof fn lemma_glide_reads_evenly<F: Fn(i64, i128) -> i64>(
    seg: Segment,
    c: NoteContour,
    edit: NoteEdit,
    f: F,
    exit: Option<i64>,
    out: int,
    j: int,
)
    requires
        seg.frames.start + c.onset_glide@.len() <= MAX_FRAMES,
        c.onset_glide@.len() > 0,
        0 <= j < out <= 1000 * MAX_FRAMES,
    ensures
        ({
            let frames = glide_frames(seg, c, edit, f, exit, out);
            let base = seg.frames.start as int;
            let len = c.onset_glide@.len() as int;
            &&& frames.len() == out
            &&& reads_evenly(frames[j], base, len, out, j)
            &&& (frames[0] matches RenderedFrame::Voiced { from, num, .. } && from == base && num
                == 0)
            &&& out >= 2 ==> (frames[out - 1] matches RenderedFrame::Voiced { from, num, .. }
                && from == base + len - 1 && num == 0)
        }),
{
    let base = seg.frames.start as int;
    let len = c.onset_glide@.len() as int;
    let frames = glide_frames(seg, c, edit, f, exit, out);
    let start = crate::render::glide_start(c, edit, f, exit);
    let entry = crate::render::entry_pitch(c, edit, f);
    let q = pos_den(out);
    lemma_blended_reads(
        base,
        len,
        out,
        j,
        crate::render::glide_pitch(c, edit, start, entry, pos_num(j, len, out), q),
    );
    lemma_blended_reads(
        base,
        len,
        out,
        0,
        crate::render::glide_pitch(c, edit, start, entry, pos_num(0, len, out), q),
    );
    lemma_blended_reads(
        base,
        len,
        out,
        out - 1,
        crate::render::glide_pitch(c, edit, start, entry, pos_num(out - 1, len, out), q),
    );
    if out >= 2 {
        if let RenderedFrame::Voiced { from, num, .. } = frames[0] {
            assert(0 * (len - 1) == 0);
            lemma_within(0, len, out, from - base, num as int);
        }
        if let RenderedFrame::Voiced { from, num, .. } = frames[out - 1] {
            lemma_within(out - 1, len, out, from - base, num as int);
        }
    }
}

/// The frames of an unvoiced segment are source frames as they are, spread evenly: output
/// frame `j` of `out` is the last source frame at or before `j / (out - 1)` of the way,
/// so that the ends meet the ends.
pub proof fn lemma_unvoiced_reads_evenly(seg: Segment, edit: NoteEdit, j: int)
    requires
        seg.frames.start < seg.frames.end <= MAX_FRAMES,
        edit.out_len matches Some(n) ==> n <= MAX_FRAMES,
        0 <= j < (match edit.out_len {
            Some(n) => n as int,
            None => seg.frames.end - seg.frames.start,
        }),
    ensures
        ({
            let frames = unvoiced_frames(seg, edit);
            let len = seg.frames.end - seg.frames.start;
            let out = frames.len() as int;
            &&& out == (match edit.out_len {
                Some(n) => n as int,
                None => len,
            })
            &&& frames[j] matches RenderedFrame::Kept(i) && {
                &&& seg.frames.start <= i < seg.frames.end
                &&& out >= 2 ==> (i - seg.frames.start) * (out - 1) <= j * (len - 1) < (i
                    - seg.frames.start + 1) * (out - 1)
                &&& j == 0 ==> i == seg.frames.start
                &&& out >= 2 && j == out - 1 ==> i == seg.frames.end - 1
                &&& edit.out_len is None ==> i == seg.frames.start + j
            }
        }),
{
    let len = source_len(seg);
    let out = unvoiced_len(seg, edit);
    let p = pos_num(j, len, out);
    let q = pos_den(out);
    lemma_positions_are_even(j, len, out);
    vstd::arithmetic::div_mod::lemma_fundamental_div_mod(p, q);
    let i = p / q;
    let r = p % q;
    assert(q * i == i * q) by (nonlinear_arith);
    if out >= 2 {
        lemma_within(j, len, out, i, r);
        assert(i * q <= p < (i + 1) * q) by (nonlinear_arith)
            requires
                p == i * q + r,
                0 <= r < q,
        ;
        if out == len {
            assert(i == j) by (nonlinear_arith)
                requires
                    j * q == i * q + r,
                    0 <= r < q,
            ;
        }
    }
}

// --- tracks -----------------------------------------------------------------

/// Between two samples of a track its value is the nearest one to the straight line that
/// joins them; at and beyond its last sample it is that sample, and an empty track is zero
/// everywhere.
pub proof fn lemma_track_is_linear(track: Seq<i64>, i: int, r: int, q: int)
    requires
        0 <= i,
        0 <= r < q,
    ensures
        i + 1 < track.len() ==> -q <= 2 * (track[i] * (q - r) + track[i + 1] * r - q * track_at(
            track,
            i * q + r,
            q,
        )) < q,
        i < track.len() && r == 0 ==> track_at(track, i * q + r, q) == track[i],
        0 < track.len() <= i + 1 ==> track_at(track, i * q + r, q) == track[track.len() - 1],
        track.len() == 0 ==> track_at(track, i * q + r, q) == 0,
{
    let p = i * q + r;
    assert(p == q * i + r) by (nonlinear_arith)
        requires
            p == i * q + r,
    ;
    vstd::arithmetic::div_mod::lemma_fundamental_div_mod_converse(p, q, i, r);
    if track.len() > 0 {
        let last = track.len() - 1;
        let a = (if i <= last { track[i] } else { track[last] }) as int;
        let b = (if i + 1 <= last { track[i + 1] } else { track[last] }) as int;
        let x = a * (q - r) + b * r;
        lemma_rounded_quotient(x, q, a);
        assert(rounded_quotient(x, q) * q == q * rounded_quotient(x, q)) by (nonlinear_arith);
        if r == 0 || a == b {
            assert(x == a * q) by (nonlinear_arith)
                requires
                    x == a * (q - r) + b * r,
                    r == 0 || a == b,
            ;
        }
    }
}

/// Whether `y` is `scale` millionths of `x`, to the nearest integer.
pub open spec fn is_scaled(scale: int, x: int, y: int) -> bool {
    -1_000_000 <= 2 * (scale * x - 1_000_000 * y) < 1_000_000
}

/// A scaled value is in proportion to its scale.
pub proof fn lemma_scaled_in_proportion(scale: int, x: int)
    ensures
        is_scaled(scale, x, scaled(scale, x)),
{
    lemma_rounded_quotient(scale * x, UNIT as int, 0);
}

} // verus!
