//! Comparison of per-frame features with a table of reference features.

use crate::num::abs_of;
use vstd::prelude::*;

verus! {

/// The features of one frame; the pitch in nanohertz, zero for none.
#[derive(Clone, Copy, Debug, PartialEq, Eq, Structural)]
pub struct FrameFeatures {
    pub silence: bool,
    pub fo: i64,
    pub voiced: bool,
}

/// One row of a table: a frame and its reference features.
#[derive(Clone, Copy, Debug, PartialEq, Eq, Structural)]
pub struct Row {
    pub frame: usize,
    pub features: FrameFeatures,
}

/// How many rows were compared, and how many agreed.
#[derive(Clone, Copy, Debug, PartialEq, Eq, Structural)]
pub struct Tally {
    pub total: usize,
    pub silence_match: usize,
    pub voiced_match: usize,
    /// Pitches within two percent of the reference, or both without a pitch.
    pub fo_close: usize,
    /// Rows in which both have a pitch.
    pub fo_compared: usize,
}

/// Whether two pitches are close: within two percent of the reference, or both
/// none.
pub open spec fn close(reference: int, ours: int) -> bool {
    if reference > 0 && ours > 0 {
        50 * abs_of(reference - ours) < reference
    } else {
        reference == 0 && ours == 0
    }
}

/// How many of the first `k` rows name a frame and satisfy `p`.
pub open spec fn count_rows(
    rows: Seq<Row>,
    frames: Seq<FrameFeatures>,
    p: spec_fn(FrameFeatures, FrameFeatures) -> bool,
    k: int,
) -> int
    decreases k,
{
    if k <= 0 {
        0
    } else {
        let row = rows[k - 1];
        count_rows(rows, frames, p, k - 1) + (if row.frame < frames.len() && p(
            row.features,
            frames[row.frame as int],
        ) {
            1int
        } else {
            0
        })
    }
}

/// Every row that names a frame.
pub open spec fn any_row() -> spec_fn(FrameFeatures, FrameFeatures) -> bool {
    |reference: FrameFeatures, ours: FrameFeatures| true
}

/// Rows that agree on silence.
pub open spec fn same_silence() -> spec_fn(FrameFeatures, FrameFeatures) -> bool {
    |reference: FrameFeatures, ours: FrameFeatures| reference.silence == ours.silence
}

/// Rows that agree on voicing.
pub open spec fn same_voicing() -> spec_fn(FrameFeatures, FrameFeatures) -> bool {
    |reference: FrameFeatures, ours: FrameFeatures| reference.voiced == ours.voiced
}

/// Rows whose pitches are close.
pub open spec fn close_pitch() -> spec_fn(FrameFeatures, FrameFeatures) -> bool {
    |reference: FrameFeatures, ours: FrameFeatures| close(reference.fo as int, ours.fo as int)
}

/// Rows in which both have a pitch.
pub open spec fn both_pitched() -> spec_fn(FrameFeatures, FrameFeatures) -> bool {
    |reference: FrameFeatures, ours: FrameFeatures| reference.fo > 0 && ours.fo > 0
}

/// Whether a tally counts the first `k` rows.
pub open spec fn tallies(t: Tally, rows: Seq<Row>, frames: Seq<FrameFeatures>, k: int) -> bool {
    &&& t.total == count_rows(rows, frames, any_row(), k)
    &&& t.silence_match == count_rows(rows, frames, same_silence(), k)
    &&& t.voiced_match == count_rows(rows, frames, same_voicing(), k)
    &&& t.fo_close == count_rows(rows, frames, close_pitch(), k)
    &&& t.fo_compared == count_rows(rows, frames, both_pitched(), k)
}

/// Two pitches are close when ours lies above 98 and below 102 hundredths of the
/// reference; where one of them is no pitch, when both are zero.
pub proof fn lemma_close_is_within_two_percent(reference: int, ours: int)
    ensures
        reference > 0 && ours > 0 ==> (close(reference, ours) <==> 98 * reference < 100 * ours
            && 100 * ours < 102 * reference),
        reference <= 0 || ours <= 0 ==> (close(reference, ours) <==> reference == 0 && ours == 0),
{
}

/// Closeness does not depend on the side: as far above the reference as below it, two
/// pitches are close or not alike. It depends on proportions alone: pitches that are both
/// `k` times as high are as close.
pub proof fn lemma_close_is_symmetric(reference: int, gap: int, k: int)
    requires
        0 <= gap < reference,
        k > 0,
    ensures
        close(reference, reference + gap) == close(reference, reference - gap),
        close(reference, reference),
        close(k * reference, k * (reference + gap)) == close(reference, reference + gap),
        close(k * reference, k * (reference - gap)) == close(reference, reference - gap),
{
    let up = reference + gap;
    let down = reference - gap;
    assert(k * up == k * reference + k * gap && k * down == k * reference - k * gap)
        by (nonlinear_arith)
        requires
            up == reference + gap,
            down == reference - gap,
    ;
    assert(k * reference > 0 && k * down > 0 && k * gap >= 0 && k * up > 0) by (nonlinear_arith)
        requires
            k > 0,
            reference > 0,
            down > 0,
            gap >= 0,
            up > 0,
    ;
    assert(50 * gap < reference <==> 50 * (k * gap) < k * reference) by (nonlinear_arith)
        requires
            k > 0,
    ;
}

/// What one more row adds to the counts. A row of a frame that is not there adds nothing.
/// Any other adds one to the total, one to the matches of each flag on which reference and
/// frame agree, one to the pitches compared where both have one, and one to the close
/// pitches where both lie within two percent or neither has a pitch.
pub proof fn lemma_one_more_row(
    rows: Seq<Row>,
    frames: Seq<FrameFeatures>,
    k: int,
    before: Tally,
    after: Tally,
)
    requires
        0 <= k < rows.len(),
        tallies(before, rows, frames, k),
        tallies(after, rows, frames, k + 1),
    ensures
        rows[k].frame >= frames.len() ==> after == before,
        rows[k].frame < frames.len() ==> {
            let r = rows[k].features;
            let f = frames[rows[k].frame as int];
            &&& after.total == before.total + 1
            &&& after.silence_match == before.silence_match + (if r.silence == f.silence {
                1int
            } else {
                0
            })
            &&& after.voiced_match == before.voiced_match + (if r.voiced == f.voiced {
                1int
            } else {
                0
            })
            &&& after.fo_compared == before.fo_compared + (if r.fo > 0 && f.fo > 0 {
                1int
            } else {
                0
            })
            &&& r.fo > 0 && f.fo > 0 ==> after.fo_close == before.fo_close + (if 98 * r.fo < 100
                * f.fo && 100 * f.fo < 102 * r.fo {
                1int
            } else {
                0
            })
            &&& r.fo <= 0 || f.fo <= 0 ==> after.fo_close == before.fo_close + (if r.fo == 0
                && f.fo == 0 {
                1int
            } else {
                0
            })
        },
{
}

/// Without a row nothing is counted.
pub proof fn lemma_no_rows(rows: Seq<Row>, frames: Seq<FrameFeatures>, t: Tally)
    requires
        tallies(t, rows, frames, 0),
    ensures
        t == (Tally {
            total: 0,
            silence_match: 0,
            voiced_match: 0,
            fo_close: 0,
            fo_compared: 0,
        }),
{
}

/// Compare rows of reference features with the features of frames. Rows of frames
/// that do not exist are left out.
pub fn compare_features(rows: &[Row], frames: &[FrameFeatures]) -> (t: Tally)
    ensures
        tallies(t, rows@, frames@, rows@.len() as int),
{
    let mut t = Tally {
        total: 0,
        silence_match: 0,
        voiced_match: 0,
        fo_close: 0,
        fo_compared: 0,
    };
    let mut k: usize = 0;
    while k < rows.len()
        invariant
            k <= rows@.len(),
            tallies(t, rows@, frames@, k as int),
            t.total <= k,
            t.silence_match <= k,
            t.voiced_match <= k,
            t.fo_close <= k,
            t.fo_compared <= k,
        decreases rows@.len() - k,
    {
        let row = rows[k];
        if row.frame < frames.len() {
            let r = row.features;
            let f = frames[row.frame];
            t.total = t.total + 1;
            if r.silence == f.silence {
                t.silence_match = t.silence_match + 1;
            }
            if r.voiced == f.voiced {
                t.voiced_match = t.voiced_match + 1;
            }
            if r.fo > 0 && f.fo > 0 {
                t.fo_compared = t.fo_compared + 1;
                let gap: i64 = if r.fo > f.fo { r.fo - f.fo } else { f.fo - r.fo };
                if 50 * gap as i128 <= r.fo as i128 - 1 {
                    t.fo_close = t.fo_close + 1;
                }
            } else if r.fo == 0 && f.fo == 0 {
                t.fo_close = t.fo_close + 1;
            }
        }
        k = k + 1;
    }
    t
}

/// No count is above the number of rows compared.
pub proof fn lemma_counts_bounded(
    rows: Seq<Row>,
    frames: Seq<FrameFeatures>,
    p: spec_fn(FrameFeatures, FrameFeatures) -> bool,
    k: int,
)
    ensures
        0 <= count_rows(rows, frames, p, k) <= count_rows(rows, frames, any_row(), k),
    decreases k,
{
    if k > 0 {
        lemma_counts_bounded(rows, frames, p, k - 1);
    }
}

// --- rows as text -----------------------------------------------------------

/// The comma.
pub const COMMA: u8 = 44;

/// Whether the spans are the fields of a line: they follow one another with a comma
/// between, cover the line, and hold no comma.
pub open spec fn are_fields(line: Seq<u8>, spans: Seq<(usize, usize)>) -> bool {
    &&& spans.len() > 0
    &&& spans[0].0 == 0
    &&& spans[spans.len() - 1].1 == line.len()
    &&& forall|i: int|
        0 <= i < spans.len() ==> (#[trigger] spans[i]).0 <= spans[i].1 <= line.len()
    &&& forall|i: int, j: int|
        0 <= i && j == i + 1 && j < spans.len() ==> (#[trigger] spans[j]).0 == (
        #[trigger] spans[i]).1 + 1 && line[spans[i].1 as int] == COMMA
    &&& forall|i: int, p: int|
        0 <= i < spans.len() && (#[trigger] spans[i]).0 <= p < spans[i].1 ==> #[trigger] line[p]
            != COMMA
}

/// Split a line at its commas.
pub fn split_fields(line: &[u8]) -> (spans: Vec<(usize, usize)>)
    ensures
        are_fields(line@, spans@),
{
    let mut spans: Vec<(usize, usize)> = Vec::new();
    let mut start: usize = 0;
    let mut p: usize = 0;
    while p < line.len()
        invariant
            start <= p <= line@.len(),
            spans@.len() == 0 ==> start == 0,
            spans@.len() > 0 ==> {
                &&& spans@[0].0 == 0
                &&& spans@[spans@.len() - 1].1 + 1 == start
                &&& line@[start - 1] == COMMA
            },
            forall|i: int|
                0 <= i < spans@.len() ==> (#[trigger] spans@[i]).0 <= spans@[i].1 <= line@.len(),
            forall|i: int, j: int|
                0 <= i && j == i + 1 && j < spans@.len() ==> (#[trigger] spans@[j]).0 == (
                #[trigger] spans@[i]).1 + 1 && line@[spans@[i].1 as int] == COMMA,
            forall|i: int, q: int|
                0 <= i < spans@.len() && (#[trigger] spans@[i]).0 <= q < spans@[i].1
                    ==> #[trigger] line@[q] != COMMA,
            forall|q: int| start <= q < p ==> #[trigger] line@[q] != COMMA,
        decreases line@.len() - p,
    {
        if line[p] == COMMA {
            spans.push((start, p));
            start = p + 1;
        }
        p = p + 1;
    }
    spans.push((start, line.len()));
    spans
}

proof fn lemma_field_ends(
    line: Seq<u8>,
    a: Seq<(usize, usize)>,
    b: Seq<(usize, usize)>,
    i: int,
)
    requires
        are_fields(line, a),
        are_fields(line, b),
        0 <= i < a.len(),
        i < b.len(),
        a[i].0 == b[i].0,
    ensures
        a[i].1 <= b[i].1,
{
    if b[i].1 < a[i].1 {
        if i + 1 < b.len() {
            let j = i + 1;
            assert(b[j].0 == b[i].1 + 1);
            assert(line[b[i].1 as int] == COMMA);
            assert(a[i].0 <= b[i].1 < a[i].1);
            assert(line[b[i].1 as int] != COMMA);
        }
    }
}

proof fn lemma_fields_agree(
    line: Seq<u8>,
    a: Seq<(usize, usize)>,
    b: Seq<(usize, usize)>,
    i: int,
)
    requires
        are_fields(line, a),
        are_fields(line, b),
        0 <= i < a.len(),
    ensures
        i < b.len(),
        a[i] == b[i],
    decreases i,
{
    if i > 0 {
        lemma_fields_agree(line, a, b, i - 1);
        let h = i - 1;
        assert(a[i].0 == a[h].1 + 1 && line[a[h].1 as int] == COMMA);
        if i >= b.len() {
            assert(b[h].1 == line.len());
            assert(a[i].0 <= a[i].1);
        } else {
            assert(b[i].0 == b[h].1 + 1);
        }
    }
    lemma_field_ends(line, a, b, i);
    lemma_field_ends(line, b, a, i);
}

/// A line has only one split into fields.
pub proof fn lemma_fields_unique(
    line: Seq<u8>,
    a: Seq<(usize, usize)>,
    b: Seq<(usize, usize)>,
)
    requires
        are_fields(line, a),
        are_fields(line, b),
    ensures
        a == b,
{
    lemma_fields_agree(line, a, b, a.len() - 1);
    lemma_fields_agree(line, b, a, b.len() - 1);
    assert forall|i: int| 0 <= i < a.len() implies a[i] == b[i] by {
        lemma_fields_agree(line, a, b, i);
    }
    assert(a =~= b);
}

/// Whether every byte is a decimal digit.
pub open spec fn all_digits(text: Seq<u8>) -> bool {
    forall|i: int| 0 <= i < text.len() ==> 48 <= #[trigger] text[i] <= 57
}

/// The number that digits stand for.
pub open spec fn digits_value(text: Seq<u8>) -> int
    decreases text.len(),
{
    if text.len() == 0 {
        0
    } else {
        10 * digits_value(text.drop_last()) + (text.last() - 48)
    }
}

/// The digits of a number, without the plus sign that it may begin with.
pub open spec fn unsigned_part(text: Seq<u8>) -> Seq<u8> {
    if text.len() > 0 && text[0] == 43 { text.skip(1) } else { text }
}

/// The index that a field stands for: digits, with a plus sign or none, of a number
/// that fits.
pub open spec fn index_of(text: Seq<u8>) -> Option<int> {
    let digits = unsigned_part(text);
    if digits.len() > 0 && all_digits(digits) && digits_value(digits) <= usize::MAX {
        Some(digits_value(digits))
    } else {
        None
    }
}

proof fn lemma_value_grows(text: Seq<u8>, k: int)
    requires
        all_digits(text),
        0 <= k <= text.len(),
    ensures
        0 <= digits_value(text.take(k)) <= digits_value(text),
    decreases text.len(),
{
    if k == text.len() {
        assert(text.take(k) =~= text);
        if text.len() > 0 {
            assert(all_digits(text.drop_last()));
            lemma_value_grows(text.drop_last(), text.len() - 1);
            assert(text.drop_last().take(text.len() - 1) =~= text.drop_last());
        }
    } else {
        assert(all_digits(text.drop_last()));
        lemma_value_grows(text.drop_last(), k);
        assert(text.drop_last().take(k) =~= text.take(k));
    }
}

proof fn lemma_one_more_digit(digits: Seq<u8>, k: int)
    requires
        0 <= k < digits.len(),
        all_digits(digits.take(k)),
        48 <= digits[k] <= 57,
    ensures
        all_digits(digits.take(k + 1)),
        digits_value(digits.take(k + 1)) == 10 * digits_value(digits.take(k)) + (digits[k] - 48),
{
    let now = digits.take(k + 1);
    assert(now.drop_last() =~= digits.take(k));
    assert(now.last() == digits[k]);
    assert forall|i: int| 0 <= i < now.len() implies 48 <= #[trigger] now[i] <= 57 by {
        if i < k {
            assert(digits.take(k)[i] == now[i]);
        }
    }
}

/// Read the index that a field stands for.
pub fn parse_index(text: &[u8]) -> (index: Option<usize>)
    ensures
        match index {
            Some(v) => index_of(text@) == Some(v as int),
            None => index_of(text@) is None,
        },
{
    let start: usize = if text.len() > 0 && text[0] == 43 { 1 } else { 0 };
    let ghost digits = unsigned_part(text@);
    if start >= text.len() {
        return None;
    }
    let mut value: u128 = 0;
    let mut p: usize = start;
    assert(digits.take(0) =~= Seq::empty());
    while p < text.len()
        invariant
            start <= p <= text@.len(),
            start < text@.len(),
            digits == unsigned_part(text@),
            digits.len() == text@.len() - start,
            forall|i: int| 0 <= i < digits.len() ==> digits[i] == text@[i + start],
            all_digits(digits.take(p - start)),
            value == digits_value(digits.take(p - start)),
            value <= usize::MAX,
        decreases text@.len() - p,
    {
        let b: u8 = text[p];
        assert(digits[p - start] == b);
        if b < 48 || b > 57 {
            return None;
        }
        proof {
            lemma_one_more_digit(digits, p - start);
        }
        value = 10 * value + (b - 48) as u128;
        if value > usize::MAX as u128 {
            proof {
                if all_digits(digits) {
                    lemma_value_grows(digits, p + 1 - start);
                }
            }
            return None;
        }
        p = p + 1;
    }
    assert(digits.take(p - start) =~= digits);
    Some(value as usize)
}

/// One row of a table as it is read: the frame, the two flags, and where the text of
/// the pitch begins and ends in the line.
#[derive(Clone, Copy, Debug, PartialEq, Eq, Structural)]
pub struct RawRow {
    pub frame: usize,
    pub silence: bool,
    pub voiced: bool,
    pub fo_start: usize,
    pub fo_end: usize,
}

/// The text of a field.
pub open spec fn field_text(line: Seq<u8>, span: (usize, usize)) -> Seq<u8> {
    line.subrange(span.0 as int, span.1 as int)
}

/// Whether a flag is set: its text is the digit one.
pub open spec fn is_set(text: Seq<u8>) -> bool {
    text == seq![49u8]
}

/// The row that the fields of a line make: frame, silence, pitch, voicing. There is
/// none with fewer than four fields or without an index in the first.
pub open spec fn row_of(line: Seq<u8>, spans: Seq<(usize, usize)>) -> Option<RawRow> {
    if spans.len() < 4 {
        None
    } else {
        match index_of(field_text(line, spans[0])) {
            None => None,
            Some(frame) => Some(
                RawRow {
                    frame: frame as usize,
                    silence: is_set(field_text(line, spans[1])),
                    voiced: is_set(field_text(line, spans[3])),
                    fo_start: spans[2].0,
                    fo_end: spans[2].1,
                },
            ),
        }
    }
}

/// Whether a flag is set.
fn flag_set(line: &[u8], span: (usize, usize)) -> (yes: bool)
    requires
        span.0 <= span.1 <= line@.len(),
    ensures
        yes == is_set(field_text(line@, span)),
{
    let ghost text = field_text(line@, span);
    let yes: bool = span.1 - span.0 == 1 && line[span.0] == 49;
    proof {
        if yes {
            assert(text =~= seq![49u8]);
        } else if is_set(text) {
            assert(text.len() == 1 && text[0] == 49);
        }
    }
    yes
}

/// Read one row of a table.
pub fn parse_row(line: &[u8]) -> (row: Option<RawRow>)
    ensures
        exists|spans: Seq<(usize, usize)>| #[trigger]
            are_fields(line@, spans) && row == row_of(line@, spans),
        row matches Some(r) ==> r.fo_start <= r.fo_end <= line@.len(),
{
    let spans: Vec<(usize, usize)> = split_fields(line);
    assert(are_fields(line@, spans@));
    if spans.len() < 4 {
        return None;
    }
    let first: (usize, usize) = spans[0];
    let second: (usize, usize) = spans[1];
    let third: (usize, usize) = spans[2];
    let fourth: (usize, usize) = spans[3];
    match parse_index(vstd::slice::slice_subrange(line, first.0, first.1)) {
        None => None,
        Some(frame) => Some(
            RawRow {
                frame,
                silence: flag_set(line, second),
                voiced: flag_set(line, fourth),
                fo_start: third.0,
                fo_end: third.1,
            },
        ),
    }
}

/// The index of a quantile, in percent, among `len` sorted values.
pub fn quantile_index(len: usize, percent: u8) -> (i: usize)
    requires
        len > 0,
        percent <= 100,
    ensures
        i == (len - 1) * percent / 100,
        i < len,
{
    assert(0 <= (len - 1) * percent <= (len - 1) * 100) by (nonlinear_arith)
        requires
            len >= 1,
            0 <= percent <= 100,
    ;
    ((len - 1) as u128 * percent as u128 / 100) as usize
}

// --- laws of the table ------------------------------------------------------

/// The value of digits is that of the first ones, moved by as many tens as others follow, and the
/// value of those.
pub proof fn lemma_digits_in_two(a: Seq<u8>, b: Seq<u8>)
    ensures
        digits_value(a + b) == digits_value(a) * vstd::arithmetic::power::pow(10, b.len())
            + digits_value(b),
    decreases b.len(),
{
    if b.len() == 0 {
        assert(a + b =~= a);
        vstd::arithmetic::power::lemma_pow0(10);
        assert(digits_value(a) * 1 == digits_value(a));
    } else {
        let c = b.drop_last();
        lemma_digits_in_two(a, c);
        assert((a + b).drop_last() =~= a + c);
        assert((a + b).last() == b.last());
        vstd::arithmetic::power::lemma_pow_adds(10, c.len(), 1);
        vstd::arithmetic::power::lemma_pow1(10);
        let p = vstd::arithmetic::power::pow(10, c.len());
        let v = digits_value(a);
        assert(v * (p * 10) == 10 * (v * p)) by (nonlinear_arith);
    }
}

/// An index that is written in decimal reads back, with a plus sign before it or without.
pub proof fn lemma_index_reads_back(n: int, text: Seq<u8>)
    requires
        0 <= n <= usize::MAX,
        text.len() == crate::text::decimal(n).len(),
        forall|i: int|
            0 <= i < text.len() ==> #[trigger] text[i] == crate::text::decimal(n)[i] as int,
    ensures
        index_of(text) == Some(n),
        index_of(seq![43u8] + text) == Some(n),
{
    crate::text::lemma_decimal_reads_back(n);
    lemma_digits_as_text(text, crate::text::decimal(n));
    assert forall|i: int| 0 <= i < text.len() implies 48 <= #[trigger] text[i] <= 57 by {
        assert('0' <= crate::text::decimal(n)[i] <= '9');
    }
    assert(48 <= text[0] <= 57);
    assert((seq![43u8] + text).skip(1) =~= text);
}

proof fn lemma_digits_as_text(text: Seq<u8>, s: Seq<char>)
    requires
        text.len() == s.len(),
        forall|i: int| 0 <= i < text.len() ==> #[trigger] text[i] == s[i] as int,
    ensures
        digits_value(text) == crate::text::read_digits(s),
    decreases text.len(),
{
    if text.len() > 0 {
        let t = text.drop_last();
        let u = s.drop_last();
        assert forall|i: int| 0 <= i < t.len() implies #[trigger] t[i] == u[i] as int by {
            assert(text[i] == s[i] as int);
        }
        lemma_digits_as_text(t, u);
        assert(text[text.len() - 1] == s[s.len() - 1] as int);
    }
}

/// A field that is empty, a plus sign alone, or holds anything but digits after an optional plus
/// sign is no index.
pub proof fn lemma_not_an_index(text: Seq<u8>, i: int)
    requires
        text.len() == 0 || text == seq![43u8] || (0 <= i < text.len() && (text[i] < 48 || text[i]
            > 57) && !(i == 0 && text[0] == 43)),
    ensures
        index_of(text) is None,
{
    if text == seq![43u8] {
        assert(text.skip(1).len() == 0);
    } else if text.len() > 0 {
        let digits = unsigned_part(text);
        if text[0] == 43 {
            assert(digits[i - 1] == text[i]);
        } else {
            assert(digits[i] == text[i]);
        }
    }
}

proof fn lemma_field_at(line: Seq<u8>, spans: Seq<(usize, usize)>, i: int, p: int, q: int)
    requires
        are_fields(line, spans),
        0 <= i < spans.len(),
        spans[i].0 == p,
        p <= q <= line.len(),
        forall|k: int| p <= k < q ==> #[trigger] line[k] != 44,
        q < line.len() ==> line[q] == 44,
    ensures
        spans[i].1 == q,
        q < line.len() ==> i + 1 < spans.len() && spans[i + 1].0 == q + 1,
        q == line.len() ==> i + 1 == spans.len(),
{
    let e = spans[i].1 as int;
    let j = i + 1;
    if j < spans.len() {
        assert(spans[j].0 == e + 1 && line[e] == COMMA);
        assert(spans[j].0 <= spans[j].1);
    } else {
        assert(e == line.len());
    }
    if e < q {
        assert(line[e] != 44);
    }
    if e > q {
        assert(spans[i].0 <= q < spans[i].1);
        assert(line[q] != COMMA);
    }
}

/// A line is read by its first four fields: the frame's index, the silence flag, the pitch and the
/// voicing flag, with commas between; whatever comes after a comma behind them makes no difference.
/// A flag is set by the digit one alone. Without an index in the first field there is no row.
pub proof fn lemma_row_reads_fields(
    index: Seq<u8>,
    silence: Seq<u8>,
    fo: Seq<u8>,
    voiced: Seq<u8>,
    rest: Seq<u8>,
    line: Seq<u8>,
    spans: Seq<(usize, usize)>,
)
    requires
        !index.contains(44u8),
        !silence.contains(44u8),
        !fo.contains(44u8),
        !voiced.contains(44u8),
        rest.len() == 0 || rest[0] == 44,
        line == index + seq![44u8] + silence + seq![44u8] + fo + seq![44u8] + voiced + rest,
        line.len() <= usize::MAX,
        are_fields(line, spans),
    ensures
        index_of(index) is None ==> row_of(line, spans) is None,
        index_of(index) matches Some(n) ==> {
            &&& row_of(line, spans) matches Some(r) && {
                &&& r.frame == n
                &&& r.silence <==> silence == seq![49u8]
                &&& r.voiced <==> voiced == seq![49u8]
                &&& line.subrange(r.fo_start as int, r.fo_end as int) == fo
            }
        },
{
    let a = index.len() as int;
    let b = a + 1 + silence.len();
    let c = b + 1 + fo.len();
    let d = c + 1 + voiced.len();
    assert forall|k: int| 0 <= k < a implies #[trigger] line[k] != 44 by {
        assert(line[k] == index[k]);
        assert(index.contains(index[k]));
    }
    assert(line[a] == 44);
    lemma_field_at(line, spans, 0, 0, a);
    assert forall|k: int| a + 1 <= k < b implies #[trigger] line[k] != 44 by {
        assert(line[k] == silence[k - a - 1]);
        assert(silence.contains(silence[k - a - 1]));
    }
    assert(line[b] == 44);
    lemma_field_at(line, spans, 1, a + 1, b);
    assert forall|k: int| b + 1 <= k < c implies #[trigger] line[k] != 44 by {
        assert(line[k] == fo[k - b - 1]);
        assert(fo.contains(fo[k - b - 1]));
    }
    assert(line[c] == 44);
    lemma_field_at(line, spans, 2, b + 1, c);
    assert forall|k: int| c + 1 <= k < d implies #[trigger] line[k] != 44 by {
        assert(line[k] == voiced[k - c - 1]);
        assert(voiced.contains(voiced[k - c - 1]));
    }
    if rest.len() > 0 {
        assert(line[d] == rest[0]);
    }
    lemma_field_at(line, spans, 3, c + 1, d);
    if index_of(index) is Some {
        lemma_value_grows(unsigned_part(index), 0);
    }
    assert(line.subrange(0, a) =~= index);
    assert(line.subrange(a + 1, b) =~= silence);
    assert(line.subrange(b + 1, c) =~= fo);
    assert(line.subrange(c + 1, d) =~= voiced);
}

} // verus!
