//! What files made of chunks read as.

use crate::wav::{
    format_at, is_riff, named, next_chunk, reads_as, u32_at, walk, Chunks, Format, WavData, WavError,
    WavSamples,
};
use vstd::prelude::*;

verus! {

/// A chunk: its name, its size as four bytes, low byte first, its body, and what pads it
/// to an even length.
pub struct Chunk {
    pub name: Seq<u8>,
    pub size: Seq<u8>,
    pub body: Seq<u8>,
    pub pad: Seq<u8>,
}

impl Chunk {
    /// Whether the chunk is well-formed: the size is that of the body, and one byte of any
    /// value pads a body of odd length.
    pub open spec fn wf(self) -> bool {
        &&& self.name.len() == 4
        &&& self.size.len() == 4
        &&& self.body.len() == self.size[0] + 256 * self.size[1] + 65_536 * self.size[2]
            + 16_777_216 * self.size[3]
        &&& self.pad.len() == self.body.len() % 2
    }

    /// The bytes of the chunk.
    pub open spec fn bytes(self) -> Seq<u8> {
        self.name + self.size + self.body + self.pad
    }

    /// Whether it is a format chunk.
    pub open spec fn is_fmt(self) -> bool {
        self.name == seq![102u8, 109, 116, 32]
    }

    /// Whether it is a data chunk.
    pub open spec fn is_data(self) -> bool {
        self.name == seq![100u8, 97, 116, 97]
    }
}

/// The bytes of the first `k` chunks.
pub open spec fn content(chunks: Seq<Chunk>, k: int) -> Seq<u8>
    decreases k,
{
    if k <= 0 {
        Seq::empty()
    } else {
        content(chunks, k - 1) + chunks[k - 1].bytes()
    }
}

/// Whether all chunks are well-formed, and format chunks long enough to hold a format.
pub open spec fn all_wf(chunks: Seq<Chunk>) -> bool {
    forall|i: int|
        0 <= i < chunks.len() ==> (#[trigger] chunks[i]).wf() && (chunks[i].is_fmt()
            ==> chunks[i].body.len() >= 16)
}

/// The first twelve bytes of a file, with a size that nothing depends on.
pub open spec fn file_head(size: Seq<u8>) -> Seq<u8> {
    seq![82u8, 73, 70, 70] + size + seq![87u8, 65, 86, 69]
}

/// The bytes of a file: head, chunks, and what follows them.
pub open spec fn file(size: Seq<u8>, chunks: Seq<Chunk>, rest: Seq<u8>) -> Seq<u8> {
    file_head(size) + content(chunks, chunks.len() as int) + rest
}

/// Where chunk `k` of a file begins.
pub open spec fn chunk_start(chunks: Seq<Chunk>, k: int) -> int {
    12int + content(chunks, k).len()
}

proof fn lemma_content_grows(chunks: Seq<Chunk>, k: int, n: int)
    requires
        0 <= k <= n,
    ensures
        content(chunks, k).len() <= content(chunks, n).len(),
        content(chunks, n).subrange(0, content(chunks, k).len() as int) == content(chunks, k),
    decreases n - k,
{
    let a = content(chunks, k);
    if k < n {
        lemma_content_grows(chunks, k, n - 1);
        let m = content(chunks, n - 1);
        assert(content(chunks, n).subrange(0, a.len() as int) =~= m.subrange(0, a.len() as int));
    } else {
        assert(a.subrange(0, a.len() as int) =~= a);
    }
}

/// A chunk stands in the file where those before it end.
proof fn lemma_chunk_in_file(size: Seq<u8>, chunks: Seq<Chunk>, rest: Seq<u8>, k: int)
    requires
        size.len() == 4,
        0 <= k < chunks.len(),
        chunks[k].wf(),
    ensures
        ({
            let b = file(size, chunks, rest);
            let p = chunk_start(chunks, k);
            let c = chunks[k];
            &&& chunk_start(chunks, k + 1) == p + 8 + c.body.len() + c.body.len() % 2
            &&& chunk_start(chunks, k + 1) + rest.len() <= b.len()
            &&& b.subrange(p, p + 4) == c.name
            &&& b.subrange(p + 4, p + 8) == c.size
            &&& b.subrange(p + 8, p + 8 + c.body.len()) == c.body
            &&& u32_at(b, p + 4) == c.body.len()
        }),
{
    let b = file(size, chunks, rest);
    let p = chunk_start(chunks, k);
    let c = chunks[k];
    let n = chunks.len() as int;
    let all = content(chunks, n);
    let upto = content(chunks, k + 1);
    lemma_content_grows(chunks, k + 1, n);
    let q = p - 12;
    let own = c.bytes();
    assert(upto == content(chunks, k) + own);
    assert(own.len() == 8 + c.body.len() + c.body.len() % 2);
    assert forall|i: int| 0 <= i < own.len() implies #[trigger] b[p + i] == own[i] by {
        assert(b[p + i] == all[q + i]);
        assert(all.subrange(0, upto.len() as int)[q + i] == all[q + i]);
        assert(upto[q + i] == own[i]);
    }
    assert(b.subrange(p, p + 4) =~= c.name) by {
        assert forall|i: int| 0 <= i < 4 implies b.subrange(p, p + 4)[i] == c.name[i] by {
            assert(b[p + i] == own[i]);
        }
    }
    assert(b.subrange(p + 4, p + 8) =~= c.size) by {
        assert forall|i: int| 0 <= i < 4 implies b.subrange(p + 4, p + 8)[i] == c.size[i] by {
            assert(b[p + (4 + i)] == own[4 + i]);
        }
    }
    assert(b.subrange(p + 8, p + 8 + c.body.len()) =~= c.body) by {
        assert forall|i: int| 0 <= i < c.body.len() implies b.subrange(
            p + 8,
            p + 8 + c.body.len(),
        )[i] == c.body[i] by {
            assert(b[p + (8 + i)] == own[8 + i]);
        }
    }
    assert(b[p + 4] == own[4] && b[p + 5] == own[5] && b[p + 6] == own[6] && b[p + 7] == own[7]);
}

/// The walk goes on at the end of each chunk, whatever it is: eight bytes of name and size,
/// the body, and its padding later. It keeps the last format chunk and the last data chunk.
pub proof fn lemma_walk_goes_on(
    size: Seq<u8>,
    chunks: Seq<Chunk>,
    rest: Seq<u8>,
    k: int,
    fmt: Option<Format>,
    data: Option<(int, int)>,
)
    requires
        size.len() == 4,
        all_wf(chunks),
        0 <= k < chunks.len(),
    ensures
        ({
            let b = file(size, chunks, rest);
            let p = chunk_start(chunks, k);
            let c = chunks[k];
            let next = p + 8 + c.body.len() + c.body.len() % 2;
            &&& next == chunk_start(chunks, k + 1)
            &&& c.is_fmt() ==> walk(b, p, fmt, data) == walk(
                b,
                next,
                Some(format_at(b, p + 8)),
                data,
            )
            &&& c.is_data() ==> walk(b, p, fmt, data) == walk(
                b,
                next,
                fmt,
                Some((p + 8, c.body.len() as int)),
            )
            &&& !c.is_fmt() && !c.is_data() ==> walk(b, p, fmt, data) == walk(b, next, fmt, data)
        }),
{
    let b = file(size, chunks, rest);
    let p = chunk_start(chunks, k);
    let c = chunks[k];
    assert(c.wf());
    lemma_chunk_in_file(size, chunks, rest, k);
    assert(next_chunk(b, p) == p + 8 + c.body.len() + c.body.len() % 2);
    let f = seq![102u8, 109, 116, 32];
    let d = seq![100u8, 97, 116, 97];
    assert(f[0] != d[0]);
}

/// The last of the first `k` chunks that is a format chunk.
spec fn last_fmt(chunks: Seq<Chunk>, k: int) -> int
    decreases k,
{
    if k <= 0 {
        -1
    } else if chunks[k - 1].is_fmt() {
        k - 1
    } else {
        last_fmt(chunks, k - 1)
    }
}

/// The last of the first `k` chunks that is a data chunk.
spec fn last_data(chunks: Seq<Chunk>, k: int) -> int
    decreases k,
{
    if k <= 0 {
        -1
    } else if chunks[k - 1].is_data() {
        k - 1
    } else {
        last_data(chunks, k - 1)
    }
}

proof fn lemma_lasts(chunks: Seq<Chunk>, k: int)
    requires
        0 <= k <= chunks.len(),
    ensures
        -1 <= last_fmt(chunks, k) < k,
        -1 <= last_data(chunks, k) < k,
        last_fmt(chunks, k) >= 0 ==> chunks[last_fmt(chunks, k)].is_fmt(),
        last_data(chunks, k) >= 0 ==> chunks[last_data(chunks, k)].is_data(),
        forall|i: int| last_fmt(chunks, k) < i < k ==> !(#[trigger] chunks[i]).is_fmt(),
        forall|i: int| last_data(chunks, k) < i < k ==> !(#[trigger] chunks[i]).is_data(),
    decreases k,
{
    if k > 0 {
        lemma_lasts(chunks, k - 1);
    }
}

spec fn fmt_found(b: Seq<u8>, chunks: Seq<Chunk>, k: int) -> Option<Format> {
    let i = last_fmt(chunks, k);
    if i < 0 { None } else { Some(format_at(b, chunk_start(chunks, i) + 8)) }
}

spec fn data_found(chunks: Seq<Chunk>, k: int) -> Option<(int, int)> {
    let i = last_data(chunks, k);
    if i < 0 { None } else { Some((chunk_start(chunks, i) + 8, chunks[i].body.len() as int)) }
}

proof fn lemma_walk_chunks(size: Seq<u8>, chunks: Seq<Chunk>, rest: Seq<u8>, k: int)
    requires
        size.len() == 4,
        all_wf(chunks),
        0 <= k <= chunks.len(),
    ensures
        ({
            let b = file(size, chunks, rest);
            walk(b, 12, None, None) == walk(
                b,
                chunk_start(chunks, k),
                fmt_found(b, chunks, k),
                data_found(chunks, k),
            )
        }),
    decreases k,
{
    if k > 0 {
        let b = file(size, chunks, rest);
        lemma_walk_chunks(size, chunks, rest, k - 1);
        lemma_walk_goes_on(
            size,
            chunks,
            rest,
            k - 1,
            fmt_found(b, chunks, k - 1),
            data_found(chunks, k - 1),
        );
        let f = seq![102u8, 109, 116, 32];
        let d = seq![100u8, 97, 116, 97];
        assert(f[0] != d[0]);
    }
}

proof fn lemma_file_is_riff(size: Seq<u8>, chunks: Seq<Chunk>, rest: Seq<u8>)
    requires
        size.len() == 4,
    ensures
        is_riff(file(size, chunks, rest)),
{
    let b = file(size, chunks, rest);
    let head = file_head(size);
    assert(head.len() == 12);
    assert(b.subrange(0, 4) =~= seq![82u8, 73, 70, 70]);
    assert(b.subrange(8, 12) =~= seq![87u8, 65, 86, 69]);
}

/// The number of two bytes, low byte first.
pub open spec fn pair(b: Seq<u8>, o: int) -> int {
    b[o] + 256 * b[o + 1]
}

/// The number of four bytes, low byte first.
pub open spec fn quad(b: Seq<u8>, o: int) -> int {
    b[o] + 256 * b[o + 1] + 65_536 * b[o + 2] + 16_777_216 * b[o + 3]
}

/// What a file is read as whose last format chunk holds `fmt` and whose last data chunk
/// holds `data`. The format is PCM of 16 or 8 bits or float of 32 bits, on one channel;
/// each sample is made of its own bytes, low byte first, and those of 16 bits are in two's
/// complement.
pub open spec fn sounds_as(fmt: Seq<u8>, data: Seq<u8>, r: Result<WavData, WavError>) -> bool {
    let tag = pair(fmt, 0);
    let channels = pair(fmt, 2);
    let bits = pair(fmt, 14);
    match r {
        Err(WavError::NotMono { channels: n }) => channels != 1 && n == channels,
        Err(WavError::Unsupported { format, bits: n }) => {
            &&& channels == 1
            &&& format == tag
            &&& n == bits
            &&& !(tag == 1 && bits == 16)
            &&& !(tag == 1 && bits == 8)
            &&& !(tag == 3 && bits == 32)
        },
        Err(_) => false,
        Ok(w) => {
            &&& channels == 1
            &&& w.sample_rate == quad(fmt, 4)
            &&& match w.samples {
                WavSamples::Pcm16(v) => {
                    &&& tag == 1 && bits == 16
                    &&& v@.len() == data.len() / 2
                    &&& forall|i: int|
                        0 <= i < v@.len() ==> {
                            let x = pair(data, 2 * i);
                            #[trigger] v@[i] == (if x >= 32_768 { x - 65_536 } else { x })
                        }
                },
                WavSamples::Pcm8(v) => tag == 1 && bits == 8 && v@ == data,
                WavSamples::Float32(v) => {
                    &&& tag == 3 && bits == 32
                    &&& v@.len() == data.len() / 4
                    &&& forall|i: int|
                        0 <= i < v@.len() ==> #[trigger] v@[i] == quad(data, 4 * i)
                },
            }
        },
    }
}

proof fn lemma_reads(
    b: Seq<u8>,
    r: Result<WavData, WavError>,
    fo: int,
    fmt: Seq<u8>,
    off: int,
    data: Seq<u8>,
)
    requires
        is_riff(b),
        reads_as(b, r),
        0 <= fo,
        0 <= off,
        fmt.len() >= 16,
        fo + fmt.len() <= b.len(),
        off + data.len() <= b.len(),
        b.subrange(fo, fo + fmt.len()) == fmt,
        b.subrange(off, off + data.len()) == data,
        walk(b, 12, None, None) == Chunks::Found(
            Some(format_at(b, fo)),
            Some((off, data.len() as int)),
        ),
    ensures
        sounds_as(fmt, data, r),
{
    assert(fmt[0] == b[fo] && fmt[1] == b[fo + 1] && fmt[2] == b[fo + 2] && fmt[3] == b[fo + 3]
        && fmt[4] == b[fo + 4] && fmt[5] == b[fo + 5] && fmt[6] == b[fo + 6] && fmt[7] == b[fo + 7]
        && fmt[14] == b[fo + 14] && fmt[15] == b[fo + 15]);
    if let Ok(w) = r {
        match w.samples {
            WavSamples::Pcm16(v) => {
                assert forall|i: int| 0 <= i < v@.len() implies {
                    let x = pair(data, 2 * i);
                    #[trigger] v@[i] == (if x >= 32_768 { x - 65_536 } else { x })
                } by {
                    assert(data[2 * i] == b[off + 2 * i] && data[2 * i + 1] == b[off + 2 * i + 1]);
                }
            },
            WavSamples::Pcm8(v) => {},
            WavSamples::Float32(v) => {
                assert forall|i: int| 0 <= i < v@.len() implies #[trigger] v@[i] == quad(
                    data,
                    4 * i,
                ) by {
                    assert(data[4 * i] == b[off + 4 * i] && data[4 * i + 1] == b[off + 4 * i + 1]
                        && data[4 * i + 2] == b[off + 4 * i + 2] && data[4 * i + 3] == b[off + 4 * i
                        + 3]);
                }
            },
        }
    }
}

proof fn lemma_finds_last(size: Seq<u8>, chunks: Seq<Chunk>, rest: Seq<u8>, f: int, d: int)
    requires
        size.len() == 4,
        all_wf(chunks),
        rest.len() < 8,
        0 <= f < chunks.len(),
        0 <= d < chunks.len(),
        chunks[f].is_fmt(),
        chunks[d].is_data(),
        forall|i: int| f < i < chunks.len() ==> !(#[trigger] chunks[i]).is_fmt(),
        forall|i: int| d < i < chunks.len() ==> !(#[trigger] chunks[i]).is_data(),
    ensures
        ({
            let b = file(size, chunks, rest);
            let fo = chunk_start(chunks, f) + 8;
            let off = chunk_start(chunks, d) + 8;
            let fmt = chunks[f].body;
            let data = chunks[d].body;
            &&& is_riff(b)
            &&& fmt.len() >= 16
            &&& fo + fmt.len() <= b.len()
            &&& off + data.len() <= b.len()
            &&& b.subrange(fo, fo + fmt.len()) == fmt
            &&& b.subrange(off, off + data.len()) == data
            &&& walk(b, 12, None, None) == Chunks::Found(
                Some(format_at(b, fo)),
                Some((off, data.len() as int)),
            )
        }),
{
    let n = chunks.len() as int;
    let b = file(size, chunks, rest);
    let fmt = fmt_found(b, chunks, n);
    let data = data_found(chunks, n);
    assert(last_fmt(chunks, n) == f && last_data(chunks, n) == d) by {
        lemma_lasts(chunks, n);
    }
    assert(walk(b, 12, None, None) == Chunks::Found(fmt, data)) by {
        lemma_walk_chunks(size, chunks, rest, n);
        assert(b.len() == chunk_start(chunks, n) + rest.len());
    }
    lemma_file_is_riff(size, chunks, rest);
    assert(chunks[f].wf() && chunks[d].wf());
    lemma_chunk_in_file(size, chunks, rest, f);
    lemma_chunk_in_file(size, chunks, rest, d);
}

proof fn lemma_finds_cut(
    size: Seq<u8>,
    chunks: Seq<Chunk>,
    claimed: Seq<u8>,
    there: Seq<u8>,
    f: int,
)
    requires
        size.len() == 4,
        all_wf(chunks),
        0 <= f < chunks.len(),
        chunks[f].is_fmt(),
        forall|i: int| f < i < chunks.len() ==> !(#[trigger] chunks[i]).is_fmt(),
        claimed.len() == 4,
        there.len() < quad(claimed, 0),
    ensures
        ({
            let b = file(size, chunks, seq![100u8, 97, 116, 97] + claimed + there);
            let fo = chunk_start(chunks, f) + 8;
            let off = chunk_start(chunks, chunks.len() as int) + 8;
            let fmt = chunks[f].body;
            &&& is_riff(b)
            &&& fmt.len() >= 16
            &&& fo + fmt.len() <= b.len()
            &&& off + there.len() <= b.len()
            &&& b.subrange(fo, fo + fmt.len()) == fmt
            &&& b.subrange(off, off + there.len()) == there
            &&& walk(b, 12, None, None) == Chunks::Found(
                Some(format_at(b, fo)),
                Some((off, there.len() as int)),
            )
        }),
{
    let n = chunks.len() as int;
    let rest = seq![100u8, 97, 116, 97] + claimed + there;
    let b = file(size, chunks, rest);
    let p = chunk_start(chunks, n);
    let found = fmt_found(b, chunks, n);
    assert(last_fmt(chunks, n) == f) by {
        lemma_lasts(chunks, n);
    }
    lemma_rest_of_file(size, chunks, rest);
    assert(rest.subrange(0, 4) =~= seq![100u8, 97, 116, 97]);
    assert(rest.subrange(8, 8int + there.len()) =~= there);
    assert(b.subrange(p, p + 4) =~= rest.subrange(0, 4));
    assert(b.subrange(p + 8, p + 8 + there.len()) =~= rest.subrange(8, 8int + there.len()));
    assert(u32_at(b, p + 4) == quad(claimed, 0)) by {
        assert(b[p + 4] == rest[4] && b[p + 5] == rest[5] && b[p + 6] == rest[6] && b[p + 7]
            == rest[7]);
    }
    assert(walk(b, 12, None, None) == Chunks::Found(found, Some((p + 8, there.len() as int)))) by {
        lemma_walk_chunks(size, chunks, rest, n);
        lemma_cut_step(b, p, found, data_found(chunks, n));
    }
    lemma_file_is_riff(size, chunks, rest);
    assert(chunks[f].wf());
    lemma_chunk_in_file(size, chunks, rest, f);
}

proof fn lemma_rest_of_file(size: Seq<u8>, chunks: Seq<Chunk>, rest: Seq<u8>)
    requires
        size.len() == 4,
    ensures
        ({
            let b = file(size, chunks, rest);
            let p = chunk_start(chunks, chunks.len() as int);
            b.len() == p + rest.len() && forall|i: int|
                0 <= i < rest.len() ==> #[trigger] rest[i] == b[p + i]
        }),
{
}

proof fn lemma_cut_step(b: Seq<u8>, p: int, fmt: Option<Format>, data: Option<(int, int)>)
    requires
        0 <= p,
        p + 8 <= b.len(),
        b.subrange(p, p + 4) == seq![100u8, 97, 116, 97],
        u32_at(b, p + 4) > b.len() - p - 8,
    ensures
        walk(b, p, fmt, data) == Chunks::Found(fmt, Some((p + 8, b.len() - p - 8))),
{
    assert(!named(b, p, seq![102u8, 109, 116, 32])) by {
        assert(b.subrange(p, p + 4)[0] == 100u8);
    }
    let d = Some((p + 8, b.len() - p - 8));
    assert(walk(b, next_chunk(b, p), fmt, d) == Chunks::Found(fmt, d));
}

/// A file made of any well-formed chunks reads as its last data chunk under its last format
/// chunk, whatever other chunks stand around them, in whatever order and of whatever sizes,
/// and whatever size its head claims; bytes at its end that are too few for a chunk make no
/// difference.
pub proof fn lemma_reads_last_data_under_last_format(
    size: Seq<u8>,
    chunks: Seq<Chunk>,
    rest: Seq<u8>,
    f: int,
    d: int,
    r: Result<WavData, WavError>,
)
    requires
        size.len() == 4,
        all_wf(chunks),
        rest.len() < 8,
        0 <= f < chunks.len(),
        0 <= d < chunks.len(),
        chunks[f].is_fmt(),
        chunks[d].is_data(),
        forall|i: int| f < i < chunks.len() ==> !(#[trigger] chunks[i]).is_fmt(),
        forall|i: int| d < i < chunks.len() ==> !(#[trigger] chunks[i]).is_data(),
        reads_as(file(size, chunks, rest), r),
    ensures
        sounds_as(chunks[f].body, chunks[d].body, r),
{
    lemma_finds_last(size, chunks, rest, f, d);
    lemma_reads(
        file(size, chunks, rest),
        r,
        chunk_start(chunks, f) + 8,
        chunks[f].body,
        chunk_start(chunks, d) + 8,
        chunks[d].body,
    );
}

/// A file of well-formed chunks without a format chunk is refused for that, and one with a
/// format chunk and without a data chunk for that.
pub proof fn lemma_missing_chunks(
    size: Seq<u8>,
    chunks: Seq<Chunk>,
    rest: Seq<u8>,
    r: Result<WavData, WavError>,
)
    requires
        size.len() == 4,
        all_wf(chunks),
        rest.len() < 8,
        reads_as(file(size, chunks, rest), r),
    ensures
        (forall|i: int| 0 <= i < chunks.len() ==> !(#[trigger] chunks[i]).is_fmt()) ==> r == Err::<
            WavData,
            _,
        >(WavError::MissingFmt),
        (exists|i: int| 0 <= i < chunks.len() && (#[trigger] chunks[i]).is_fmt()) && (forall|i: int|
            0 <= i < chunks.len() ==> !(#[trigger] chunks[i]).is_data()) ==> r == Err::<WavData, _>(
            WavError::MissingData,
        ),
{
    let n = chunks.len() as int;
    let b = file(size, chunks, rest);
    lemma_file_is_riff(size, chunks, rest);
    lemma_walk_chunks(size, chunks, rest, n);
    lemma_lasts(chunks, n);
    assert(b.len() == chunk_start(chunks, n) + rest.len());
}

/// A file that is cut off in the body of its last data chunk reads as the part of the body
/// that is there.
pub proof fn lemma_cut_data(
    size: Seq<u8>,
    chunks: Seq<Chunk>,
    claimed: Seq<u8>,
    there: Seq<u8>,
    f: int,
    r: Result<WavData, WavError>,
)
    requires
        size.len() == 4,
        all_wf(chunks),
        0 <= f < chunks.len(),
        chunks[f].is_fmt(),
        forall|i: int| f < i < chunks.len() ==> !(#[trigger] chunks[i]).is_fmt(),
        claimed.len() == 4,
        there.len() < quad(claimed, 0),
        reads_as(file(size, chunks, seq![100u8, 97, 116, 97] + claimed + there), r),
    ensures
        sounds_as(chunks[f].body, there, r),
{
    lemma_finds_cut(size, chunks, claimed, there, f);
    lemma_reads(
        file(size, chunks, seq![100u8, 97, 116, 97] + claimed + there),
        r,
        chunk_start(chunks, f) + 8,
        chunks[f].body,
        chunk_start(chunks, chunks.len() as int) + 8,
        there,
    );
}

/// A file that is cut off within the first sixteen bytes of the body of a format chunk is
/// refused for that.
pub proof fn lemma_cut_format(
    size: Seq<u8>,
    chunks: Seq<Chunk>,
    claimed: Seq<u8>,
    there: Seq<u8>,
    r: Result<WavData, WavError>,
)
    requires
        size.len() == 4,
        all_wf(chunks),
        claimed.len() == 4,
        there.len() < 16,
        reads_as(file(size, chunks, seq![102u8, 109, 116, 32] + claimed + there), r),
    ensures
        r == Err::<WavData, _>(WavError::TruncatedFmt),
{
    let n = chunks.len() as int;
    let rest = seq![102u8, 109, 116, 32] + claimed + there;
    let b = file(size, chunks, rest);
    let p = chunk_start(chunks, n);
    lemma_file_is_riff(size, chunks, rest);
    lemma_walk_chunks(size, chunks, rest, n);
    assert(b.len() == p + 8 + there.len());
    assert(b.subrange(p, p + 4) =~= seq![102u8, 109, 116, 32]);
}

/// Bytes that do not begin with `RIFF`, four bytes, and `WAVE` are refused for that, and
/// only those.
pub proof fn lemma_not_riff(b: Seq<u8>, r: Result<WavData, WavError>)
    requires
        reads_as(b, r),
    ensures
        r == Err::<WavData, _>(WavError::NotRiff) <==> b.len() < 12 || b.subrange(0, 4) != seq![
            82u8,
            73,
            70,
            70,
        ] || b.subrange(8, 12) != seq![87u8, 65, 86, 69],
{
}

// --- any bytes --------------------------------------------------------------

/// What the walk does at any place of any bytes. Where fewer than eight are left it ends. At a format
/// chunk with sixteen bytes after its head it takes the numbers from those, whatever size the chunk
/// claims; with fewer it is cut short. At a data chunk it takes as much of the body as there is. At any
/// other chunk it takes nothing. Then it goes on behind the body and its padding.
pub proof fn lemma_walk_any_bytes(
    b: Seq<u8>,
    p: int,
    fmt: Option<Format>,
    data: Option<(int, int)>,
)
    requires
        0 <= p,
    ensures
        b.len() < p + 8 ==> walk(b, p, fmt, data) == Chunks::Found(fmt, data),
        b.len() >= p + 8 ==> ({
            let size = quad(b, p + 4);
            let next = p + 8 + size + size % 2;
            let name = b.subrange(p, p + 4);
            let room = b.len() - p - 8;
            &&& name == seq![102u8, 109, 116, 32] && room < 16 ==> walk(b, p, fmt, data)
                == Chunks::Truncated
            &&& name == seq![102u8, 109, 116, 32] && room >= 16 ==> walk(b, p, fmt, data) == walk(
                b,
                next,
                Some(
                    Format {
                        tag: pair(b, p + 8) as u16,
                        channels: pair(b, p + 10) as u16,
                        rate: quad(b, p + 12) as u32,
                        bits: pair(b, p + 22) as u16,
                    },
                ),
                data,
            )
            &&& name == seq![100u8, 97, 116, 97] ==> walk(b, p, fmt, data) == walk(
                b,
                next,
                fmt,
                Some((p + 8, if size <= room { size } else { room })),
            )
            &&& name != seq![102u8, 109, 116, 32] && name != seq![100u8, 97, 116, 97] ==> walk(
                b,
                p,
                fmt,
                data,
            ) == walk(b, next, fmt, data)
        }),
{
    let f = seq![102u8, 109, 116, 32];
    let d = seq![100u8, 97, 116, 97];
    assert(f[0] != d[0]);
}

} // verus!
