//! Mono WAV files: reading 8-bit and 16-bit PCM and 32-bit float, writing 32-bit
//! float. Float samples are carried as their bit patterns.

use crate::text::{append_decimal, decimal};
use vstd::prelude::*;
use vstd::string::StringExecFns;

verus! {

/// Why bytes are not a WAV file that can be read.
#[derive(Clone, Copy, Debug, PartialEq, Eq, Structural)]
pub enum WavError {
    NotRiff,
    TruncatedFmt,
    MissingFmt,
    MissingData,
    NotMono { channels: u16 },
    Unsupported { format: u16, bits: u16 },
}

impl WavError {
    /// The error in words.
    pub open spec fn text(&self) -> Seq<char> {
        match self {
            WavError::NotRiff => "not a RIFF/WAVE file"@,
            WavError::TruncatedFmt => "truncated fmt chunk"@,
            WavError::MissingFmt => "missing fmt chunk"@,
            WavError::MissingData => "missing data chunk"@,
            WavError::NotMono { channels } => "only mono supported (got "@ + decimal(
                *channels as int,
            ) + " channels)"@,
            WavError::Unsupported { format, bits } => "unsupported format tag "@ + decimal(
                *format as int,
            ) + " / "@ + decimal(*bits as int) + " bits"@,
        }
    }

    /// The error in words.
    pub fn message(&self) -> (m: String)
        ensures
            m@ == self.text(),
    {
        let mut m: String = String::new();
        match self {
            WavError::NotRiff => m.append("not a RIFF/WAVE file"),
            WavError::TruncatedFmt => m.append("truncated fmt chunk"),
            WavError::MissingFmt => m.append("missing fmt chunk"),
            WavError::MissingData => m.append("missing data chunk"),
            WavError::NotMono { channels } => {
                m.append("only mono supported (got ");
                append_decimal(&mut m, *channels as u128);
                m.append(" channels)");
            },
            WavError::Unsupported { format, bits } => {
                m.append("unsupported format tag ");
                append_decimal(&mut m, *format as u128);
                m.append(" / ");
                append_decimal(&mut m, *bits as u128);
                m.append(" bits");
            },
        }
        assert(m@ =~= self.text());
        m
    }
}

/// Samples as they are stored.
#[derive(Debug)]
pub enum WavSamples {
    Pcm16(Vec<i16>),
    Pcm8(Vec<u8>),
    /// Bit patterns of 32-bit floats.
    Float32(Vec<u32>),
}

/// The samples of a file and their rate.
#[derive(Debug)]
pub struct WavData {
    pub samples: WavSamples,
    pub sample_rate: u32,
}

// --- numbers in bytes -------------------------------------------------------

/// The 16-bit number at byte `o`, low byte first.
pub open spec fn u16_at(b: Seq<u8>, o: int) -> int {
    b[o] + 0x100 * b[o + 1]
}

/// The 32-bit number at byte `o`, low byte first.
pub open spec fn u32_at(b: Seq<u8>, o: int) -> int {
    b[o] + 0x100 * b[o + 1] + 0x1_0000 * b[o + 2] + 0x100_0000 * b[o + 3]
}

/// Read a 32-bit number, low byte first.
pub fn read_u32(b: &[u8], o: usize) -> (v: u32)
    requires
        o + 4 <= b@.len(),
    ensures
        v == u32_at(b@, o as int),
{
    b[o] as u32 + 0x100 * b[o + 1] as u32 + 0x1_0000 * b[o + 2] as u32 + 0x100_0000
        * b[o + 3] as u32
}

/// Read a 16-bit number, low byte first.
pub fn read_u16(b: &[u8], o: usize) -> (v: u16)
    requires
        o + 2 <= b@.len(),
    ensures
        v == u16_at(b@, o as int),
{
    b[o] as u16 + 0x100 * b[o + 1] as u16
}

/// The bytes of a 16-bit number, low byte first.
pub open spec fn u16_bytes(v: int) -> Seq<u8> {
    seq![(v % 0x100) as u8, (v / 0x100 % 0x100) as u8]
}

/// The bytes of a 32-bit number, low byte first; what does not fit is dropped.
pub open spec fn u32_bytes(v: int) -> Seq<u8> {
    seq![
        (v % 0x100) as u8,
        (v / 0x100 % 0x100) as u8,
        (v / 0x1_0000 % 0x100) as u8,
        (v / 0x100_0000 % 0x100) as u8,
    ]
}

/// The signed 16-bit number with the bits of `v`.
pub open spec fn signed16(v: int) -> int {
    if v < 0x8000 { v } else { v - 0x1_0000 }
}

// --- chunks -----------------------------------------------------------------

/// The format chunk: tag, channels, rate, bits.
#[derive(Clone, Copy, Debug, PartialEq, Eq, Structural)]
pub struct Format {
    pub tag: u16,
    pub channels: u16,
    pub rate: u32,
    pub bits: u16,
}

/// What a walk over the chunks has found: the last format chunk, the last data
/// chunk as its first byte and its length, or that a format chunk is cut short.
pub enum Chunks {
    Found(Option<Format>, Option<(int, int)>),
    Truncated,
}

/// Whether the chunk at `pos` has this four-letter name.
pub open spec fn named(b: Seq<u8>, pos: int, name: Seq<u8>) -> bool {
    b.subrange(pos, pos + 4) == name
}

/// The bytes of `fmt `.
pub open spec fn fmt_name() -> Seq<u8> {
    seq![102u8, 109, 116, 32]
}

/// The bytes of `data`.
pub open spec fn data_name() -> Seq<u8> {
    seq![100u8, 97, 116, 97]
}

/// The bytes of `RIFF`.
pub open spec fn riff_name() -> Seq<u8> {
    seq![82u8, 73, 70, 70]
}

/// The bytes of `WAVE`.
pub open spec fn wave_name() -> Seq<u8> {
    seq![87u8, 65, 86, 69]
}

/// The format chunk whose body starts at `body`.
pub open spec fn format_at(b: Seq<u8>, body: int) -> Format {
    Format {
        tag: u16_at(b, body) as u16,
        channels: u16_at(b, body + 2) as u16,
        rate: u32_at(b, body + 4) as u32,
        bits: u16_at(b, body + 14) as u16,
    }
}

/// Where the chunk after the one at `pos` starts; chunks are word-aligned.
pub open spec fn next_chunk(b: Seq<u8>, pos: int) -> int {
    let size = u32_at(b, pos + 4);
    pos + 8 + size + size % 2
}

/// Walk over the chunks from `pos` on, having found `fmt` and `data` so far.
pub open spec fn walk(
    b: Seq<u8>,
    pos: int,
    fmt: Option<Format>,
    data: Option<(int, int)>,
) -> Chunks
    decreases (if pos + 8 <= b.len() { b.len() - pos } else { 0 }),
{
    if pos < 0 || pos + 8 > b.len() {
        Chunks::Found(fmt, data)
    } else {
        let size = u32_at(b, pos + 4);
        let body = pos + 8;
        if named(b, pos, fmt_name()) {
            if body + 16 > b.len() {
                Chunks::Truncated
            } else {
                walk(b, next_chunk(b, pos), Some(format_at(b, body)), data)
            }
        } else if named(b, pos, data_name()) {
            let len = if size <= b.len() - body { size } else { b.len() - body };
            walk(b, next_chunk(b, pos), fmt, Some((body, len)))
        } else {
            walk(b, next_chunk(b, pos), fmt, data)
        }
    }
}

/// Whether samples are those that `len` bytes from `off` hold; bytes of a sample
/// that is cut short are left out.
pub open spec fn holds_samples(b: Seq<u8>, off: int, len: int, s: WavSamples) -> bool {
    match s {
        WavSamples::Pcm16(v) => {
            &&& v@.len() == len / 2
            &&& forall|i: int|
                0 <= i < v@.len() ==> #[trigger] v@[i] == signed16(u16_at(b, off + 2 * i))
        },
        WavSamples::Pcm8(v) => v@ == b.subrange(off, off + len),
        WavSamples::Float32(v) => {
            &&& v@.len() == len / 4
            &&& forall|i: int| 0 <= i < v@.len() ==> #[trigger] v@[i] == u32_at(b, off + 4 * i)
        },
    }
}

/// Whether the bytes begin as a RIFF/WAVE file does.
pub open spec fn is_riff(b: Seq<u8>) -> bool {
    b.len() >= 12 && named(b, 0, riff_name()) && named(b, 8, wave_name())
}

/// What reading the bytes gives: the samples of the last data chunk under the last
/// format chunk, or why there are none.
pub open spec fn reads_as(b: Seq<u8>, r: Result<WavData, WavError>) -> bool {
    if !is_riff(b) {
        r == Err::<WavData, _>(WavError::NotRiff)
    } else {
        match walk(b, 12, None, None) {
            Chunks::Truncated => r == Err::<WavData, _>(WavError::TruncatedFmt),
            Chunks::Found(None, _) => r == Err::<WavData, _>(WavError::MissingFmt),
            Chunks::Found(Some(f), None) => r == Err::<WavData, _>(WavError::MissingData),
            Chunks::Found(Some(f), Some(d)) => if f.channels != 1 {
                r == Err::<WavData, _>(WavError::NotMono { channels: f.channels })
            } else if f.tag == 1 && f.bits == 16 {
                r matches Ok(w) && w.sample_rate == f.rate && w.samples is Pcm16
                    && holds_samples(b, d.0, d.1, w.samples)
            } else if f.tag == 1 && f.bits == 8 {
                r matches Ok(w) && w.sample_rate == f.rate && w.samples is Pcm8
                    && holds_samples(b, d.0, d.1, w.samples)
            } else if f.tag == 3 && f.bits == 32 {
                r matches Ok(w) && w.sample_rate == f.rate && w.samples is Float32
                    && holds_samples(b, d.0, d.1, w.samples)
            } else {
                r == Err::<WavData, _>(WavError::Unsupported { format: f.tag, bits: f.bits })
            },
        }
    }
}

fn has_name(b: &[u8], pos: usize, n0: u8, n1: u8, n2: u8, n3: u8) -> (yes: bool)
    requires
        pos + 4 <= b@.len(),
    ensures
        yes == named(b@, pos as int, seq![n0, n1, n2, n3]),
{
    let yes: bool = b[pos] == n0 && b[pos + 1] == n1 && b[pos + 2] == n2 && b[pos + 3] == n3;
    proof {
        let there = b@.subrange(pos as int, pos + 4);
        let name = seq![n0, n1, n2, n3];
        assert(there[0] == b@[pos as int] && there[1] == b@[pos + 1] && there[2] == b@[pos + 2]
            && there[3] == b@[pos + 3]);
        if yes {
            assert(there =~= name);
        } else if there == name {
            assert(name[0] == n0 && name[1] == n1 && name[2] == n2 && name[3] == n3);
        }
    }
    yes
}

fn read_pcm16(b: &[u8], off: usize, len: usize) -> (v: Vec<i16>)
    requires
        off + len <= b@.len(),
    ensures
        holds_samples(b@, off as int, len as int, WavSamples::Pcm16(v)),
{
    let n: usize = b.len();
    let count: usize = len / 2;
    let mut v: Vec<i16> = Vec::with_capacity(count);
    let mut i: usize = 0;
    while i < count
        invariant
            count == len / 2,
            n == b@.len(),
            off + len <= n,
            i <= count,
            v@.len() == i,
            forall|k: int| 0 <= k < i ==> #[trigger] v@[k] == signed16(u16_at(b@, off + 2 * k)),
        decreases count - i,
    {
        let raw: u16 = read_u16(b, off + 2 * i);
        let wide: i32 = raw as i32;
        let signed: i32 = if wide < 0x8000 { wide } else { wide - 0x1_0000 };
        v.push(signed as i16);
        i = i + 1;
    }
    v
}

fn read_float32(b: &[u8], off: usize, len: usize) -> (v: Vec<u32>)
    requires
        off + len <= b@.len(),
    ensures
        holds_samples(b@, off as int, len as int, WavSamples::Float32(v)),
{
    let n: usize = b.len();
    let count: usize = len / 4;
    let mut v: Vec<u32> = Vec::with_capacity(count);
    let mut i: usize = 0;
    while i < count
        invariant
            count == len / 4,
            n == b@.len(),
            off + len <= n,
            i <= count,
            v@.len() == i,
            forall|k: int| 0 <= k < i ==> #[trigger] v@[k] == u32_at(b@, off + 4 * k),
        decreases count - i,
    {
        v.push(read_u32(b, off + 4 * i));
        i = i + 1;
    }
    v
}

fn read_pcm8(b: &[u8], off: usize, len: usize) -> (v: Vec<u8>)
    requires
        off + len <= b@.len(),
    ensures
        holds_samples(b@, off as int, len as int, WavSamples::Pcm8(v)),
{
    let n: usize = b.len();
    let mut v: Vec<u8> = Vec::with_capacity(len);
    let mut i: usize = 0;
    while i < len
        invariant
            n == b@.len(),
            off + len <= n,
            i <= len,
            v@ == b@.subrange(off as int, off + i),
        decreases len - i,
    {
        assert(b@.subrange(off as int, off + i).push(b@[off + i]) =~= b@.subrange(
            off as int,
            off + i + 1,
        ));
        v.push(b[off + i]);
        i = i + 1;
    }
    v
}

/// Read the samples of a mono WAV file.
pub fn read_wav(bytes: &[u8]) -> (r: Result<WavData, WavError>)
    ensures
        reads_as(bytes@, r),
{
    let n: usize = bytes.len();
    if n < 12 || !has_name(bytes, 0, 82, 73, 70, 70) || !has_name(bytes, 8, 87, 65, 86, 69) {
        return Err(WavError::NotRiff);
    }
    let mut pos: u128 = 12;
    let mut fmt: Option<Format> = None;
    let mut data: Option<(usize, usize)> = None;
    while pos + 8 <= n as u128
        invariant
            n == bytes@.len(),
            12 <= pos <= n + 0x1_0000_0010,
            is_riff(bytes@),
            data matches Some(d) ==> d.0 + d.1 <= n,
            walk(bytes@, 12, None, None) == walk(
                bytes@,
                pos as int,
                fmt,
                match data {
                    Some(d) => Some((d.0 as int, d.1 as int)),
                    None => None,
                },
            ),
        decreases n + 0x2_0000_0000 - pos,
    {
        let at: usize = pos as usize;
        let size: u32 = read_u32(bytes, at + 4);
        let body: usize = at + 8;
        if has_name(bytes, at, 102, 109, 116, 32) {
            if n - body < 16 {
                return Err(WavError::TruncatedFmt);
            }
            fmt =
            Some(
                Format {
                    tag: read_u16(bytes, body),
                    channels: read_u16(bytes, body + 2),
                    rate: read_u32(bytes, body + 4),
                    bits: read_u16(bytes, body + 14),
                },
            );
        } else if has_name(bytes, at, 100, 97, 116, 97) {
            let room: usize = n - body;
            let len: usize = if (size as u128) <= room as u128 { size as usize } else { room };
            data = Some((body, len));
        }
        pos = body as u128 + size as u128 + (size % 2) as u128;
    }
    let f: Format = match fmt {
        Some(f) => f,
        None => {
            return Err(WavError::MissingFmt);
        },
    };
    let (off, len) = match data {
        Some(d) => d,
        None => {
            return Err(WavError::MissingData);
        },
    };
    if f.channels != 1 {
        return Err(WavError::NotMono { channels: f.channels });
    }
    let samples: WavSamples = if f.tag == 1 && f.bits == 16 {
        WavSamples::Pcm16(read_pcm16(bytes, off, len))
    } else if f.tag == 1 && f.bits == 8 {
        WavSamples::Pcm8(read_pcm8(bytes, off, len))
    } else if f.tag == 3 && f.bits == 32 {
        WavSamples::Float32(read_float32(bytes, off, len))
    } else {
        return Err(WavError::Unsupported { format: f.tag, bits: f.bits });
    };
    Ok(WavData { samples, sample_rate: f.rate })
}

// --- writing ----------------------------------------------------------------

/// The header of a file of `count` float samples.
pub open spec fn header(count: int, rate: int) -> Seq<u8> {
    riff_name() + u32_bytes(36 + 4 * count) + wave_name() + fmt_name() + u32_bytes(16) + u16_bytes(
        3,
    ) + u16_bytes(1) + u32_bytes(rate) + u32_bytes(4 * rate) + u16_bytes(4) + u16_bytes(32)
        + data_name() + u32_bytes(4 * count)
}

/// The bytes of the first `k` samples.
pub open spec fn sample_bytes(samples: Seq<u32>, k: int) -> Seq<u8>
    decreases k,
{
    if k <= 0 {
        Seq::empty()
    } else {
        sample_bytes(samples, k - 1) + u32_bytes(samples[k - 1] as int)
    }
}

/// The bytes of a file of float samples.
pub open spec fn file_bytes(samples: Seq<u32>, rate: int) -> Seq<u8> {
    header(samples.len() as int, rate) + sample_bytes(samples, samples.len() as int)
}

fn push_u32(out: &mut Vec<u8>, v: u32)
    ensures
        final(out)@ == old(out)@ + u32_bytes(v as int),
{
    let b0: u8 = (v % 0x100) as u8;
    let b1: u8 = (v / 0x100 % 0x100) as u8;
    let b2: u8 = (v / 0x1_0000 % 0x100) as u8;
    let b3: u8 = (v / 0x100_0000 % 0x100) as u8;
    out.push(b0);
    out.push(b1);
    out.push(b2);
    out.push(b3);
    assert(out@ =~= old(out)@ + u32_bytes(v as int));
}

fn push_u16(out: &mut Vec<u8>, v: u16)
    ensures
        final(out)@ == old(out)@ + u16_bytes(v as int),
{
    let b0: u8 = (v % 0x100) as u8;
    let b1: u8 = (v / 0x100 % 0x100) as u8;
    out.push(b0);
    out.push(b1);
    assert(out@ =~= old(out)@ + u16_bytes(v as int));
}

fn push_name(out: &mut Vec<u8>, n0: u8, n1: u8, n2: u8, n3: u8)
    ensures
        final(out)@ == old(out)@ + seq![n0, n1, n2, n3],
{
    out.push(n0);
    out.push(n1);
    out.push(n2);
    out.push(n3);
    assert(out@ =~= old(out)@ + seq![n0, n1, n2, n3]);
}

/// A byte of a number does not change when a multiple of higher bytes is added.
proof fn lemma_byte_wrap(v: int, w: int, q: int, unit: int, rest: int)
    requires
        unit > 0,
        rest > 0,
        rest % 0x100 == 0,
        v == unit * rest * q + w,
    ensures
        w / unit % 0x100 == v / unit % 0x100,
{
    assert(v == unit * (rest * q) + w) by (nonlinear_arith)
        requires
            v == unit * rest * q + w,
    ;
    vstd::arithmetic::div_mod::lemma_div_multiples_vanish_fancy(rest * q, w % unit, unit);
    vstd::arithmetic::div_mod::lemma_fundamental_div_mod(w, unit);
    let k = w / unit + rest * q;
    assert(v == unit * k + w % unit) by (nonlinear_arith)
        requires
            v == unit * (rest * q) + w,
            w == unit * (w / unit) + w % unit,
            k == w / unit + rest * q,
    ;
    vstd::arithmetic::div_mod::lemma_fundamental_div_mod_converse(v, unit, k, w % unit);
    let m = rest / 0x100;
    assert(rest * q == 0x100 * (m * q)) by (nonlinear_arith)
        requires
            rest == 0x100 * m,
    ;
    assert((w / unit + 0x100 * (m * q)) % 0x100 == w / unit % 0x100);
}

proof fn lemma_u32_bytes_wrap(v: int)
    requires
        v >= 0,
    ensures
        u32_bytes(v % 0x1_0000_0000) == u32_bytes(v),
{
    let w = v % 0x1_0000_0000;
    let q = v / 0x1_0000_0000;
    assert(v == 0x1_0000_0000 * q + w);
    lemma_byte_wrap(v, w, q, 1, 0x1_0000_0000);
    lemma_byte_wrap(v, w, q, 0x100, 0x100_0000);
    lemma_byte_wrap(v, w, q, 0x1_0000, 0x1_0000);
    lemma_byte_wrap(v, w, q, 0x100_0000, 0x100);
}

/// The bytes of a mono file of 32-bit float samples, given by their bit patterns.
/// Sizes above 32 bits are cut to 32 bits.
pub fn write_wav_f32(samples: &[u32], sample_rate: u32) -> (out: Vec<u8>)
    requires
        4 * sample_rate <= u32::MAX,
    ensures
        out@ == file_bytes(samples@, sample_rate as int),
{
    let data_bytes: u128 = 4 * samples.len() as u128;
    let mut out: Vec<u8> = Vec::new();
    push_name(&mut out, 82, 73, 70, 70);
    push_u32(&mut out, ((36 + data_bytes) % 0x1_0000_0000) as u32);
    push_name(&mut out, 87, 65, 86, 69);
    push_name(&mut out, 102, 109, 116, 32);
    push_u32(&mut out, 16);
    push_u16(&mut out, 3);
    push_u16(&mut out, 1);
    push_u32(&mut out, sample_rate);
    push_u32(&mut out, sample_rate * 4);
    push_u16(&mut out, 4);
    push_u16(&mut out, 32);
    push_name(&mut out, 100, 97, 116, 97);
    push_u32(&mut out, (data_bytes % 0x1_0000_0000) as u32);
    proof {
        lemma_u32_bytes_wrap(36 + data_bytes);
        lemma_u32_bytes_wrap(data_bytes as int);
        assert(out@ =~= header(samples@.len() as int, sample_rate as int));
    }
    let ghost head = out@;
    let mut i: usize = 0;
    while i < samples.len()
        invariant
            i <= samples@.len(),
            out@ == head + sample_bytes(samples@, i as int),
        decreases samples@.len() - i,
    {
        push_u32(&mut out, samples[i]);
        i = i + 1;
        assert(out@ =~= head + sample_bytes(samples@, i as int));
    }
    out
}

// --- laws -------------------------------------------------------------------

proof fn lemma_four_digits(v: int, a1: int, a2: int, a3: int)
    requires
        0 <= v < 0x1_0000_0000,
        a1 == v / 0x100,
        a2 == a1 / 0x100,
        a3 == a2 / 0x100,
    ensures
        0 <= v % 0x100 < 0x100,
        0 <= a1 % 0x100 < 0x100,
        0 <= a2 % 0x100 < 0x100,
        0 <= a3 % 0x100 < 0x100,
        v == v % 0x100 + 0x100 * (a1 % 0x100) + 0x1_0000 * (a2 % 0x100) + 0x100_0000 * (a3
            % 0x100),
{
    assert(v == 0x100 * a1 + v % 0x100);
    assert(a1 == 0x100 * a2 + a1 % 0x100);
    assert(a2 == 0x100 * a3 + a2 % 0x100);
    assert(0 <= a3 < 0x100);
}

proof fn lemma_u32_roundtrip(v: int, b: Seq<u8>, o: int)
    requires
        0 <= v < 0x1_0000_0000,
        0 <= o,
        o + 4 <= b.len(),
        b.subrange(o, o + 4) == u32_bytes(v),
    ensures
        u32_at(b, o) == v,
{
    let p = b.subrange(o, o + 4);
    assert(p[0] == b[o] && p[1] == b[o + 1] && p[2] == b[o + 2] && p[3] == b[o + 3]);
    let a1 = v / 0x100;
    let a2 = v / 0x1_0000;
    let a3 = v / 0x100_0000;
    vstd::arithmetic::div_mod::lemma_div_denominator(v, 0x100, 0x100);
    vstd::arithmetic::div_mod::lemma_div_denominator(v, 0x1_0000, 0x100);
    assert(a2 == a1 / 0x100 && a3 == a2 / 0x100);
    lemma_four_digits(v, a1, a2, a3);
}

proof fn lemma_u16_roundtrip(v: int, b: Seq<u8>, o: int)
    requires
        0 <= v < 0x1_0000,
        0 <= o,
        o + 2 <= b.len(),
        b.subrange(o, o + 2) == u16_bytes(v),
    ensures
        u16_at(b, o) == v,
{
    let p = b.subrange(o, o + 2);
    assert(p[0] == b[o] && p[1] == b[o + 1]);
}

proof fn lemma_sample_bytes(samples: Seq<u32>, k: int)
    requires
        0 <= k <= samples.len(),
    ensures
        sample_bytes(samples, k).len() == 4 * k,
        forall|i: int|
            0 <= i < k ==> #[trigger] sample_bytes(samples, k).subrange(4 * i, 4 * i + 4)
                == u32_bytes(samples[i] as int),
    decreases k,
{
    if k > 0 {
        lemma_sample_bytes(samples, k - 1);
        let before = sample_bytes(samples, k - 1);
        let all = sample_bytes(samples, k);
        assert forall|i: int| 0 <= i < k implies #[trigger] all.subrange(4 * i, 4 * i + 4)
            == u32_bytes(samples[i] as int) by {
            if i < k - 1 {
                assert(all.subrange(4 * i, 4 * i + 4) =~= before.subrange(4 * i, 4 * i + 4));
            } else {
                assert(all.subrange(4 * i, 4 * i + 4) =~= u32_bytes(samples[i] as int));
            }
        }
    }
}

proof fn lemma_header(n: int, rate: int)
    ensures
        header(n, rate).len() == 44,
        header(n, rate).subrange(0, 4) == riff_name(),
        header(n, rate).subrange(8, 12) == wave_name(),
        header(n, rate).subrange(12, 16) == fmt_name(),
        header(n, rate).subrange(16, 20) == u32_bytes(16),
        header(n, rate).subrange(20, 22) == u16_bytes(3),
        header(n, rate).subrange(22, 24) == u16_bytes(1),
        header(n, rate).subrange(24, 28) == u32_bytes(rate),
        header(n, rate).subrange(34, 36) == u16_bytes(32),
        header(n, rate).subrange(36, 40) == data_name(),
        header(n, rate).subrange(40, 44) == u32_bytes(4 * n),
{
    let size = u32_bytes(36 + 4 * n);
    let first = riff_name() + size + wave_name() + fmt_name();
    let sixteen = u32_bytes(16);
    let tag = u16_bytes(3);
    let mono = u16_bytes(1);
    let hz = u32_bytes(rate);
    let second = first + sixteen + tag + mono + hz;
    let bps = u32_bytes(4 * rate);
    let align = u16_bytes(4);
    let bits = u16_bytes(32);
    let len = u32_bytes(4 * n);
    let h = second + bps + align + bits + data_name() + len;
    assert(header(n, rate) == h);
    assert(first.len() == 16);
    assert(second.len() == 28);
    assert(first.subrange(0, 4) =~= riff_name());
    assert(first.subrange(8, 12) =~= wave_name());
    assert(first.subrange(12, 16) =~= fmt_name());
    assert(second.subrange(16, 20) =~= sixteen);
    assert(second.subrange(20, 22) =~= tag);
    assert(second.subrange(22, 24) =~= mono);
    assert(second.subrange(24, 28) =~= hz);
    assert(h.subrange(0, 4) =~= first.subrange(0, 4));
    assert(h.subrange(8, 12) =~= first.subrange(8, 12));
    assert(h.subrange(12, 16) =~= first.subrange(12, 16));
    assert(h.subrange(16, 20) =~= second.subrange(16, 20));
    assert(h.subrange(20, 22) =~= second.subrange(20, 22));
    assert(h.subrange(22, 24) =~= second.subrange(22, 24));
    assert(h.subrange(24, 28) =~= second.subrange(24, 28));
    assert(h.subrange(34, 36) =~= bits);
    assert(h.subrange(36, 40) =~= data_name());
    assert(h.subrange(40, 44) =~= len);
}

/// The walk over the chunks of a written file.
proof fn lemma_walk_written(b: Seq<u8>, n: int, rate: int)
    requires
        b.len() == 44 + 4 * n,
        n >= 0,
        b.subrange(12, 16) == fmt_name(),
        b.subrange(36, 40) == data_name(),
        u32_at(b, 16) == 16,
        u16_at(b, 20) == 3,
        u16_at(b, 22) == 1,
        u32_at(b, 24) == rate,
        u16_at(b, 34) == 32,
        u32_at(b, 40) == 4 * n,
    ensures
        walk(b, 12, None, None) == Chunks::Found(
            Some(Format { tag: 3, channels: 1, rate: rate as u32, bits: 32 }),
            Some((44int, 4 * n)),
        ),
{
    let f = format_at(b, 20);
    let d = Some((44int, 4 * n));
    assert(next_chunk(b, 12) == 36);
    assert(next_chunk(b, 36) == 44 + 4 * n);
    assert(!named(b, 36, fmt_name())) by {
        assert(b.subrange(36, 40)[0] == data_name()[0]);
        assert(fmt_name()[0] != data_name()[0]);
    }
    assert(walk(b, 44 + 4 * n, Some(f), d) == Chunks::Found(Some(f), d));
    assert(walk(b, 36, Some(f), None) == walk(b, 44 + 4 * n, Some(f), d));
    assert(walk(b, 12, None, None) == walk(b, 36, Some(f), None));
}

/// What the head of a written file reads as.
proof fn lemma_written_head(samples: Seq<u32>, rate: int)
    requires
        0 <= rate,
        4 * rate <= u32::MAX,
        36 + 4 * samples.len() <= u32::MAX,
    ensures
        ({
            let b = file_bytes(samples, rate);
            let n = samples.len() as int;
            &&& b.len() == 44 + 4 * n
            &&& is_riff(b)
            &&& walk(b, 12, None, None) == Chunks::Found(
                Some(Format { tag: 3, channels: 1, rate: rate as u32, bits: 32 }),
                Some((44int, 4 * n)),
            )
        }),
{
    let n = samples.len() as int;
    let b = file_bytes(samples, rate);
    let h = header(n, rate);
    lemma_sample_bytes(samples, n);
    lemma_header(n, rate);
    assert(b.subrange(0, 4) =~= h.subrange(0, 4));
    assert(b.subrange(8, 12) =~= h.subrange(8, 12));
    assert(b.subrange(12, 16) =~= h.subrange(12, 16));
    assert(b.subrange(36, 40) =~= h.subrange(36, 40));
    assert(u32_at(b, 16) == 16) by {
        assert(b.subrange(16, 20) =~= h.subrange(16, 20));
        lemma_u32_roundtrip(16, b, 16);
    }
    assert(u16_at(b, 20) == 3) by {
        assert(b.subrange(20, 22) =~= h.subrange(20, 22));
        lemma_u16_roundtrip(3, b, 20);
    }
    assert(u16_at(b, 22) == 1) by {
        assert(b.subrange(22, 24) =~= h.subrange(22, 24));
        lemma_u16_roundtrip(1, b, 22);
    }
    assert(u32_at(b, 24) == rate) by {
        assert(b.subrange(24, 28) =~= h.subrange(24, 28));
        lemma_u32_roundtrip(rate, b, 24);
    }
    assert(u16_at(b, 34) == 32) by {
        assert(b.subrange(34, 36) =~= h.subrange(34, 36));
        lemma_u16_roundtrip(32, b, 34);
    }
    assert(u32_at(b, 40) == 4 * n) by {
        assert(b.subrange(40, 44) =~= h.subrange(40, 44));
        lemma_u32_roundtrip(4 * n, b, 40);
    }
    lemma_walk_written(b, n, rate);
}

/// What the samples of a written file read as.
proof fn lemma_written_sample(samples: Seq<u32>, rate: int, i: int)
    requires
        0 <= i < samples.len(),
    ensures
        u32_at(file_bytes(samples, rate), 44 + 4 * i) == samples[i],
{
    let n = samples.len() as int;
    let b = file_bytes(samples, rate);
    let body = sample_bytes(samples, n);
    lemma_sample_bytes(samples, n);
    lemma_header(n, rate);
    assert(b.subrange(44 + 4 * i, 48 + 4 * i) =~= body.subrange(4 * i, 4 * i + 4));
    lemma_u32_roundtrip(samples[i] as int, b, 44 + 4 * i);
}

/// What is written can be read back: the bytes of a file of float samples read as
/// those samples at that rate, as long as the sizes fit the file format.
pub proof fn lemma_read_gives_back_write(samples: Seq<u32>, rate: int, r: Result<WavData, WavError>)
    requires
        0 <= rate,
        4 * rate <= u32::MAX,
        36 + 4 * samples.len() <= u32::MAX,
        reads_as(file_bytes(samples, rate), r),
    ensures
        r matches Ok(w) && w.sample_rate == rate && (w.samples matches WavSamples::Float32(v)
            && v@ == samples),
{
    lemma_written_head(samples, rate);
    let w = r->Ok_0;
    if let WavSamples::Float32(v) = w.samples {
        assert forall|i: int| 0 <= i < samples.len() implies #[trigger] v@[i] == samples[i] by {
            lemma_written_sample(samples, rate, i);
        }
        assert(v@ =~= samples);
    }
}

/// The number of four bytes, low byte first, as it is written.
proof fn lemma_field(samples: Seq<u32>, rate: int, o: int, v: int)
    requires
        0 <= o <= 40,
        0 <= v < 0x1_0000_0000,
        header(samples.len() as int, rate).subrange(o, o + 4) == u32_bytes(v),
    ensures
        u32_at(file_bytes(samples, rate), o) == v,
{
    let n = samples.len() as int;
    let b = file_bytes(samples, rate);
    let h = header(n, rate);
    lemma_header(n, rate);
    lemma_sample_bytes(samples, n);
    assert(b.subrange(o, o + 4) =~= h.subrange(o, o + 4));
    lemma_u32_roundtrip(v, b, o);
}

/// What a written file says of itself is so: `RIFF`, the number of bytes that follow, `WAVE`,
/// `fmt `, a format of sixteen bytes, float samples on one channel, the rate, as many bytes a second
/// as samples of so many bytes take, four bytes and 32 bits to a sample, `data`, and the number of
/// bytes that follow that. Then come the samples, low byte first.
pub proof fn lemma_written_header_is_true(samples: Seq<u32>, rate: int)
    requires
        0 <= rate,
        4 * rate <= u32::MAX,
        36 + 4 * samples.len() <= u32::MAX,
    ensures
        ({
            let b = file_bytes(samples, rate);
            &&& b.len() == 44 + 4 * samples.len()
            &&& b.subrange(0, 4) == seq![82u8, 73, 70, 70]
            &&& b[4] + 256 * b[5] + 65_536 * b[6] + 16_777_216 * b[7] == b.len() - 8
            &&& b.subrange(8, 12) == seq![87u8, 65, 86, 69]
            &&& b.subrange(12, 16) == seq![102u8, 109, 116, 32]
            &&& b[16] + 256 * b[17] + 65_536 * b[18] + 16_777_216 * b[19] == 16
            &&& b.subrange(20, 22) == seq![3u8, 0]
            &&& b.subrange(22, 24) == seq![1u8, 0]
            &&& b[24] + 256 * b[25] + 65_536 * b[26] + 16_777_216 * b[27] == rate
            &&& b[28] + 256 * b[29] + 65_536 * b[30] + 16_777_216 * b[31] == 4 * rate
            &&& b.subrange(32, 34) == seq![4u8, 0]
            &&& b.subrange(34, 36) == seq![32u8, 0]
            &&& b.subrange(36, 40) == seq![100u8, 97, 116, 97]
            &&& b[40] + 256 * b[41] + 65_536 * b[42] + 16_777_216 * b[43] == b.len() - 44
        }),
{
    let n = samples.len() as int;
    let b = file_bytes(samples, rate);
    let h = header(n, rate);
    lemma_header(n, rate);
    lemma_header_rest(n, rate);
    lemma_sample_bytes(samples, n);
    assert(b.subrange(0, 4) =~= h.subrange(0, 4));
    assert(b.subrange(8, 12) =~= h.subrange(8, 12));
    assert(b.subrange(12, 16) =~= h.subrange(12, 16));
    assert(b.subrange(20, 22) =~= h.subrange(20, 22));
    assert(b.subrange(22, 24) =~= h.subrange(22, 24));
    assert(b.subrange(32, 34) =~= h.subrange(32, 34));
    assert(b.subrange(34, 36) =~= h.subrange(34, 36));
    assert(b.subrange(36, 40) =~= h.subrange(36, 40));
    lemma_field(samples, rate, 4, 36 + 4 * n);
    lemma_field(samples, rate, 16, 16);
    lemma_field(samples, rate, 24, rate);
    lemma_field(samples, rate, 28, 4 * rate);
    lemma_field(samples, rate, 40, 4 * n);
    assert(u16_bytes(3) =~= seq![3u8, 0]);
    assert(u16_bytes(1) =~= seq![1u8, 0]);
    assert(u16_bytes(4) =~= seq![4u8, 0]);
    assert(u16_bytes(32) =~= seq![32u8, 0]);
}

proof fn lemma_header_rest(n: int, rate: int)
    ensures
        header(n, rate).subrange(4, 8) == u32_bytes(36 + 4 * n),
        header(n, rate).subrange(28, 32) == u32_bytes(4 * rate),
        header(n, rate).subrange(32, 34) == u16_bytes(4),
{
    let size = u32_bytes(36 + 4 * n);
    let start = riff_name() + size;
    let first = start + wave_name() + fmt_name();
    let second = first + u32_bytes(16) + u16_bytes(3) + u16_bytes(1) + u32_bytes(rate);
    let bps = u32_bytes(4 * rate);
    let align = u16_bytes(4);
    let third = second + bps + align;
    let h = third + u16_bytes(32) + data_name() + u32_bytes(4 * n);
    assert(header(n, rate) == h);
    assert(second.len() == 28);
    assert(start.subrange(4, 8) =~= size);
    assert(first.subrange(4, 8) =~= start.subrange(4, 8));
    assert(second.subrange(4, 8) =~= first.subrange(4, 8));
    assert(h.subrange(4, 8) =~= second.subrange(4, 8));
    assert(third.subrange(28, 32) =~= bps);
    assert(third.subrange(32, 34) =~= align);
    assert(h.subrange(28, 32) =~= third.subrange(28, 32));
    assert(h.subrange(32, 34) =~= third.subrange(32, 34));
}

/// What each error says.
pub proof fn lemma_error_texts(e: WavError)
    ensures
        e is NotRiff ==> e.text() == "not a RIFF/WAVE file"@,
        e is TruncatedFmt ==> e.text() == "truncated fmt chunk"@,
        e is MissingFmt ==> e.text() == "missing fmt chunk"@,
        e is MissingData ==> e.text() == "missing data chunk"@,
        e matches WavError::NotMono { channels } ==> e.text() == "only mono supported (got "@
            + decimal(channels as int) + " channels)"@,
        e matches WavError::Unsupported { format, bits } ==> e.text() == "unsupported format tag "@
            + decimal(format as int) + " / "@ + decimal(bits as int) + " bits"@,
{
}

} // verus!
