use reim::wav::{read_u16, read_u32, read_wav, write_wav_f32, WavError, WavSamples};

fn chunk(name: &[u8; 4], body: &[u8]) -> Vec<u8> {
    let mut out = name.to_vec();
    out.extend_from_slice(&(body.len() as u32).to_le_bytes());
    out.extend_from_slice(body);
    if body.len() % 2 == 1 {
        out.push(0);
    }
    out
}

fn format(tag: u16, channels: u16, rate: u32, bits: u16) -> Vec<u8> {
    let mut body = Vec::new();
    body.extend_from_slice(&tag.to_le_bytes());
    body.extend_from_slice(&channels.to_le_bytes());
    body.extend_from_slice(&rate.to_le_bytes());
    body.extend_from_slice(&(rate * 4).to_le_bytes());
    body.extend_from_slice(&4u16.to_le_bytes());
    body.extend_from_slice(&bits.to_le_bytes());
    chunk(b"fmt ", &body)
}

fn riff(chunks: &[Vec<u8>]) -> Vec<u8> {
    let mut out = b"RIFF\0\0\0\0WAVE".to_vec();
    for c in chunks {
        out.extend_from_slice(c);
    }
    out
}

fn error(bytes: &[u8]) -> WavError {
    read_wav(bytes).expect_err("not a readable file")
}

#[test]
fn numbers_are_little_endian() {
    let b = [0x12, 0x34, 0x56, 0x78, 0x9a];
    assert_eq!(read_u16(&b, 1), 0x5634);
    assert_eq!(read_u32(&b, 1), 0x9a785634);
}

#[test]
fn reads_pcm16() {
    let bytes = riff(&[
        format(1, 1, 16000, 16),
        chunk(b"data", &[0x01, 0x00, 0xff, 0xff, 0x00, 0x80, 0xff, 0x7f, 0x05]),
    ]);
    let wav = read_wav(&bytes).unwrap();
    assert_eq!(wav.sample_rate, 16000);
    match wav.samples {
        WavSamples::Pcm16(s) => assert_eq!(s, vec![1, -1, -32768, 32767]),
        _ => panic!("not 16-bit"),
    }
}

#[test]
fn reads_pcm8() {
    let bytes = riff(&[format(1, 1, 8000, 8), chunk(b"data", &[0, 128, 255])]);
    match read_wav(&bytes).unwrap().samples {
        WavSamples::Pcm8(s) => assert_eq!(s, vec![0, 128, 255]),
        _ => panic!("not 8-bit"),
    }
}

#[test]
fn skips_other_chunks() {
    // A chunk of odd length is followed by a byte of padding.
    let bytes = riff(&[
        chunk(b"LIST", &[1, 2, 3]),
        format(1, 1, 8000, 8),
        chunk(b"data", &[7]),
    ]);
    match read_wav(&bytes).unwrap().samples {
        WavSamples::Pcm8(s) => assert_eq!(s, vec![7]),
        _ => panic!("not 8-bit"),
    }
}

#[test]
fn cut_data_is_read_as_far_as_it_goes() {
    let mut data = chunk(b"data", &[1, 2, 3, 4]);
    data[4] = 100;
    let bytes = riff(&[format(1, 1, 8000, 8), data]);
    match read_wav(&bytes).unwrap().samples {
        WavSamples::Pcm8(s) => assert_eq!(s, vec![1, 2, 3, 4]),
        _ => panic!("not 8-bit"),
    }
}

#[test]
fn read_gives_back_write() {
    let samples = [0.0f32, 1.0, -0.25, 1e-20, f32::MAX];
    let bits: Vec<u32> = samples.iter().map(|s| s.to_bits()).collect();
    let bytes = write_wav_f32(&bits, 48000);
    assert_eq!(bytes.len(), 44 + 4 * samples.len());
    let wav = read_wav(&bytes).unwrap();
    assert_eq!(wav.sample_rate, 48000);
    match wav.samples {
        WavSamples::Float32(b) => assert_eq!(b, bits),
        _ => panic!("not float"),
    }
}

#[test]
fn written_header() {
    let bytes = write_wav_f32(&[0x3f80_0000], 24000);
    let mut expected = Vec::new();
    expected.extend_from_slice(b"RIFF");
    expected.extend_from_slice(&40u32.to_le_bytes());
    expected.extend_from_slice(b"WAVEfmt ");
    expected.extend_from_slice(&16u32.to_le_bytes());
    expected.extend_from_slice(&3u16.to_le_bytes());
    expected.extend_from_slice(&1u16.to_le_bytes());
    expected.extend_from_slice(&24000u32.to_le_bytes());
    expected.extend_from_slice(&96000u32.to_le_bytes());
    expected.extend_from_slice(&4u16.to_le_bytes());
    expected.extend_from_slice(&32u16.to_le_bytes());
    expected.extend_from_slice(b"data");
    expected.extend_from_slice(&4u32.to_le_bytes());
    expected.extend_from_slice(&1.0f32.to_le_bytes());
    assert_eq!(bytes, expected);
}

#[test]
fn not_a_wave_file() {
    assert_eq!(error(b""), WavError::NotRiff);
    assert_eq!(error(b"RIFF1234AVI "), WavError::NotRiff);
    assert_eq!(error(b"RIFX1234WAVE"), WavError::NotRiff);
    assert_eq!(WavError::NotRiff.message(), "not a RIFF/WAVE file");
}

#[test]
fn missing_chunks() {
    let no_format = riff(&[chunk(b"data", &[1, 2])]);
    assert_eq!(error(&no_format), WavError::MissingFmt);
    assert_eq!(WavError::MissingFmt.message(), "missing fmt chunk");
    let no_data = riff(&[format(1, 1, 8000, 8)]);
    assert_eq!(error(&no_data), WavError::MissingData);
    assert_eq!(WavError::MissingData.message(), "missing data chunk");
    assert_eq!(error(&riff(&[])), WavError::MissingFmt);
}

#[test]
fn truncated_format() {
    let bytes = riff(&[chunk(b"fmt ", &[1, 0, 1, 0])]);
    assert_eq!(error(&bytes), WavError::TruncatedFmt);
    assert_eq!(WavError::TruncatedFmt.message(), "truncated fmt chunk");
}

#[test]
fn stereo_is_refused() {
    let bytes = riff(&[format(1, 2, 8000, 16), chunk(b"data", &[0; 4])]);
    let e = error(&bytes);
    assert_eq!(e, WavError::NotMono { channels: 2 });
    assert_eq!(e.message(), "only mono supported (got 2 channels)");
}

#[test]
fn other_formats_are_refused() {
    let bytes = riff(&[format(1, 1, 8000, 24), chunk(b"data", &[0; 6])]);
    let e = error(&bytes);
    assert_eq!(
        e,
        WavError::Unsupported {
            format: 1,
            bits: 24
        }
    );
    assert_eq!(e.message(), "unsupported format tag 1 / 24 bits");
}
