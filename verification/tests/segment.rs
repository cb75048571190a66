use reim::contour::{
    clean_contour, decompose_contour, frames_fit, lies_within, Frame, NoteContour, SegmentConfig,
    MAX_FRAMES, PITCH_LIMIT,
};
use reim::render::{
    can_render, output_fits, outputs_fit, render, segment_output_len, NoteEdit, RenderedFrame,
    SCALE_LIMIT, UNIT,
};
use reim::segment::{segment, Segment, SegmentKind};
use reim::smooth::Kernel;
use reim::svg::{can_draw, contour_svg};
use reim::vibrato::{analytic_gains, bandpass_mask, unwrap_phase, variance_explained, TURN};
use rustfft::num_complex::Complex;
use rustfft::FftPlanner;

const FRAME_RATE: f64 = 200.0;
const RATE: u64 = 200_000_000_000;
const NANO: f64 = 1e9;

fn hz_to_cents(hz: f64) -> f64 {
    1200.0 * (hz / 440.0).log2()
}

fn cents_to_hz(cents: f64) -> f64 {
    440.0 * 2.0_f64.powf(cents / 1200.0)
}

fn nano(x: f64) -> i64 {
    (x * NANO).round() as i64
}

fn voiced_frame(hz: f64) -> Frame {
    Frame {
        fo: nano(hz),
        cents: nano(hz_to_cents(hz)),
        voiced: true,
        silence: false,
    }
}

fn silent_frame() -> Frame {
    Frame {
        fo: 0,
        cents: 0,
        voiced: false,
        silence: true,
    }
}

fn swing(amp: i64, phase: i128) -> i64 {
    let turns = (phase.rem_euclid(TURN as i128)) as f64 / TURN as f64;
    (amp as f64 * (2.0 * std::f64::consts::PI * turns).sin()).round() as i64
}

fn gaussian_kernel(config: &SegmentConfig) -> Kernel {
    let cutoff = config.drift_cutoff_hz as f64 / NANO;
    let sigma = FRAME_RATE / (2.0 * std::f64::consts::PI * cutoff);
    let radius = (3.0 * sigma).ceil() as i64;
    let weights: Vec<u32> = (-radius..=radius)
        .map(|x| ((-0.5 * (x as f64 / sigma).powi(2)).exp() * 1e9).round() as u32)
        .collect();
    Kernel::new(weights).expect("a gaussian is a kernel")
}

/// Band-pass the rest of a contour around its vibrato, and take amplitude and phase
/// out of it.
fn extract_vibrato(contour: &mut NoteContour) {
    let lag = contour.vibrato_lag;
    if lag == 0 {
        return;
    }
    let n = contour.residual.len();
    let mut planner = FftPlanner::<f64>::new();
    let fft = planner.plan_fft_forward(n);
    let ifft = planner.plan_fft_inverse(n);
    let mut buf: Vec<Complex<f64>> = contour
        .residual
        .iter()
        .map(|&x| Complex::new(x as f64, 0.0))
        .collect();
    fft.process(&mut buf);
    for (c, &keep) in buf.iter_mut().zip(&bandpass_mask(n, RATE, lag)) {
        if !keep {
            *c = Complex::new(0.0, 0.0);
        }
    }
    for (c, &gain) in buf.iter_mut().zip(&analytic_gains(n)) {
        *c *= gain as f64;
    }
    ifft.process(&mut buf);
    let amp: Vec<i64> = buf
        .iter()
        .map(|c| (c.norm() / n as f64).round() as i64)
        .collect();
    let phase: Vec<i64> = buf
        .iter()
        .map(|c| {
            let turns = c.im.atan2(c.re) / (2.0 * std::f64::consts::PI) + 0.25;
            (turns * TURN as f64).round() as i64
        })
        .collect();
    let phase = unwrap_phase(&phase);
    contour.set_vibrato(amp, phase, swing);
}

fn segment_frames(frames: &[Frame], config: &SegmentConfig) -> Vec<Segment> {
    let kernel = gaussian_kernel(config);
    let mut segs = segment(frames, RATE, config, &kernel);
    for seg in &mut segs {
        if let SegmentKind::Note(contour) = &mut seg.kind {
            extract_vibrato(contour);
        }
    }
    segs
}

fn decompose(hz: &[f64]) -> NoteContour {
    let cents: Vec<i64> = hz.iter().map(|&f| nano(hz_to_cents(f))).collect();
    let config = SegmentConfig::default();
    let kernel = gaussian_kernel(&config);
    let mut contour = decompose_contour(&cents, RATE, &config, &kernel);
    extract_vibrato(&mut contour);
    contour
}

fn vibrato_rate_hz(contour: &NoteContour) -> f64 {
    if contour.vibrato_lag == 0 {
        0.0
    } else {
        FRAME_RATE / contour.vibrato_lag as f64
    }
}

fn in_cents(track: &[i64]) -> Vec<f64> {
    track.iter().map(|&x| x as f64 / NANO).collect()
}

/// The pitch of an output frame in nanocents, where it has one.
fn pitch(frames: &[Frame], r: &RenderedFrame) -> Option<i64> {
    match *r {
        RenderedFrame::Kept(i) => {
            if frames[i].voiced {
                Some(frames[i].cents)
            } else {
                None
            }
        }
        RenderedFrame::Silent(_) => None,
        RenderedFrame::Voiced { nearest, cents, .. } => {
            if frames[nearest].voiced {
                Some(cents)
            } else {
                None
            }
        }
    }
}

fn pitch_cents(frames: &[Frame], r: &RenderedFrame) -> f64 {
    pitch(frames, r).expect("a voiced frame") as f64 / NANO
}

fn rms(track: &[f64]) -> f64 {
    (track.iter().map(|x| x * x).sum::<f64>() / track.len() as f64).sqrt()
}

fn correlation(a: &[f64], b: &[f64]) -> f64 {
    let n = a.len().min(b.len());
    let mut sum_ab = 0.0;
    let mut sum_a2 = 0.0;
    let mut sum_b2 = 0.0;
    for i in 0..n {
        sum_ab += a[i] * b[i];
        sum_a2 += a[i] * a[i];
        sum_b2 += b[i] * b[i];
    }
    sum_ab / (sum_a2.sqrt() * sum_b2.sqrt() + 1e-20)
}

#[test]
fn clean_contour_suppresses_octave_jump() {
    let frames: Vec<Frame> = (0..10)
        .map(|i| voiced_frame(if i == 5 { 400.0 } else { 200.0 }))
        .collect();
    let cleaned = clean_contour(&frames, 5);
    for (i, &val) in cleaned.iter().enumerate() {
        let val = val as f64 / NANO;
        assert!(
            (val - 200.0).abs() < 1.0,
            "frame {i}: expected ~200, got {val}"
        );
    }
}

#[test]
fn clean_contour_passes_constant_pitch() {
    let frames: Vec<Frame> = (0..20).map(|_| voiced_frame(300.0)).collect();
    let cleaned = clean_contour(&frames, 5);
    for &val in &cleaned {
        assert!((val as f64 / NANO - 300.0).abs() < 0.01);
    }
}

#[test]
fn clean_contour_unvoiced_zero() {
    let frames: Vec<Frame> = (0..5).map(|_| silent_frame()).collect();
    let cleaned = clean_contour(&frames, 5);
    for &val in &cleaned {
        assert_eq!(val, 0);
    }
}

#[test]
fn hz_cents_roundtrip() {
    let test_freqs = [100.0, 200.0, 440.0, 880.0, 1000.0];
    for &freq in &test_freqs {
        let frames = vec![voiced_frame(freq)];
        let cleaned = clean_contour(&frames, 1);
        assert!(
            (cleaned[0] as f64 / NANO - freq).abs() < 0.01,
            "freq {freq}"
        );
    }
}

#[test]
fn segment_constant_pitch_single_note() {
    let frames: Vec<Frame> = (0..50).map(|_| voiced_frame(200.0)).collect();
    let segs = segment_frames(&frames, &SegmentConfig::default());
    assert_eq!(segs.len(), 1);
    assert!(matches!(segs[0].kind, SegmentKind::Note(_)));
    assert_eq!(segs[0].frames, 0..50);
}

#[test]
fn segment_step_change_two_notes() {
    let frames: Vec<Frame> = (0..100)
        .map(|i| voiced_frame(if i < 50 { 200.0 } else { 300.0 }))
        .collect();
    let segs = segment_frames(&frames, &SegmentConfig::default());
    let notes: Vec<_> = segs
        .iter()
        .filter(|s| matches!(s.kind, SegmentKind::Note(_)))
        .collect();
    assert!(
        notes.len() >= 2,
        "expected at least 2 notes, got {}",
        notes.len()
    );
}

#[test]
fn segment_silence_is_unvoiced() {
    let frames: Vec<Frame> = (0..20).map(|_| silent_frame()).collect();
    let segs = segment_frames(&frames, &SegmentConfig::default());
    assert_eq!(segs.len(), 1);
    assert!(matches!(segs[0].kind, SegmentKind::Unvoiced));
}

#[test]
fn segment_voiced_silence_voiced() {
    let mut frames = Vec::new();
    for _ in 0..30 {
        frames.push(voiced_frame(200.0));
    }
    for _ in 0..10 {
        frames.push(silent_frame());
    }
    for _ in 0..30 {
        frames.push(voiced_frame(200.0));
    }
    let segs = segment_frames(&frames, &SegmentConfig::default());
    assert_eq!(segs.len(), 3, "expected Note, Unvoiced, Note");
    assert!(matches!(segs[0].kind, SegmentKind::Note(_)));
    assert!(matches!(segs[1].kind, SegmentKind::Unvoiced));
    assert!(matches!(segs[2].kind, SegmentKind::Note(_)));
}

// --- decomposition ---

#[test]
fn decompose_constant_pitch() {
    let fo: Vec<f64> = vec![440.0; 200];
    let contour = decompose(&fo);
    assert!(
        (contour.center_cents as f64 / NANO).abs() < 1.0,
        "center should be ~0 cents from A4"
    );
    assert!(
        rms(&in_cents(&contour.drift)) < 1.0,
        "drift RMS should be near zero"
    );
    assert!(vibrato_rate_hz(&contour) < 0.1, "no vibrato expected");
}

#[test]
fn decompose_known_vibrato() {
    let pi = std::f64::consts::PI;
    let fo: Vec<f64> = (0..200)
        .map(|i| {
            let t = i as f64 / FRAME_RATE;
            let cents_deviation = 30.0 * (2.0 * pi * 6.0 * t).sin();
            440.0 * 2.0_f64.powf(cents_deviation / 1200.0)
        })
        .collect();
    let contour = decompose(&fo);

    let rate = vibrato_rate_hz(&contour);
    assert!(
        (rate - 6.0).abs() < 0.5,
        "vibrato rate: expected ~6Hz, got {rate}"
    );

    let edge = 20;
    let amp = in_cents(&contour.vibrato_amp);
    let inner_amp: Vec<f64> = amp[edge..amp.len() - edge].to_vec();
    let mean_amp = inner_amp.iter().sum::<f64>() / inner_amp.len() as f64;
    assert!(
        (mean_amp - 30.0).abs() < 5.0,
        "vibrato amplitude: expected ~30 cents, got {mean_amp}"
    );

    let residual_rms = rms(&in_cents(&contour.residual));
    assert!(residual_rms < 5.0, "residual RMS too high: {residual_rms}");
}

#[test]
fn decompose_known_drift() {
    let fo: Vec<f64> = (0..200)
        .map(|i| {
            let cents_drift = 40.0 * i as f64 / 199.0;
            440.0 * 2.0_f64.powf(cents_drift / 1200.0)
        })
        .collect();
    let contour = decompose(&fo);

    let drift = in_cents(&contour.drift);
    let true_drift: Vec<f64> = (0..200).map(|i| 40.0 * i as f64 / 199.0 - 20.0).collect();
    let drift_centered: Vec<f64> = {
        let mean = drift.iter().sum::<f64>() / drift.len() as f64;
        drift.iter().map(|d| d - mean).collect()
    };
    let true_centered: Vec<f64> = {
        let mean = true_drift.iter().sum::<f64>() / true_drift.len() as f64;
        true_drift.iter().map(|d| d - mean).collect()
    };
    let corr = correlation(&drift_centered, &true_centered);
    assert!(
        corr > 0.95,
        "drift correlation with true ramp: {corr} (need >0.95)"
    );

    let vib_rms = rms(&in_cents(&contour.vibrato_amp));
    assert!(
        vibrato_rate_hz(&contour) < 0.1 || vib_rms < 2.0,
        "no vibrato expected on pure drift"
    );
}

#[test]
fn decompose_drift_plus_vibrato() {
    let pi = std::f64::consts::PI;
    let fo: Vec<f64> = (0..200)
        .map(|i| {
            let t = i as f64 / FRAME_RATE;
            let drift = 30.0 * i as f64 / 199.0;
            let vib = 20.0 * (2.0 * pi * 5.0 * t).sin();
            440.0 * 2.0_f64.powf((drift + vib) / 1200.0)
        })
        .collect();
    let contour = decompose(&fo);

    let rate = vibrato_rate_hz(&contour);
    assert!(
        (rate - 5.0).abs() < 1.0,
        "vibrato rate: expected ~5Hz, got {rate}"
    );
}

#[test]
fn decompose_no_vibrato_jitter() {
    let mut lcg: u64 = 12345;
    let fo: Vec<f64> = (0..200)
        .map(|_| {
            lcg = lcg.wrapping_mul(6364136223846793005).wrapping_add(1);
            let jitter = ((lcg >> 33) as f64 / (1u64 << 31) as f64 - 0.5) * 10.0;
            440.0 * 2.0_f64.powf(jitter / 1200.0)
        })
        .collect();
    let contour = decompose(&fo);

    let amp = in_cents(&contour.vibrato_amp);
    let mean_vib_amp = amp.iter().sum::<f64>() / amp.len() as f64;
    let rate = vibrato_rate_hz(&contour);
    assert!(
        rate < 0.1 || mean_vib_amp < 2.0,
        "false positive vibrato: rate={rate}, amp={mean_vib_amp}"
    );
}

#[test]
fn decompose_reconstruction_accuracy() {
    let pi = std::f64::consts::PI;
    let fo: Vec<f64> = (0..200)
        .map(|i| {
            let t = i as f64 / FRAME_RATE;
            let drift = 20.0 * i as f64 / 199.0;
            let vib = 25.0 * (2.0 * pi * 6.0 * t).sin();
            440.0 * 2.0_f64.powf((drift + vib) / 1200.0)
        })
        .collect();
    let contour = decompose(&fo);

    for i in 0..fo.len() {
        let reconstructed = contour.center_cents
            + contour.drift[i]
            + swing(contour.vibrato_amp[i], contour.vibrato_phase[i] as i128)
            + contour.residual[i];
        let original_cents = 1200.0 * (fo[i] / 440.0).log2();
        let err = (reconstructed as f64 / NANO - original_cents).abs();
        assert!(err < 0.5, "frame {i}: reconstruction error {err} cents");
        assert_eq!(reconstructed, nano(original_cents));
    }
}

#[test]
fn decompose_ramped_vibrato() {
    let pi = std::f64::consts::PI;
    let fo: Vec<f64> = (0..200)
        .map(|i| {
            let t = i as f64 / FRAME_RATE;
            let ramp = 30.0 * i as f64 / 199.0;
            let vib = ramp * (2.0 * pi * 6.0 * t).sin();
            440.0 * 2.0_f64.powf(vib / 1200.0)
        })
        .collect();
    let contour = decompose(&fo);

    let true_amp: Vec<f64> = (0..200).map(|i| 30.0 * i as f64 / 199.0).collect();
    let edge = 20;
    let amp = in_cents(&contour.vibrato_amp);
    let inner_detected: Vec<f64> = amp[edge..200 - edge].to_vec();
    let inner_true: Vec<f64> = true_amp[edge..200 - edge].to_vec();
    let corr = correlation(&inner_detected, &inner_true);
    assert!(
        corr > 0.85,
        "ramped vibrato amplitude correlation: {corr} (need >0.85)"
    );
}

#[test]
fn contour_svg_structural() {
    let frames: Vec<Frame> = (0..100)
        .map(|i| {
            if i < 40 {
                voiced_frame(220.0)
            } else if i < 60 {
                silent_frame()
            } else {
                voiced_frame(330.0)
            }
        })
        .collect();
    let config = SegmentConfig::default();
    let segs = segment_frames(&frames, &config);
    let svg = contour_svg(&frames, &segs, RATE, None, swing);

    assert!(svg.starts_with("<svg"), "should start with <svg tag");
    assert!(svg.contains("</svg>"), "should have closing svg tag");
    assert!(svg.contains("circle"), "should have Fo dots (circles)");
    assert!(svg.contains("rect"), "should have unvoiced shading (rects)");
    assert!(
        svg.contains("polyline") || svg.contains("line"),
        "should have contour lines"
    );
}

// --- glide detection ---

/// Hold at f_a, cosine-eased cents ramp over `glide` frames, hold at f_b.
fn glide_input(f_a: f64, f_b: f64, hold: usize, glide: usize) -> Vec<Frame> {
    let ca = hz_to_cents(f_a);
    let cb = hz_to_cents(f_b);
    let pi = std::f64::consts::PI;
    let mut v = Vec::new();
    for _ in 0..hold {
        v.push(voiced_frame(f_a));
    }
    for j in 0..glide {
        let x = (j + 1) as f64 / (glide + 1) as f64;
        let c = ca + (cb - ca) * 0.5 * (1.0 - (pi * x).cos());
        v.push(voiced_frame(cents_to_hz(c)));
    }
    for _ in 0..hold {
        v.push(voiced_frame(f_b));
    }
    v
}

fn note_contours(segs: &[Segment]) -> Vec<&NoteContour> {
    segs.iter()
        .filter_map(|s| match &s.kind {
            SegmentKind::Note(nc) => Some(nc),
            SegmentKind::Unvoiced => None,
        })
        .collect()
}

fn cents_of(frame: &Frame) -> f64 {
    frame.cents as f64 / NANO
}

#[test]
fn glide_detected_between_notes() {
    let frames = glide_input(200.0, 300.0, 60, 20);
    let segs = segment_frames(&frames, &SegmentConfig::default());
    let notes = note_contours(&segs);
    assert_eq!(notes.len(), 2, "expected 2 notes, got {}", notes.len());
    assert!(notes[0].onset_glide.is_empty(), "first note has no glide");
    let g = notes[1].onset_glide.len();
    assert!((12..=24).contains(&g), "glide len {g}, expected ~20");
    let depth = notes[1].onset_glide_depth_cents as f64 / NANO;
    assert!(
        (depth - 702.0).abs() < 100.0,
        "depth {depth}, expected ~702 cents"
    );
    // First note ends where the glide starts: its last frame is still near 200 Hz.
    let a_end = segs[0].frames.end;
    let last_cents = cents_of(&frames[a_end - 1]) - hz_to_cents(200.0);
    assert!(
        last_cents.abs() < 60.0,
        "first note's last frame {last_cents} cents from 200 Hz"
    );
}

#[test]
fn hard_step_has_no_glide() {
    let frames = glide_input(200.0, 300.0, 60, 0);
    let segs = segment_frames(&frames, &SegmentConfig::default());
    let notes = note_contours(&segs);
    assert_eq!(notes.len(), 2);
    for nc in &notes {
        assert!(nc.onset_glide.is_empty(), "hard step must not have a glide");
    }
}

#[test]
fn glide_with_vibrato_not_swallowed() {
    // 6 Hz, 40-cent vibrato on both notes, 20-frame glide between them.
    let pi = std::f64::consts::PI;
    let base = glide_input(200.0, 300.0, 150, 20);
    let frames: Vec<Frame> = base
        .iter()
        .enumerate()
        .map(|(i, f)| {
            let t = i as f64 / FRAME_RATE;
            let vib = 40.0 * (2.0 * pi * 6.0 * t).sin();
            voiced_frame(cents_to_hz(cents_of(f) + vib))
        })
        .collect();
    let segs = segment_frames(&frames, &SegmentConfig::default());
    let notes = note_contours(&segs);
    assert_eq!(notes.len(), 2, "expected 2 notes, got {}", notes.len());
    let g = notes[1].onset_glide.len();
    assert!(
        (8..=40).contains(&g),
        "glide len {g}: must not swallow vibrato cycles (true len 20)"
    );
    // Vibrato survives in the second note's core decomposition.
    let nc = notes[1];
    let amp = in_cents(&nc.vibrato_amp);
    let mean_amp: f64 = amp.iter().sum::<f64>() / amp.len() as f64;
    assert!(
        (mean_amp - 40.0).abs() < 20.0,
        "vibrato amp mean {mean_amp}, expected ~40"
    );
    // Excluding glide frames from decomposition keeps the residual small.
    let res_rms = rms(&in_cents(&nc.residual));
    assert!(
        res_rms < 15.0,
        "residual RMS {res_rms}, expected < 15 cents"
    );
}

#[test]
fn shallow_step_no_glide() {
    // 25-cent step: below glide_min_cents (and below note-split threshold).
    let f_b = 200.0 * 2.0_f64.powf(25.0 / 1200.0);
    let frames = glide_input(200.0, f_b, 60, 10);
    let segs = segment_frames(&frames, &SegmentConfig::default());
    for nc in note_contours(&segs) {
        assert!(
            nc.onset_glide.is_empty(),
            "25-cent move must not be a glide"
        );
    }
}

#[test]
fn long_glide_capped() {
    // 500 ms glide (100 frames) gets capped at max_glide_frames.
    let config = SegmentConfig::default();
    let frames = glide_input(200.0, 300.0, 60, 100);
    let segs = segment_frames(&frames, &config);
    let notes = note_contours(&segs);
    let max_glide = notes.iter().map(|nc| nc.onset_glide.len()).max().unwrap();
    assert!(
        max_glide <= config.max_glide_frames,
        "glide {max_glide} exceeds cap {}",
        config.max_glide_frames
    );
    assert!(
        max_glide >= config.max_glide_frames / 2,
        "glide {max_glide}: long portamento should still be substantially detected"
    );
}

#[test]
fn render_identity_with_glide() {
    let frames = glide_input(200.0, 300.0, 60, 20);
    let segs = segment_frames(&frames, &SegmentConfig::default());
    let rendered = render(&frames, &segs, &[], swing);
    assert_eq!(rendered.len(), frames.len());
    for (i, (orig, rend)) in frames.iter().zip(rendered.iter()).enumerate() {
        let err = (cents_of(orig) - pitch_cents(&frames, rend)).abs();
        assert!(err < 1e-6, "frame {i}: {err} cents off under identity");
        assert_eq!(pitch(&frames, rend), Some(orig.cents));
    }
}

#[test]
fn contour_svg_draws_glide() {
    let frames = glide_input(200.0, 300.0, 60, 20);
    let segs = segment_frames(&frames, &SegmentConfig::default());
    let svg = contour_svg(&frames, &segs, RATE, None, swing);
    assert!(
        svg.contains("#d2a"),
        "SVG should contain the magenta glide polyline"
    );
}

// --- scoops out of silence ---

/// 20 unvoiced frames, a 15-frame linear rise from 150 cents below the
/// target into a 100-frame hold at 300 Hz.
fn scoop_input() -> Vec<Frame> {
    let mut frames: Vec<Frame> = (0..20).map(|_| silent_frame()).collect();
    let tc = hz_to_cents(300.0);
    for j in 0..15 {
        let c = tc - 150.0 * (1.0 - (j as f64 + 1.0) / 16.0);
        frames.push(voiced_frame(cents_to_hz(c)));
    }
    for _ in 0..100 {
        frames.push(voiced_frame(300.0));
    }
    frames
}

#[test]
fn scoop_from_silence_detected() {
    let frames = scoop_input();
    let segs = segment_frames(&frames, &SegmentConfig::default());
    let notes = note_contours(&segs);
    assert_eq!(notes.len(), 1, "expected 1 note, got {}", notes.len());
    let nc = notes[0];
    let g = nc.onset_glide.len();
    assert!((8..=20).contains(&g), "scoop len {g}, expected ~13");
    let depth = nc.onset_glide_depth_cents as f64 / NANO;
    assert!(
        (depth - 150.0).abs() < 50.0,
        "scoop depth {depth}, expected ~150 cents"
    );
}

#[test]
fn scoop_depth_preserved_under_pitch_edit() {
    let frames = scoop_input();
    let segs = segment_frames(&frames, &SegmentConfig::default());
    let (note_idx, nc) = segs
        .iter()
        .enumerate()
        .find_map(|(i, s)| match &s.kind {
            SegmentKind::Note(nc) => Some((i, nc)),
            SegmentKind::Unvoiced => None,
        })
        .unwrap();
    let g = nc.onset_glide.len();
    assert!(g >= 2, "fixture must produce a scoop");
    let note_start = segs[note_idx].frames.start;
    let old_entry = cents_of(&frames[note_start + g]);

    let mut edit = NoteEdit::identity(note_idx);
    edit.target_cents = Some(nc.center_cents + nano(300.0));
    let rendered = render(&frames, &segs, &[edit], swing);

    // With no previous voiced pitch, the scoop shifts with the note,
    // preserving its depth below the (edited) entry pitch.
    let first = pitch_cents(&frames, &rendered[note_start]);
    let expected = old_entry + 300.0 - nc.onset_glide_depth_cents as f64 / NANO;
    assert!(
        (first - expected).abs() < 1e-6,
        "scoop start {first}, expected {expected}"
    );
}

// --- glide edits ---

/// (frames, segments, a_len, glide_len, entry_cents) for the standard
/// two-note glide fixture. a_len is the first note's frame count.
fn glide_fixture() -> (Vec<Frame>, Vec<Segment>, usize, usize, f64) {
    let frames = glide_input(200.0, 300.0, 60, 20);
    let segs = segment_frames(&frames, &SegmentConfig::default());
    let notes = note_contours(&segs);
    assert_eq!(notes.len(), 2);
    let a_len = segs[0].frames.len();
    let g = notes[1].onset_glide.len();
    assert!(g >= 2, "fixture must produce a glide");
    let entry = cents_of(&frames[segs[1].frames.start + g]);
    (frames, segs, a_len, g, entry)
}

#[test]
fn render_glide_retargets_after_pitch_edit() {
    let (frames, segs, a_len, g, old_entry) = glide_fixture();
    let edit = NoteEdit {
        target_cents: Some(note_contours(&segs)[1].center_cents + nano(100.0)),
        ..NoteEdit::identity(1)
    };
    let rendered = render(&frames, &segs, &[edit], swing);
    assert_eq!(rendered.len(), frames.len());

    let exit = pitch_cents(&frames, &rendered[a_len - 1]);
    let entry = pitch_cents(&frames, &rendered[a_len + g]);
    assert!(
        (entry - (old_entry + 100.0)).abs() < 1e-6,
        "entry {entry} should be old entry + 100"
    );
    // The glide must connect exit to the NEW entry without a jump.
    let depth = entry - exit;
    let max_step = (depth.abs() / g as f64) * 3.0 + 1.0;
    for i in a_len..=a_len + g {
        let step = pitch_cents(&frames, &rendered[i]) - pitch_cents(&frames, &rendered[i - 1]);
        assert!(
            step.abs() < max_step,
            "jump of {step} cents at frame {i} (max {max_step})"
        );
    }
}

#[test]
fn render_glide_scale_zero_is_hard_step() {
    let (frames, segs, a_len, g, entry) = glide_fixture();
    let mut edit = NoteEdit::identity(1);
    edit.glide_scale = 0;
    let rendered = render(&frames, &segs, &[edit], swing);
    assert_eq!(rendered.len(), frames.len(), "duration unchanged");
    for (i, r) in rendered.iter().enumerate().take(a_len + g).skip(a_len) {
        let c = pitch_cents(&frames, r);
        assert!(
            (c - entry).abs() < 1e-9,
            "glide frame {i} at {c}, expected entry pitch {entry}"
        );
    }
}

#[test]
fn render_glide_time_scale_stretches_glide() {
    let (frames, segs, a_len, g, entry) = glide_fixture();
    let mut edit = NoteEdit::identity(1);
    edit.glide_time_scale = 2 * UNIT;
    let rendered = render(&frames, &segs, &[edit], swing);
    assert_eq!(
        rendered.len(),
        frames.len() + g,
        "glide doubles, core unchanged"
    );
    let last_glide = pitch_cents(&frames, &rendered[a_len + 2 * g - 1]);
    assert!(
        (last_glide - entry).abs() < 80.0,
        "stretched glide should still land near entry, got {last_glide} vs {entry}"
    );
}

#[test]
fn render_glide_time_scale_zero_drops_glide() {
    let (frames, segs, a_len, g, entry) = glide_fixture();
    let mut edit = NoteEdit::identity(1);
    edit.glide_time_scale = 0;
    let rendered = render(&frames, &segs, &[edit], swing);
    assert_eq!(
        rendered.len(),
        frames.len() - g,
        "note shortens by glide_len"
    );
    let first = pitch_cents(&frames, &rendered[a_len]);
    assert!(
        (first - entry).abs() < 1e-9,
        "note now starts at entry pitch, got {first} vs {entry}"
    );
}

#[test]
fn render_glide_survives_time_stretch() {
    let (frames, segs, a_len, g, _) = glide_fixture();
    let src_len = segs[1].frames.len();
    let mut edit = NoteEdit::identity(1);
    edit.out_len = Some(2 * src_len);
    let rendered = render(&frames, &segs, &[edit], swing);
    assert_eq!(rendered.len(), a_len + 2 * src_len);
    // Continuity through the stretched glide: half the per-frame slope.
    let depth = 702.0;
    let max_step = depth / (2 * g) as f64 * 3.0 + 1.0;
    for i in a_len..a_len + 2 * g {
        let step = pitch_cents(&frames, &rendered[i]) - pitch_cents(&frames, &rendered[i - 1]);
        assert!(
            step.abs() < max_step,
            "jump of {step} cents at frame {i} (max {max_step})"
        );
    }
}

#[test]
fn render_glide_connects_two_edited_notes() {
    let (frames, segs, a_len, g, old_entry) = glide_fixture();
    let centers: Vec<i64> = note_contours(&segs)
        .iter()
        .map(|nc| nc.center_cents)
        .collect();
    let edit_a = NoteEdit {
        target_cents: Some(centers[0] - nano(100.0)),
        ..NoteEdit::identity(0)
    };
    let edit_b = NoteEdit {
        target_cents: Some(centers[1] + nano(100.0)),
        ..NoteEdit::identity(1)
    };
    let rendered = render(&frames, &segs, &[edit_a, edit_b], swing);

    let exit = pitch_cents(&frames, &rendered[a_len - 1]);
    let entry = pitch_cents(&frames, &rendered[a_len + g]);
    assert!(
        (entry - (old_entry + 100.0)).abs() < 1e-6,
        "entry should follow note B's edit"
    );
    let first_glide = pitch_cents(&frames, &rendered[a_len]);
    assert!(
        (first_glide - exit).abs() < 80.0,
        "glide should start from note A's edited exit: {first_glide} vs {exit}"
    );
}

// --- rendering ---

#[test]
fn render_identity_preserves_frames() {
    let frames: Vec<Frame> = (0..50).map(|i| voiced_frame(200.0 + i as f64)).collect();
    let segs = segment_frames(&frames, &SegmentConfig::default());

    let edits: Vec<NoteEdit> = segs
        .iter()
        .enumerate()
        .filter(|(_, s)| matches!(s.kind, SegmentKind::Note(_)))
        .map(|(i, _)| NoteEdit::identity(i))
        .collect();

    let rendered = render(&frames, &segs, &edits, swing);
    assert_eq!(rendered.len(), frames.len());

    for (i, (orig, rend)) in frames.iter().zip(rendered.iter()).enumerate() {
        let hz = cents_to_hz(pitch_cents(&frames, rend));
        let err = (orig.fo as f64 / NANO - hz).abs();
        assert!(err < 0.1, "frame {i}: fo mismatch {err}");
    }
}

#[test]
fn render_pitch_correction() {
    let frames: Vec<Frame> = (0..50).map(|_| voiced_frame(220.0)).collect();
    let segs = segment_frames(&frames, &SegmentConfig::default());

    let edits = vec![NoteEdit {
        target_cents: Some(0), // A4
        drift_scale: 0,
        ..NoteEdit::identity(0)
    }];

    let rendered = render(&frames, &segs, &edits, swing);
    for r in &rendered {
        if let Some(c) = pitch(&frames, r) {
            let cents = c as f64 / NANO;
            assert!(cents.abs() < 5.0, "should be near A4, got {cents} cents");
        }
    }
}

#[test]
fn render_vibrato_removal() {
    let pi = std::f64::consts::PI;
    let frames: Vec<Frame> = (0..100)
        .map(|i| {
            let t = i as f64 / 200.0;
            let vib = 30.0 * (2.0 * pi * 6.0 * t).sin();
            voiced_frame(440.0 * 2.0_f64.powf(vib / 1200.0))
        })
        .collect();
    let segs = segment_frames(&frames, &SegmentConfig::default());

    let edits = vec![NoteEdit {
        vibrato_scale: 0,
        ..NoteEdit::identity(0)
    }];

    let rendered = render(&frames, &segs, &edits, swing);
    let cents: Vec<f64> = rendered
        .iter()
        .filter_map(|r| pitch(&frames, r))
        .map(|c| c as f64 / NANO)
        .collect();
    assert_eq!(cents.len(), 100);
    let mean = cents.iter().sum::<f64>() / cents.len() as f64;
    let var = cents.iter().map(|c| (c - mean).powi(2)).sum::<f64>() / cents.len() as f64;
    let std_dev = var.sqrt();
    assert!(
        std_dev < 10.0,
        "vibrato should be reduced, std_dev={std_dev}"
    );
}

#[test]
fn render_time_stretch() {
    let frames: Vec<Frame> = (0..50).map(|_| voiced_frame(300.0)).collect();
    let segs = segment_frames(&frames, &SegmentConfig::default());

    let edits = vec![NoteEdit {
        out_len: Some(100),
        ..NoteEdit::identity(0)
    }];

    let rendered = render(&frames, &segs, &edits, swing);
    assert_eq!(
        rendered.len(),
        100,
        "time stretch 2x should double frame count"
    );
}

// --- lengths, gaps, shares ---

#[test]
fn output_lengths_add_up() {
    let (frames, segs, _, g, _) = glide_fixture();
    let edit = NoteEdit {
        out_len: Some(37),
        glide_time_scale: 1_500_000,
        lead_gap_frames: 4,
        ..NoteEdit::identity(1)
    };
    assert_eq!(segment_output_len(&segs[0], None), segs[0].frames.len());
    let rendered = render(&frames, &segs, &[edit], swing);
    assert_eq!(
        rendered.len(),
        segment_output_len(&segs[0], None) + segment_output_len(&segs[1], Some(&edit))
    );
    assert!(g > 0);
}

#[test]
fn dropped_note_renders_nothing() {
    let (frames, segs, a_len, _, _) = glide_fixture();
    let edit = NoteEdit {
        out_len: Some(0),
        lead_gap_frames: 3,
        ..NoteEdit::identity(1)
    };
    assert_eq!(segment_output_len(&segs[1], Some(&edit)), 0);
    assert_eq!(render(&frames, &segs, &[edit], swing).len(), a_len);
}

#[test]
fn lead_gap_severs_the_glide() {
    let (frames, segs, a_len, _, entry) = glide_fixture();
    let depth = note_contours(&segs)[1].onset_glide_depth_cents as f64 / NANO;
    let lower = NoteEdit {
        target_cents: Some(note_contours(&segs)[0].center_cents - nano(500.0)),
        ..NoteEdit::identity(0)
    };
    let gap = NoteEdit {
        lead_gap_frames: 5,
        ..NoteEdit::identity(1)
    };
    let rendered = render(&frames, &segs, &[lower, gap], swing);
    assert_eq!(rendered.len(), frames.len() + 5);
    for r in &rendered[a_len..a_len + 5] {
        assert_eq!(*r, RenderedFrame::Silent(segs[1].frames.start));
    }
    // Without the gap the glide would start near the lowered note.
    let first = pitch_cents(&frames, &rendered[a_len + 5]);
    assert!((first - (entry - depth)).abs() < 200.0, "glide starts at {first}");
}

#[test]
fn glide_length_rounds_with_the_stretch() {
    let (_, segs, _, g, _) = glide_fixture();
    let src = segs[1].frames.len();
    let edit = NoteEdit {
        out_len: Some(1),
        ..NoteEdit::identity(1)
    };
    assert_eq!(segment_output_len(&segs[1], Some(&edit)), 1);
    let half = NoteEdit {
        glide_time_scale: 500_000,
        ..NoteEdit::identity(1)
    };
    assert_eq!(
        segment_output_len(&segs[1], Some(&half)),
        src - g + (g + 1) / 2
    );
}

#[test]
fn variance_is_shared_between_the_parts() {
    let pi = std::f64::consts::PI;
    let fo: Vec<f64> = (0..200)
        .map(|i| {
            let t = i as f64 / FRAME_RATE;
            let vib = 30.0 * (2.0 * pi * 6.0 * t).sin();
            440.0 * 2.0_f64.powf(vib / 1200.0)
        })
        .collect();
    let contour = decompose(&fo);
    let (drift, vibrato, residual) = variance_explained(&contour, swing).expect("it moves");
    let sum = (drift + vibrato + residual) as f64;
    assert!(vibrato as f64 / sum > 0.8);

    let still = decompose(&vec![440.0; 50]);
    assert_eq!(variance_explained(&still, swing), None);
}

#[test]
fn segments_tile_the_contour() {
    let mut frames = scoop_input();
    frames.extend(glide_input(200.0, 300.0, 40, 20));
    frames.extend((0..7).map(|_| silent_frame()));
    let segs = segment_frames(&frames, &SegmentConfig::default());
    assert_eq!(segs[0].frames.start, 0);
    for pair in segs.windows(2) {
        assert_eq!(pair[0].frames.end, pair[1].frames.start);
    }
    assert_eq!(segs.last().unwrap().frames.end, frames.len());
}

#[test]
fn empty_contour_has_no_segments() {
    assert!(segment_frames(&[], &SegmentConfig::default()).is_empty());
}

#[test]
fn svg_of_an_empty_contour() {
    let svg = contour_svg(&[], &[], RATE, None, swing);
    assert!(svg.starts_with(
        "<svg xmlns=\"http://www.w3.org/2000/svg\" viewBox=\"0 0 1200 600\" width=\"1200\" height=\"600\">\n"
    ));
    // 1400 cents to either side of A4, a line for each semitone.
    assert_eq!(svg.matches("stroke=\"#ddd\"").count(), 29);
    assert!(svg.contains(">A4</text>"));
    assert!(svg.contains(">G3</text>"));
    assert!(svg.contains(">B5</text>"));
    // One second, a label every tenth.
    assert_eq!(svg.matches("s</text>").count(), 11);
    assert!(svg.contains("<text x=\"60.0\" y=\"595\""));
    assert!(svg.contains("<text x=\"1180.0\" y=\"595\""));
    assert!(svg.ends_with("</svg>\n"));
}

#[test]
fn svg_of_two_frames() {
    let frames = [voiced_frame(440.0), voiced_frame(880.0)];
    let overlay = [None, Some(0i128)];
    let svg = contour_svg(&frames, &[], RATE, Some(&overlay), swing);
    // Pitches 0 and 1200 in a range from -200 to 1400 cents over 540 pixels.
    assert!(svg.contains("<circle cx=\"60.0\" cy=\"492.5\" r=\"2\" fill=\"#69b\"/>\n"));
    assert!(svg.contains("<circle cx=\"620.0\" cy=\"87.5\" r=\"2\" fill=\"#69b\"/>\n"));
    assert!(svg.contains(
        "<polyline points=\"620.0,492.5\" fill=\"none\" stroke=\"#82d\" stroke-width=\"1\"/>\n"
    ));
}

#[test]
fn svg_overlay_without_points_is_not_drawn() {
    let overlay = [None, None];
    let svg = contour_svg(&[silent_frame()], &[], RATE, Some(&overlay), swing);
    assert!(!svg.contains("#82d"));
}

#[test]
fn svg_labels_widen_with_the_contour() {
    let frames: Vec<Frame> = (0..2000).map(|_| silent_frame()).collect();
    let svg = contour_svg(&frames, &[], RATE, None, swing);
    // Ten seconds: a label every second.
    assert_eq!(svg.matches("s</text>").count(), 11);
    assert!(svg.contains(">10.0s</text>"));
    let frames: Vec<Frame> = (0..6000).map(|_| silent_frame()).collect();
    let svg = contour_svg(&frames, &[], RATE, None, swing);
    // Thirty seconds: a label every five.
    assert_eq!(svg.matches("s</text>").count(), 7);
}

#[test]
fn segments_can_be_rendered() {
    let (frames, segs, _, _, _) = glide_fixture();
    assert!(frames_fit(&frames));
    assert!(segs.iter().all(|s| can_render(s, frames.len())));
    assert!(!can_render(&segs[1], frames.len() - 1));
    let mut far = segs[0].clone();
    if let SegmentKind::Note(c) = &mut far.kind {
        c.center_cents = PITCH_LIMIT + 1;
    }
    assert!(!can_render(&far, frames.len()));
    let mut high = frames[0];
    high.cents = PITCH_LIMIT + 1;
    assert!(!frames_fit(&[high]));
    assert!(lies_within(&[-3, 3], 3));
    assert!(!lies_within(&[-4, 3], 3));
}

#[test]
fn edits_that_do_not_fit() {
    let edit = NoteEdit::identity(0);
    assert!(edit.fits());
    let stretched = NoteEdit {
        out_len: Some(MAX_FRAMES + 1),
        ..edit
    };
    assert!(!stretched.fits());
    let wild = NoteEdit {
        vibrato_scale: SCALE_LIMIT + 1,
        ..edit
    };
    assert!(!wild.fits());
    let low = NoteEdit {
        target_cents: Some(-PITCH_LIMIT - 1),
        ..edit
    };
    assert!(!low.fits());
}

#[test]
fn vibrato_rate_scales_the_phase() {
    let pi = std::f64::consts::PI;
    let frames: Vec<Frame> = (0..200)
        .map(|i| {
            let t = i as f64 / FRAME_RATE;
            let vib = 30.0 * (2.0 * pi * 5.0 * t).sin();
            voiced_frame(440.0 * 2.0_f64.powf(vib / 1200.0))
        })
        .collect();
    let segs = segment_frames(&frames, &SegmentConfig::default());
    assert_eq!(segs.len(), 1);
    let crossings = |edit: NoteEdit| {
        let cents: Vec<f64> = render(&frames, &segs, &[edit], swing)
            .iter()
            .map(|r| pitch_cents(&frames, r))
            .collect();
        cents
            .windows(2)
            .filter(|w| w[0] < 0.0 && w[1] >= 0.0)
            .count()
    };
    let edit = NoteEdit::identity(0);
    let plain = crossings(edit);
    let fast = crossings(NoteEdit {
        vibrato_rate_scale: 2 * UNIT,
        ..edit
    });
    assert!(plain >= 4, "{plain} cycles in a second of 5 Hz");
    assert!(fast >= 2 * plain - 2, "{fast} cycles at twice the rate");
}

#[test]
fn flattened_note_is_at_its_target() {
    let pi = std::f64::consts::PI;
    let frames: Vec<Frame> = (0..200)
        .map(|i| {
            let t = i as f64 / FRAME_RATE;
            let vib = 30.0 * (2.0 * pi * 6.0 * t).sin() + 10.0 * t;
            voiced_frame(440.0 * 2.0_f64.powf(vib / 1200.0))
        })
        .collect();
    let segs = segment_frames(&frames, &SegmentConfig::default());
    let edit = NoteEdit {
        target_cents: Some(nano(-300.0)),
        drift_scale: 0,
        vibrato_scale: 0,
        ..NoteEdit::identity(0)
    };
    for r in &render(&frames, &segs, &[edit], swing) {
        assert_eq!(pitch(&frames, r), Some(nano(-300.0)));
    }
}

#[test]
fn target_moves_every_frame_alike() {
    let (frames, segs, a_len, g, _) = glide_fixture();
    let plain = render(&frames, &segs, &[], swing);
    let center = note_contours(&segs)[1].center_cents;
    let edit = NoteEdit {
        target_cents: Some(center + nano(70.0)),
        ..NoteEdit::identity(1)
    };
    let moved = render(&frames, &segs, &[edit], swing);
    for i in a_len + g..frames.len() {
        let before = pitch(&frames, &plain[i]).unwrap();
        assert_eq!(pitch(&frames, &moved[i]), Some(before + nano(70.0)));
    }
}

#[test]
fn svg_rounds_halves_to_even() {
    // Frame 3 of 128 lies at 60 + 3 * 1120 / 128 = 86.25.
    let mut frames: Vec<Frame> = (0..128).map(|_| silent_frame()).collect();
    frames[3] = voiced_frame(440.0);
    let svg = contour_svg(&frames, &[], RATE, None, swing);
    assert!(svg.contains("<circle cx=\"86.2\" cy=\"290.0\" r=\"2\" fill=\"#69b\"/>\n"));
}

#[test]
fn svg_keeps_the_sign_of_small_coordinates() {
    // 1503.8 cents lies just above the drawing, at 20 - 103.8 * 540 / 2800 = -0.02.
    let overlay = [Some(1_503_800_000_000i128)];
    let svg = contour_svg(&[silent_frame()], &[], RATE, Some(&overlay), swing);
    assert!(svg.contains("<polyline points=\"60.0,-0.0\""));
}

#[test]
fn svg_of_segments_beyond_the_contour() {
    let frames: Vec<Frame> = (0..4).map(|_| silent_frame()).collect();
    let shade = |range: std::ops::Range<usize>| Segment {
        frames: range,
        kind: SegmentKind::Unvoiced,
    };
    let segs = [shade(2..6), shade(3..1)];
    assert!(segs.iter().all(can_draw));
    let svg = contour_svg(&frames, &segs, RATE, None, swing);
    assert!(svg.contains("<rect x=\"620.0\" y=\"20.0\" width=\"1120.0\""));
    assert!(svg.contains("<rect x=\"900.0\" y=\"20.0\" width=\"-560.0\""));
    // Without frames the drawing is one second wide.
    let svg = contour_svg(&[], &[shade(50..150)], RATE, None, swing);
    assert!(svg.contains("<rect x=\"340.0\" y=\"20.0\" width=\"560.0\""));
}

#[test]
fn svg_of_a_note_longer_than_its_segment() {
    let (frames, segs, _, _, _) = glide_fixture();
    let mut note = segs[1].clone();
    note.frames = note.frames.start..note.frames.start + 1;
    assert!(!can_render(&note, frames.len()));
    assert!(can_draw(&note));
    let svg = contour_svg(&frames, &[note.clone()], RATE, None, swing);
    assert!(svg.contains("#c80"));
    if let SegmentKind::Note(c) = &mut note.kind {
        c.vibrato_amp.clear();
    }
    assert!(!can_draw(&note));
}

#[test]
fn clones_are_equal() {
    let (_, segs, _, _, _) = glide_fixture();
    for seg in &segs {
        let copy = seg.clone();
        assert_eq!(copy.frames, seg.frames);
        assert_eq!(format!("{:?}", copy.kind), format!("{:?}", seg.kind));
    }
}

#[test]
fn long_glides_fit() {
    let (frames, segs, _, g, _) = glide_fixture();
    let long = NoteEdit {
        glide_time_scale: SCALE_LIMIT,
        ..NoteEdit::identity(1)
    };
    assert!(long.fits());
    assert!(output_fits(&segs[1], &long));
    assert!(outputs_fit(&segs, &[long], frames.len()));
    let plain = segment_output_len(&segs[1], None);
    assert_eq!(
        segment_output_len(&segs[1], Some(&long)),
        plain - g + 1000 * g
    );
}
