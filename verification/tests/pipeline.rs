//! The whole pipeline, with the spectra computed in floating point around the library.

use realfft::{ComplexToReal, RealFftPlanner, RealToComplex};
use reim::config::{default_fftsize, Config, HERTZ};
use reim::contour::{frames_fit, NoteContour, SegmentConfig, PITCH_LIMIT};
use reim::d4c::{
    buckets, half_window_length, quarter_period_centers, window_taps, D4cLayout, BAND_INTERVAL,
    LOWEST_PITCH,
};
use reim::pitch::{
    analyze_fo_with_zerocross, channel_count, channel_length, overlap_at_lag, quefrency_range,
    settle_refined, Candidate, PitchRange, Ranked,
};
use reim::render::{can_render, NoteEdit, RenderedFrame};
use reim::rng::Xorshift;
use reim::segment::{Segment, SegmentKind};
use reim::smooth::Kernel;
use reim::spectrum::{
    extend_spectrum, ifftshift, mirror_upper, replica_bins, running_sum, unfold_spectrum,
};
use reim::synth::{FramePlan, TICK};
use reim::vibrato::{analytic_gains, bandpass_mask, unwrap_phase, TURN};
use reim::voicing::{low_band_edges, voice_band_edges, VoicingFeatures};
use rustfft::num_complex::Complex;
use rustfft::FftPlanner;
use std::sync::Arc;

const FS: f64 = 24_000.0;
const N: usize = 12_000; // 0.5 s
const FRAME_RATE: f64 = 200.0;
const PI: f64 = std::f64::consts::PI;
const NANO: f64 = 1e9;

// --- numbers and windows ---

/// The circle constant to fifteen digits, as the windows and phases use it.
#[allow(clippy::approx_constant)]
const REIM_PI: f64 = 3.14159265358979;

/// The rank of a number: its bit pattern, negated for negative numbers. Ranks compare
/// as the numbers do; what is not a number has none.
fn rank(x: f64) -> Option<i64> {
    if x.is_nan() {
        return None;
    }
    let magnitude = x.abs().to_bits() as i64;
    Some(if x < 0.0 { -magnitude } else { magnitude })
}

/// The ranks of a waveform, unless something in it is not a number.
fn ranks(x: &[f64]) -> Option<Vec<i64>> {
    x.iter().map(|&v| rank(v)).collect()
}

/// A frequency in nanohertz.
fn nanohertz(hz: f64) -> u64 {
    (hz * HERTZ as f64).round() as u64
}

fn complex_abs2(re: f64, im: f64) -> f64 {
    re * re + im * im
}

fn complex_abs(re: f64, im: f64) -> f64 {
    complex_abs2(re, im).sqrt()
}

fn complex_angle(re: f64, im: f64) -> f64 {
    im.atan2(re)
}

/// Instantaneous frequency between two one-sample-shifted spectra, in hertz.
fn instfreq(xr1: f64, xi1: f64, xr2: f64, xi2: f64, fs: f64) -> f64 {
    (fs / (2.0 * REIM_PI) * complex_angle(xr1 * xr2 + xi1 * xi2, xi1 * xr2 - xr1 * xi2)).abs()
}

/// Clamp a position into `[0, len - 1]`.
fn clamp_index_f(x: f64, len: usize) -> f64 {
    x.max(0.0).min(len.saturating_sub(1) as f64)
}

/// Centred Nuttall window.
fn nuttall_window(index: f64, fftsize: f64, length: f64) -> f64 {
    let wt = 2.0 * REIM_PI * (index - (fftsize - 1.0) / 2.0) / length;
    if wt < -REIM_PI || REIM_PI < wt {
        return 0.0;
    }
    0.355768 + 0.487396 * wt.cos() + 0.144232 * (2.0 * wt).cos() + 0.012604 * (3.0 * wt).cos()
}

/// Centred Hann window.
fn hanning_window(index: f64, fftsize: f64, length: f64) -> f64 {
    let wt = REIM_PI * (2.0 * index - (fftsize - 1.0)) / length;
    if wt < -REIM_PI || REIM_PI < wt {
        return 0.0;
    }
    0.5 + 0.5 * wt.cos()
}

/// Centred Blackman window.
fn blackman_window(index: f64, fftsize: f64, length: f64) -> f64 {
    let wt = 2.0 * REIM_PI * (index - (fftsize - 1.0) / 2.0) / length;
    if wt < -REIM_PI || REIM_PI < wt {
        return 0.0;
    }
    0.42 + 0.5 * wt.cos() + 0.08 * (2.0 * wt).cos()
}

/// Vorbis window.
fn vorbis_window(index: f64, fftsize: f64) -> f64 {
    let wt = REIM_PI * (index + 0.5) / fftsize;
    let s = wt.sin();
    (REIM_PI / 2.0 * s * s).sin()
}

/// Nuttall window over the whole of `y`.
fn nuttall_window_into(y: &mut [f64]) {
    let len = y.len();
    for (i, yi) in y.iter_mut().enumerate() {
        let t = i as f64 / (len as f64 - 1.0);
        *yi = 0.355768 - 0.487396 * (2.0 * REIM_PI * t).cos()
            + 0.144232 * (4.0 * REIM_PI * t).cos()
            - 0.012604 * (6.0 * REIM_PI * t).cos();
    }
}

/// Piecewise-linear resampling of `y`, sampled at `origin + i * shift`, onto the
/// points `xi`.
fn interp1q(origin: f64, shift: f64, y: &[f64], xi: &[f64], yi: &mut [f64]) {
    let last = y.len() - 1;
    for (i, &q) in xi.iter().enumerate() {
        let pos = (q - origin) / shift;
        assert!(pos >= 0.0, "interp1q: negative pos {pos} at query {q}");
        let base = pos as usize;
        let frac = pos - base as f64;
        let delta = if base >= last {
            0.0
        } else {
            y[base + 1] - y[base]
        };
        yi[i] = y[base] + delta * frac;
    }
}

/// Piecewise-linear interpolation of `(x, y)` onto the points `xi`, where `k` holds
/// the interval of each point.
fn interp1(x: &[f64], y: &[f64], xi: &[f64], k: &[usize], yi: &mut [f64]) {
    for i in 0..xi.len() {
        let ki = k[i];
        let h = x[ki] - x[ki - 1];
        let s = (xi[i] - x[ki - 1]) / h;
        yi[i] = y[ki - 1] + s * (y[ki] - y[ki - 1]);
    }
}

// --- transforms ---

struct Fft {
    n: usize,
    fwd: Arc<dyn rustfft::Fft<f64>>,
    buf: Vec<Complex<f64>>,
    scratch: Vec<Complex<f64>>,
    // single precision, for synthesis
    r2c: Arc<dyn RealToComplex<f32>>,
    c2r: Arc<dyn ComplexToReal<f32>>,
    half_buf: Vec<Complex<f32>>,
    real_scratch: Vec<Complex<f32>>,
    real_buf: Vec<f32>,
    // double precision, for analysis
    r2c_f64: Arc<dyn RealToComplex<f64>>,
    c2r_f64: Arc<dyn ComplexToReal<f64>>,
    half_buf_f64: Vec<Complex<f64>>,
    real_scratch_f64: Vec<Complex<f64>>,
    real_buf_f64: Vec<f64>,
}

impl Fft {
    fn new(n: usize) -> Self {
        assert!(
            n.is_power_of_two() && n >= 2,
            "fft size must be a power of two"
        );
        let fwd = FftPlanner::new().plan_fft_forward(n);
        let scratch_len = fwd.get_inplace_scratch_len();
        let mut planner = RealFftPlanner::<f32>::new();
        let r2c = planner.plan_fft_forward(n);
        let c2r = planner.plan_fft_inverse(n);
        let real_scratch_len = r2c.get_scratch_len().max(c2r.get_scratch_len());
        let mut planner = RealFftPlanner::<f64>::new();
        let r2c_f64 = planner.plan_fft_forward(n);
        let c2r_f64 = planner.plan_fft_inverse(n);
        let real_scratch_len_f64 = r2c_f64.get_scratch_len().max(c2r_f64.get_scratch_len());
        Fft {
            n,
            fwd,
            buf: vec![Complex::default(); n],
            scratch: vec![Complex::default(); scratch_len],
            r2c,
            c2r,
            half_buf: vec![Complex::default(); n / 2 + 1],
            real_scratch: vec![Complex::default(); real_scratch_len],
            real_buf: vec![0.0f32; n],
            r2c_f64,
            c2r_f64,
            half_buf_f64: vec![Complex::default(); n / 2 + 1],
            real_scratch_f64: vec![Complex::default(); real_scratch_len_f64],
            real_buf_f64: vec![0.0; n],
        }
    }

    /// Complex transform in place.
    fn forward(&mut self, re: &mut [f64], im: &mut [f64]) {
        for i in 0..self.n {
            self.buf[i] = Complex::new(re[i], im[i]);
        }
        self.fwd
            .process_with_scratch(&mut self.buf, &mut self.scratch);
        for i in 0..self.n {
            re[i] = self.buf[i].re;
            im[i] = self.buf[i].im;
        }
    }

    /// Real transform in single precision: `data` becomes the real half of the
    /// spectrum.
    fn forward_real(&mut self, data: &mut [f64], im_out: &mut [f64]) {
        for (r, &d) in self.real_buf.iter_mut().zip(data.iter()) {
            *r = d as f32;
        }
        self.r2c
            .process_with_scratch(
                &mut self.real_buf,
                &mut self.half_buf,
                &mut self.real_scratch,
            )
            .expect("buffers of the planned size");
        for (k, c) in self.half_buf.iter().enumerate() {
            data[k] = c.re as f64;
            im_out[k] = c.im as f64;
        }
    }

    /// Inverse of `forward_real`.
    fn inverse_real(&mut self, data: &mut [f64], im: &[f64]) {
        let numbins = self.n / 2 + 1;
        for k in 0..numbins {
            self.half_buf[k] = Complex::new(data[k] as f32, im[k] as f32);
        }
        self.half_buf[0].im = 0.0;
        self.half_buf[numbins - 1].im = 0.0;
        self.c2r
            .process_with_scratch(
                &mut self.half_buf,
                &mut self.real_buf,
                &mut self.real_scratch,
            )
            .expect("buffers of the planned size");
        let scale = 1.0 / self.n as f64;
        for (d, &r) in data.iter_mut().zip(&self.real_buf) {
            *d = r as f64 * scale;
        }
    }

    /// Real transform in double precision.
    fn forward_real_f64(&mut self, re: &mut [f64], im: &mut [f64]) {
        self.real_buf_f64.copy_from_slice(&re[..self.n]);
        self.r2c_f64
            .process_with_scratch(
                &mut self.real_buf_f64,
                &mut self.half_buf_f64,
                &mut self.real_scratch_f64,
            )
            .expect("buffers of the planned size");
        for (k, c) in self.half_buf_f64.iter().enumerate() {
            re[k] = c.re;
            im[k] = c.im;
        }
    }

    /// Inverse of `forward_real_f64`.
    fn inverse_real_f64(&mut self, re: &mut [f64], im: &[f64]) {
        let numbins = self.n / 2 + 1;
        for k in 0..numbins {
            self.half_buf_f64[k] = Complex::new(re[k], im[k]);
        }
        self.half_buf_f64[0].im = 0.0;
        self.half_buf_f64[numbins - 1].im = 0.0;
        self.c2r_f64
            .process_with_scratch(
                &mut self.half_buf_f64,
                &mut self.real_buf_f64,
                &mut self.real_scratch_f64,
            )
            .expect("buffers of the planned size");
        let scale = 1.0 / self.n as f64;
        for (d, &r) in re.iter_mut().zip(&self.real_buf_f64) {
            *d = r * scale;
        }
    }
}

// --- pitch candidates ---

/// A number with its rank.
fn ranked(value: f64) -> Ranked<f64> {
    Ranked {
        value,
        rank: rank(value),
    }
}

/// A pitch and its score.
fn candidate(fo: f64, score: f64) -> Candidate<f64> {
    Candidate {
        fo: ranked(fo),
        nanohertz: nanohertz(fo),
        score: ranked(score),
    }
}

/// The spectrum at a frequency between its bins.
fn get_interpolated_spectrum(freq: f64, fs: f64, spec: &[f64], numbins: usize) -> f64 {
    let position = clamp_index_f(freq / (fs / 2.0) * (numbins - 1) as f64, numbins - 1);
    let index = position.floor() as usize;
    let delta = position - index as f64;
    (1.0 - delta) * spec[index] + delta * spec[index + 1]
}

/// Peak of the cepstrum over the quefrencies of the pitch range, above its mean there.
fn cepstral_peak_prominence(
    pspec: &[f64],
    cfg: &Config,
    re: &mut [f64],
    im: &mut [f64],
    fft: &mut Fft,
) -> f64 {
    let numbins = cfg.numbins;
    for k in 0..numbins {
        re[k] = pspec[k].max(1e-15).ln();
    }
    mirror_upper(re, numbins);
    im[..numbins].fill(0.0);
    fft.inverse_real_f64(re, &im[..numbins]);
    let Some((lo, hi)) = quefrency_range(cfg.fs, cfg.fo_floor, cfg.fo_ceil, numbins) else {
        return 0.0;
    };
    let mut max = f64::NEG_INFINITY;
    let mut mean = 0.0;
    for &c in &re[lo..=hi] {
        max = max.max(c);
        mean += c;
    }
    mean /= (hi - lo + 1) as f64;
    max - mean
}

/// Normalized correlation of a frame with itself at one lag.
fn nccf_at_lag(x: &[f64], lag: usize) -> f64 {
    let Some(m) = overlap_at_lag(x.len(), lag) else {
        return 0.0;
    };
    let mean = x.iter().sum::<f64>() / x.len() as f64;
    let mut cross = 0.0;
    let mut e0 = 0.0;
    let mut el = 0.0;
    for j in 0..m {
        let a = x[j] - mean;
        let b = x[j + lag] - mean;
        cross += a * b;
        e0 += a * a;
        el += b * b;
    }
    cross / (e0 * el).sqrt().max(1e-12)
}

/// What one frame gives to choose from: the last pitch anew, and the candidates of the
/// channels.
struct Found {
    start: Candidate<f64>,
    candidates: Vec<Candidate<f64>>,
}

struct FoAnalyzer {
    cfg: Config,
    fs: f64,
    range: PitchRange,
    channel_filters: Vec<Vec<f64>>,
    channel_offsets: Vec<usize>,
    window: Vec<f64>,
    spec_r: Vec<f64>,
    spec_i: Vec<f64>,
    specd_r: Vec<f64>,
    specd_i: Vec<f64>,
    pspec: Vec<f64>,
    ifreqf: Vec<f64>,
    spec_filt_r: Vec<f64>,
    spec_filt_i: Vec<f64>,
    filtered_r: Vec<f64>,
    filtered_i: Vec<f64>,
    cep_r: Vec<f64>,
    cep_i: Vec<f64>,
}

impl FoAnalyzer {
    /// The channel filters and windows.
    fn new(cfg: &Config, range: PitchRange, fs: f64, fft: &mut Fft) -> Self {
        let fftsize = cfg.fftsize;
        let numbins = cfg.numbins;
        let fo_floor = cfg.fo_floor as f64 / HERTZ as f64;
        let channels = channel_count(cfg.fo_floor, cfg.fo_ceil);
        let mut channel_filters = Vec::with_capacity(channels);
        let mut channel_offsets = Vec::with_capacity(channels);
        for ch in 0..channels {
            let length = channel_length(cfg.fs, cfg.fo_floor, cfg.fo_ceil, ch);
            let mut xr: Vec<f64> = (0..fftsize)
                .map(|k| nuttall_window(k as f64, fftsize as f64, length as f64))
                .collect();
            let mut xi = vec![0.0; fftsize];
            fft.forward(&mut xr, &mut xi);
            channel_filters.push((0..fftsize).map(|k| complex_abs(xr[k], xi[k])).collect());
            channel_offsets.push(length);
        }
        let window_length = (4.0 * fs / fo_floor).min(fftsize as f64);
        let window = (0..fftsize)
            .map(|k| nuttall_window(k as f64, fftsize as f64, window_length))
            .collect();
        FoAnalyzer {
            cfg: *cfg,
            fs,
            range,
            channel_filters,
            channel_offsets,
            window,
            spec_r: vec![0.0; fftsize],
            spec_i: vec![0.0; fftsize],
            specd_r: vec![0.0; fftsize],
            specd_i: vec![0.0; fftsize],
            pspec: vec![0.0; numbins],
            ifreqf: vec![0.0; numbins],
            spec_filt_r: vec![0.0; fftsize],
            spec_filt_i: vec![0.0; fftsize],
            filtered_r: vec![0.0; fftsize],
            filtered_i: vec![0.0; fftsize],
            cep_r: vec![0.0; fftsize],
            cep_i: vec![0.0; fftsize],
        }
    }

    /// Refine a pitch by the instantaneous frequencies of its first harmonics.
    fn refine_fo(&self, fo: f64) -> f64 {
        let numbins = self.cfg.numbins;
        let mut sum_freq = 0.0;
        let mut denominator = 0.0;
        for h in 1..=3 {
            let hf = h as f64;
            let freq = get_interpolated_spectrum(fo * hf, self.fs, &self.ifreqf, numbins);
            let weight = get_interpolated_spectrum(fo * hf, self.fs, &self.pspec, numbins);
            sum_freq += freq * weight;
            denominator += hf * weight;
        }
        let refined = sum_freq / denominator;
        let gap = rank((refined - fo).abs());
        settle_refined(self.range, ranked(fo), ranked(refined), gap).value
    }

    /// Power at the first harmonics over power between them.
    fn get_harmonic_score(&self, fo: f64) -> f64 {
        let numbins = self.cfg.numbins;
        let mut score = 1.0;
        for h in 1..=3 {
            let hf = h as f64;
            score *= get_interpolated_spectrum(fo * hf, self.fs, &self.pspec, numbins);
            score /= get_interpolated_spectrum(fo * (hf - 0.5), self.fs, &self.pspec, numbins);
        }
        score
    }

    /// The spectra of a frame and the candidates in it.
    fn find(
        &mut self,
        fft: &mut Fft,
        input: &[f64],
        input_delayed: &[f64],
        seed: Option<f64>,
    ) -> Found {
        let fftsize = self.cfg.fftsize;
        let numbins = self.cfg.numbins;
        for k in 0..fftsize {
            self.spec_r[k] = input[k] * self.window[k];
            self.specd_r[k] = input_delayed[k] * self.window[k];
        }
        fft.forward_real_f64(&mut self.spec_r, &mut self.spec_i);
        fft.forward_real_f64(&mut self.specd_r, &mut self.specd_i);
        for k in 0..numbins {
            self.pspec[k] = complex_abs2(self.spec_r[k], self.spec_i[k]) + 1e-15;
            self.ifreqf[k] = instfreq(
                self.spec_r[k],
                self.spec_i[k],
                self.specd_r[k],
                self.specd_i[k],
                self.fs,
            );
        }

        let mean_input = input[..fftsize].iter().sum::<f64>() / fftsize as f64;
        for k in 0..fftsize {
            self.spec_filt_r[k] = input[k] - mean_input;
        }
        fft.forward_real_f64(&mut self.spec_filt_r, &mut self.spec_filt_i);

        let start = match seed {
            Some(previous) => {
                let fo = self.refine_fo(previous);
                candidate(fo, self.get_harmonic_score(fo))
            }
            None => candidate(-1.0, -1.0),
        };

        let mut candidates = Vec::new();
        for (filter, &offset) in self.channel_filters.iter().zip(&self.channel_offsets) {
            for k in 0..numbins {
                self.filtered_r[k] = self.spec_filt_r[k] * filter[k];
                self.filtered_i[k] = self.spec_filt_i[k] * filter[k];
            }
            fft.inverse_real_f64(&mut self.filtered_r, &self.filtered_i);
            let filtered = &self.filtered_r[offset..];
            assert!(filtered.len() >= 2, "filter longer than the window");
            let Some(order) = ranks(filtered) else {
                continue;
            };
            let Some(fo) = analyze_fo_with_zerocross(&order, self.cfg.fs) else {
                continue;
            };
            if fo < self.cfg.fo_floor || fo > self.cfg.fo_ceil {
                continue;
            }
            let refined = self.refine_fo(fo as f64 / HERTZ as f64);
            candidates.push(candidate(refined, self.get_harmonic_score(refined)));
        }
        Found { start, candidates }
    }

    /// The correlation at the lag of a pitch, and the cepstral peak, of the frame that
    /// was last searched.
    fn periodicity(&mut self, fft: &mut Fft, input: &[f64], best: &Ranked<f64>) -> (f64, f64) {
        let cpp = cepstral_peak_prominence(
            &self.pspec,
            &self.cfg,
            &mut self.cep_r,
            &mut self.cep_i,
            fft,
        );
        let nccf = if self.range.in_range(best.rank) {
            nccf_at_lag(input, (self.fs / best.value).round() as usize)
        } else {
            0.0
        };
        (nccf, cpp)
    }
}

// --- voicing and aperiodicity ---

// Share of the energy below the pitch above which a frame is rumble.
const LOWBAND_REJECT_RATIO: f64 = 0.4;

// Share of low-mid energy above which a frame is voice.
const VOICED_BAND_RATIO: f64 = 0.7;

// Weights of the logistic fusion of [ln(score), nccf, cpp].
const FUSION_BIAS: f64 = -3.077462961437281;
const FUSION_WEIGHTS: [f64; 3] = [0.07029391640284875, 5.275854261068518, 1.2496788274186972];

const SAFE_GUARD_MINIMUM: f64 = 1e-12;

/// Fused voicing probability in (0, 1).
fn voicing_probability(f: &VoicingFeatures<f64>) -> f64 {
    let z = FUSION_BIAS
        + FUSION_WEIGHTS[0] * f.score.max(1e-12).ln()
        + FUSION_WEIGHTS[1] * f.nccf
        + FUSION_WEIGHTS[2] * f.cpp;
    1.0 / (1.0 + (-z).exp())
}

/// An adaptive window of four periods around `center`, corrected for its weight, into
/// `waveform`.
fn get_windowed_waveform(
    x: &[f64],
    cfg: &Config,
    fs: f64,
    fo: f64,
    center: usize,
    blackman: bool,
    waveform: &mut [f64],
    window: &mut [f64],
) {
    let half = half_window_length(cfg.fs, nanohertz(fo)) as usize;
    assert!(
        2 * half < waveform.len(),
        "the window must fit the transform"
    );
    let mut taps = Vec::new();
    window_taps(x, center, half, &mut taps);
    for (j, &tap) in taps.iter().enumerate() {
        let base = j as f64 - half as f64;
        let arg = REIM_PI * (2.0 * base / 4.0 / fs) * fo;
        window[j] = if blackman {
            0.42 + 0.5 * arg.cos() + 0.08 * (2.0 * arg).cos()
        } else {
            0.5 * arg.cos() + 0.5
        };
        waveform[j] = tap * window[j];
    }
    let span = taps.len();
    let weight = waveform[..span].iter().sum::<f64>() / window[..span].iter().sum::<f64>();
    for j in 0..span {
        waveform[j] -= window[j] * weight;
    }
    waveform[span..].fill(0.0);
}

/// Add a low-frequency replica of a spectrum to itself.
fn dc_correction(buf: &mut [f64], fo: f64, fs: f64, fft_size: usize) {
    let upper_limit = 2 + (fo * fft_size as f64 / fs) as usize;
    let axis: Vec<f64> = (0..upper_limit)
        .map(|i| i as f64 * fs / fft_size as f64)
        .collect();
    let mut replica = vec![0.0; upper_limit - 1];
    interp1q(
        fo - axis[0],
        -fs / fft_size as f64,
        &buf[..upper_limit + 1],
        &axis[..upper_limit - 1],
        &mut replica,
    );
    for (b, r) in buf.iter_mut().zip(&replica) {
        *b += r;
    }
}

/// Moving average of a half spectrum over `width` hertz.
fn linear_smoothing(input: &[f64], width: f64, fs: f64, fft_size: usize) -> Vec<f64> {
    let half = fft_size / 2;
    let boundary = (width * fft_size as f64 / fs) as usize + 1;
    let spectrum = &input[..=half];
    assert!(
        boundary < spectrum.len(),
        "the average must be narrower than the spectrum"
    );
    let mut mirror = Vec::new();
    extend_spectrum(spectrum, boundary, &mut mirror);
    let steps: Vec<f64> = mirror
        .iter()
        .map(|m| m * fs / fft_size as f64)
        .collect();
    let mut sums = Vec::new();
    running_sum(&steps, |a: f64, b: f64| a + b, &mut sums);
    let mut axis: Vec<f64> = (0..=half)
        .map(|i| i as f64 / fft_size as f64 * fs - width / 2.0)
        .collect();
    let origin = -(boundary as f64 - 0.5) * fs / fft_size as f64;
    let interval = fs / fft_size as f64;
    let mut low = vec![0.0; half + 1];
    let mut high = vec![0.0; half + 1];
    interp1q(origin, interval, &sums, &axis, &mut low);
    for f in axis.iter_mut() {
        *f += width;
    }
    interp1q(origin, interval, &sums, &axis, &mut high);
    (0..=half).map(|i| (high[i] - low[i]) / width).collect()
}

/// Band aperiodicity of a voiced frame.
struct D4c {
    cfg: Config,
    fs: f64,
    layout: D4cLayout,
    fft: Fft,
    band_window: Vec<f64>,
    coarse_axis: Vec<f64>,
    frequency_axis: Vec<f64>,
    intervals: Vec<usize>,
    re: Vec<f64>,
    im: Vec<f64>,
    window: Vec<f64>,
    waveform: Vec<f64>,
}

impl D4c {
    /// Axes and buffers.
    fn new(cfg: &Config, fs: f64) -> Self {
        let layout = D4cLayout::new(cfg.fs);
        let mut band_window = vec![0.0; 2 * layout.half_window + 1];
        nuttall_window_into(&mut band_window);

        // Zero, the band centres, half the sampling rate.
        let mut coarse_units: Vec<i64> = (0..=layout.bands as i64)
            .map(|i| i * BAND_INTERVAL as i64)
            .collect();
        coarse_units.push((cfg.fs / 2) as i64);
        let units: Vec<i64> = (0..cfg.numbins as u128)
            .map(|i| (i * cfg.fs as u128 / cfg.fftsize as u128) as i64)
            .collect();
        let intervals = buckets(&coarse_units, &units);

        let mut coarse_axis: Vec<f64> = (0..=layout.bands)
            .map(|i| i as f64 * (BAND_INTERVAL / HERTZ) as f64)
            .collect();
        coarse_axis.push(fs / 2.0);
        let frequency_axis = (0..cfg.numbins)
            .map(|i| i as f64 * fs / cfg.fftsize as f64)
            .collect();
        let n = layout.fft_size;
        D4c {
            cfg: *cfg,
            fs,
            layout,
            fft: Fft::new(n),
            band_window,
            coarse_axis,
            frequency_axis,
            intervals,
            re: vec![0.0; n],
            im: vec![0.0; n],
            window: vec![0.0; n],
            waveform: vec![0.0; n],
        }
    }

    /// Energy centroid of the windowed waveform.
    fn get_centroid(&mut self, x: &[f64], fo: f64, center: usize) -> Vec<f64> {
        get_windowed_waveform(
            x,
            &self.cfg,
            self.fs,
            fo,
            center,
            true,
            &mut self.waveform,
            &mut self.window,
        );
        let span = 2 * half_window_length(self.cfg.fs, nanohertz(fo)) as usize + 1;
        let power: f64 = self.waveform[..span].iter().map(|w| w * w).sum();
        let inv = 1.0 / power.sqrt();
        for w in &mut self.waveform[..span] {
            *w *= inv;
        }
        let half = self.layout.fft_size / 2;
        self.re.copy_from_slice(&self.waveform);
        self.fft.forward_real_f64(&mut self.re, &mut self.im);
        let spec_re = self.re[..=half].to_vec();
        let spec_im = self.im[..=half].to_vec();
        for (j, r) in self.re.iter_mut().enumerate() {
            *r = self.waveform[j] * (j as f64 + 1.0);
        }
        self.fft.forward_real_f64(&mut self.re, &mut self.im);
        (0..=half)
            .map(|i| self.re[i] * spec_re[i] + spec_im[i] * self.im[i])
            .collect()
    }

    /// Sum of the centroids a quarter period to either side.
    fn get_static_centroid(&mut self, x: &[f64], fo: f64, center: usize) -> Vec<f64> {
        let (left, right) = quarter_period_centers(self.cfg.fs, nanohertz(fo), center, x.len());
        let first = self.get_centroid(x, fo, left);
        let second = self.get_centroid(x, fo, right);
        let mut sum: Vec<f64> = first.iter().zip(&second).map(|(a, b)| a + b).collect();
        dc_correction(&mut sum, fo, self.fs, self.layout.fft_size);
        sum
    }

    /// Smoothed power spectrum of the windowed waveform.
    fn get_smoothed_power_spectrum(&mut self, x: &[f64], fo: f64, center: usize) -> Vec<f64> {
        get_windowed_waveform(
            x,
            &self.cfg,
            self.fs,
            fo,
            center,
            false,
            &mut self.waveform,
            &mut self.window,
        );
        self.re.copy_from_slice(&self.waveform);
        self.fft.forward_real_f64(&mut self.re, &mut self.im);
        let half = self.layout.fft_size / 2;
        let mut power: Vec<f64> = (0..=half)
            .map(|i| complex_abs2(self.re[i], self.im[i]))
            .collect();
        dc_correction(&mut power, fo, self.fs, self.layout.fft_size);
        linear_smoothing(&power, fo, self.fs, self.layout.fft_size)
    }

    /// Group delay at the resolution of half the pitch, less that of the pitch.
    fn get_static_group_delay(&self, centroid: &[f64], power: &[f64], fo: f64) -> Vec<f64> {
        let n = self.layout.fft_size;
        let raw: Vec<f64> = centroid.iter().zip(power).map(|(c, p)| c / p).collect();
        let fine = linear_smoothing(&raw, fo / 2.0, self.fs, n);
        let coarse = linear_smoothing(&fine, fo, self.fs, n);
        fine.iter().zip(&coarse).map(|(f, c)| f - c).collect()
    }

    /// Aperiodicity in decibels of each band.
    fn get_coarse_aperiodicity(&mut self, delay: &[f64]) -> Vec<f64> {
        let half = self.layout.fft_size / 2;
        let reach = self.layout.half_window;
        let mut bands = Vec::with_capacity(self.layout.bands);
        for i in 0..self.layout.bands {
            let from = self.layout.center_of_band(i) - reach;
            for j in 0..=2 * reach {
                self.re[j] = delay[from + j] * self.band_window[j];
            }
            self.re[2 * reach + 1..].fill(0.0);
            self.fft.forward_real_f64(&mut self.re, &mut self.im);
            let mut power: Vec<f64> = (0..=half)
                .map(|j| complex_abs2(self.re[j], self.im[j]))
                .collect();
            power.sort_unstable_by(f64::total_cmp);
            let mut sums = Vec::new();
            running_sum(&power, |a: f64, b: f64| a + b, &mut sums);
            let total = sums[half];
            bands.push(if total > SAFE_GUARD_MINIMUM {
                10.0 * (sums[half - self.layout.boundary - 1] / total).log10()
            } else {
                -SAFE_GUARD_MINIMUM
            });
        }
        bands
    }

    /// Linear aperiodicity of each bin of a voiced frame.
    fn analyze(&mut self, x: &[f64], fo: f64, center: usize) -> Vec<f64> {
        let fo = fo.max((LOWEST_PITCH / HERTZ) as f64);
        let centroid = self.get_static_centroid(x, fo, center);
        let power = self.get_smoothed_power_spectrum(x, fo, center);
        let delay = self.get_static_group_delay(&centroid, &power, fo);
        let mut coarse = vec![-60.0];
        for band in self.get_coarse_aperiodicity(&delay) {
            coarse.push((band + (fo - 100.0) / 50.0).min(0.0));
        }
        coarse.push(-SAFE_GUARD_MINIMUM);
        let mut ap = vec![0.0; self.frequency_axis.len()];
        interp1(
            &self.coarse_axis,
            &coarse,
            &self.frequency_axis,
            &self.intervals,
            &mut ap,
        );
        for a in ap.iter_mut() {
            *a = 10f64.powf(*a / 20.0);
        }
        ap
    }
}

struct ApAnalyzer {
    cfg: Config,
    fs: f64,
    x_real: Vec<f64>,
    x_imag: Vec<f64>,
    d4c: D4c,
}

impl ApAnalyzer {
    fn new(cfg: &Config, fs: f64) -> Self {
        ApAnalyzer {
            cfg: *cfg,
            fs,
            x_real: vec![0.0; cfg.fftsize],
            x_imag: vec![0.0; cfg.fftsize],
            d4c: D4c::new(cfg, fs),
        }
    }

    /// Whether energy below the pitch dominates.
    fn low_band_dominated(&mut self, fft: &mut Fft, input: &[f64], fo: f64) -> bool {
        let n = self.cfg.fftsize;
        for i in 0..n {
            self.x_real[i] = input[i] * hanning_window(i as f64, n as f64, n as f64);
        }
        fft.forward_real_f64(&mut self.x_real, &mut self.x_imag);
        let (lo, mid, hi) = low_band_edges(&self.cfg, nanohertz(fo));
        let power = |k: usize| complex_abs2(self.x_real[k], self.x_imag[k]);
        let sub: f64 = (lo..mid).map(power).sum();
        let voice: f64 = (mid..=hi).map(power).sum();
        sub > LOWBAND_REJECT_RATIO * (sub + voice + 1e-12)
    }

    /// Whether low-mid energy dominates, as it does in voice.
    fn estimate_is_voiced(&mut self, fft: &mut Fft, input: &[f64], fo: f64) -> bool {
        let Some((lower, upper1, upper2)) = voice_band_edges(&self.cfg) else {
            return true;
        };
        let n = self.cfg.fftsize;
        let window_length = (1.5 * self.fs / fo).min(n as f64);
        for i in 0..n {
            self.x_real[i] = input[i] * blackman_window(i as f64, n as f64, window_length);
        }
        fft.forward_real_f64(&mut self.x_real, &mut self.x_imag);
        let power = |k: usize| complex_abs2(self.x_real[k], self.x_imag[k]);
        let mut low_mid = 1e-6;
        for k in lower + 1..=upper1 {
            low_mid += power(k);
        }
        let mut low_to_high = low_mid;
        for k in upper1 + 1..=upper2 {
            low_to_high += power(k);
        }
        low_mid / low_to_high > VOICED_BAND_RATIO
    }

    /// Aperiodicity of each bin of a voiced frame.
    fn aperiodicity(&mut self, input: &[f64], fo: f64) -> Vec<f64> {
        self.d4c.analyze(input, fo, self.cfg.fftsize / 2)
    }
}

// --- spectral envelope ---

struct SpAnalyzer {
    cfg: Config,
    fs: f64,
    period_ms: f64,
    window: Vec<f64>,
    x_real: Vec<f64>,
    x_imag: Vec<f64>,
    envelope: Vec<f64>,
}

impl SpAnalyzer {
    fn new(cfg: &Config, fs: f64, period_ms: f64) -> Self {
        SpAnalyzer {
            cfg: *cfg,
            fs,
            period_ms,
            window: vec![0.0; cfg.fftsize],
            x_real: vec![0.0; cfg.fftsize],
            x_imag: vec![0.0; cfg.fftsize],
            envelope: vec![0.0; cfg.fftsize],
        }
    }

    /// Fold the spectrum around a pitch back onto the bins below it.
    fn apply_replica(&mut self, fo: f64) {
        let fftsize = self.cfg.fftsize;
        let units = nanohertz(fo);
        assert!(
            2 * units as u128 <= self.cfg.fs as u128,
            "the pitch must be below half the sampling rate"
        );
        let bins = replica_bins(&self.cfg, units);
        for k in 0..bins {
            self.envelope[k] += self.envelope[fftsize - bins - k];
        }
        mirror_upper(&mut self.envelope, self.cfg.numbins);
    }

    /// Moving average of the spectrum over `2 * freq_range` hertz.
    fn smooth_spectrum(&mut self, freq_range: f64) {
        let numbins = self.cfg.numbins;
        let offset = numbins - 2;
        let (mut unfolded, mut sums) = (Vec::new(), Vec::new());
        unfold_spectrum(&self.envelope, numbins, &mut unfolded);
        running_sum(&unfolded, |a: f64, b: f64| a + b, &mut sums);
        let half_range = freq_range / self.fs * (numbins - 1) as f64;
        let whole = half_range.floor() as usize;
        let frac = half_range - whole as f64;
        for k in 0..numbins {
            let upper = offset + k + whole;
            let lower = offset + k - whole;
            let top = (1.0 - frac) * sums[upper - 1] + frac * sums[upper];
            let bottom = (1.0 - frac) * sums[lower] + frac * sums[lower - 1];
            self.envelope[k] = (top - bottom).max(1e-12) / (2.0 * half_range);
        }
        mirror_upper(&mut self.envelope, numbins);
    }

    /// Lifter the cepstrum of the envelope for a pitch.
    fn lifter_spectrum(&mut self, fft: &mut Fft, fo: f64) {
        let numbins = self.cfg.numbins;
        for e in self.envelope.iter_mut() {
            *e = (*e + 1e-12).ln();
        }
        self.x_imag[..numbins].fill(0.0);
        fft.inverse_real_f64(&mut self.envelope, &self.x_imag[..numbins]);
        let coeff = -0.15;
        for k in 0..numbins {
            let t = k as f64 * fo / self.fs;
            let sinct = (REIM_PI * t + 1e-12).sin() / (REIM_PI * t + 1e-12);
            self.envelope[k] *=
                sinct * ((1.0 - 2.0 * coeff) + 2.0 * coeff * (2.0 * REIM_PI * t).cos());
        }
        mirror_upper(&mut self.envelope, numbins);
        fft.forward_real_f64(&mut self.envelope, &mut self.x_imag);
        for e in &mut self.envelope[..numbins] {
            *e = e.exp();
        }
        mirror_upper(&mut self.envelope, numbins);
    }

    /// The envelope of a frame that is not silence.
    fn analyze(&mut self, fft: &mut Fft, input: &[f64], fo: f64, voiced: bool) -> Vec<f64> {
        let fftsize = self.cfg.fftsize;
        let numbins = self.cfg.numbins;
        let window_fo = if voiced {
            fo
        } else {
            1.0 / (self.period_ms / 1000.0)
        };
        let smooth_fo = if voiced { fo } else { 300.0 };

        let interval = self.fs / window_fo;
        let window_length = (3.0 * interval).min(fftsize as f64);
        let scale = 1.0 / interval.sqrt();
        for i in 0..fftsize {
            self.window[i] = hanning_window(i as f64, fftsize as f64, window_length) * scale;
            self.x_real[i] = input[i] * self.window[i];
        }
        let gain = self.x_real.iter().sum::<f64>() / self.window.iter().sum::<f64>();
        for i in 0..fftsize {
            self.x_real[i] -= gain * self.window[i];
        }
        fft.forward_real_f64(&mut self.x_real, &mut self.x_imag);
        for k in 0..numbins {
            self.envelope[k] = complex_abs2(self.x_real[k], self.x_imag[k]);
        }
        mirror_upper(&mut self.envelope, numbins);
        self.apply_replica(window_fo);
        self.smooth_spectrum(smooth_fo / 2.0);
        if voiced {
            self.lifter_spectrum(fft, smooth_fo);
        }
        self.envelope[..numbins].to_vec()
    }
}

// --- impulses ---

/// Minimum-phase spectrum with the power spectrum in `spec_r`, times `gain`.
fn generate_minimum_phase_spectrum(
    spec_r: &mut [f64],
    spec_i: &mut [f64],
    gain: f64,
    fft: &mut Fft,
) {
    let numbins = spec_r.len() / 2 + 1;
    for s in &mut spec_r[..numbins] {
        *s = (*s + 1e-12).ln();
    }
    spec_i[..numbins].fill(0.0);
    fft.inverse_real(spec_r, &spec_i[..numbins]);
    // Keep the causal half of the cepstrum.
    spec_r[0] *= 0.5;
    spec_r[numbins - 1] *= 0.5;
    spec_r[numbins..].fill(0.0);
    fft.forward_real(spec_r, spec_i);
    for k in 0..numbins {
        let a = gain * spec_r[k].exp();
        let b = spec_i[k];
        spec_r[k] = a * b.cos();
        spec_i[k] = a * b.sin();
    }
}

/// Spectra and windows from which impulses are made.
struct Excitation {
    cfg: Config,
    fs: f64,
    spec_pulse_r: Vec<f64>,
    spec_pulse_i: Vec<f64>,
    spec_noise_r: Vec<f64>,
    spec_noise_i: Vec<f64>,
    window: Vec<f64>,
    temp_r: Vec<f64>,
    temp_i: Vec<f64>,
    gain_noise: f64,
}

impl Excitation {
    fn new(cfg: &Config, fs: f64) -> Self {
        let n = cfg.fftsize;
        let mut window: Vec<f64> = (0..n).map(|i| vorbis_window(i as f64, n as f64)).collect();
        let gain: f64 = window.iter().sum();
        for w in window.iter_mut() {
            *w /= gain;
        }
        Excitation {
            cfg: *cfg,
            fs,
            spec_pulse_r: vec![0.0; n],
            spec_pulse_i: vec![0.0; n],
            spec_noise_r: vec![0.0; n],
            spec_noise_i: vec![0.0; n],
            window,
            temp_r: vec![0.0; n],
            temp_i: vec![0.0; n],
            gain_noise: (fs / 2000.0).round().sqrt(),
        }
    }

    /// Split the envelope between pulse and noise: what the pulse loses by
    /// aperiodicity and strength, the noise gains.
    fn split(&mut self, strength: f64, ap: &[f64], sp: &[f64]) {
        for k in 0..self.cfg.numbins {
            let aper = ap[k] * ap[k];
            self.spec_pulse_r[k] = sp[k] * (strength * (1.0 - aper));
            self.spec_noise_r[k] = sp[k] * (aper + (1.0 - strength) * (1.0 - aper));
        }
    }

    /// The pulse spectrum for a pitch.
    fn prepare_pulse(&mut self, fft: &mut Fft, fo: f64) {
        let gain = (self.fs / fo).sqrt();
        generate_minimum_phase_spectrum(&mut self.spec_pulse_r, &mut self.spec_pulse_i, gain, fft);
    }

    /// The noise spectrum.
    fn prepare_noise(&mut self, fft: &mut Fft) {
        generate_minimum_phase_spectrum(
            &mut self.spec_noise_r,
            &mut self.spec_noise_i,
            self.gain_noise,
            fft,
        );
    }

    /// The time-domain impulse of the spectrum in `temp_r` and `temp_i`, without its
    /// mean.
    fn impulse(&mut self, fft: &mut Fft) -> Vec<f64> {
        let n = self.cfg.fftsize;
        let numbins = self.cfg.numbins;
        fft.inverse_real(&mut self.temp_r, &self.temp_i[..numbins]);
        let mut impulse = vec![0.0; n];
        ifftshift(&self.temp_r, &mut impulse, numbins);
        let gain: f64 = impulse.iter().sum();
        for (x, w) in impulse.iter_mut().zip(&self.window) {
            *x -= w * gain;
        }
        impulse
    }

    /// The impulse of a noise burst.
    fn noise_impulse(&mut self, fft: &mut Fft) -> Vec<f64> {
        let numbins = self.cfg.numbins;
        self.temp_r[..numbins].copy_from_slice(&self.spec_noise_r[..numbins]);
        self.temp_i[..numbins].copy_from_slice(&self.spec_noise_i[..numbins]);
        self.impulse(fft)
    }

    /// The impulse of a pulse that comes `shift` of a sample later.
    fn pulse_impulse(&mut self, fft: &mut Fft, shift: f64) -> Vec<f64> {
        let numbins = self.cfg.numbins;
        if shift == 0.0 {
            self.temp_r[..numbins].copy_from_slice(&self.spec_pulse_r[..numbins]);
            self.temp_i[..numbins].copy_from_slice(&self.spec_pulse_i[..numbins]);
        } else {
            for k in 0..numbins {
                let omega = -REIM_PI * shift * k as f64 / (numbins - 1) as f64;
                let (ci, cr) = omega.sin_cos();
                self.temp_r[k] = cr * self.spec_pulse_r[k] - ci * self.spec_pulse_i[k];
                self.temp_i[k] = cr * self.spec_pulse_i[k] + ci * self.spec_pulse_r[k];
            }
        }
        self.impulse(fft)
    }
}

// --- the streaming types ---

const SILENCE_THRESHOLD: f64 = 0.00025;
const SILENT_ENVELOPE: f64 = 1e-12;
const SCORE_UNIT: f64 = 1e9;

fn defaults(fs: f64) -> (Config, PitchRange) {
    let rate = nanohertz(fs);
    let cfg = Config::with_defaults(rate);
    let range = PitchRange {
        floor: rank(71.0).unwrap(),
        ceil: rank(800.0).unwrap(),
    };
    (cfg, range)
}

fn analyze_silence(input: &[f64]) -> bool {
    let sum_of_squares: f64 = input[1..].iter().map(|x| x * x).sum();
    sum_of_squares / (input.len() as f64) < SILENCE_THRESHOLD * SILENCE_THRESHOLD
}

struct Analysis {
    fft: Fft,
    fo: FoAnalyzer,
    ap: ApAnalyzer,
    sp: SpAnalyzer,
}

impl Analysis {
    fn new(cfg: &Config, range: PitchRange, fs: f64) -> Self {
        let mut fft = Fft::new(cfg.fftsize);
        let fo = FoAnalyzer::new(cfg, range, fs, &mut fft);
        Analysis {
            fft,
            fo,
            ap: ApAnalyzer::new(cfg, fs),
            sp: SpAnalyzer::new(cfg, fs, 5.0),
        }
    }

    fn analyze_frame(&mut self, core: &mut reim::vocoder::Analyzer<f64>) {
        let Analysis { fft, fo, ap, sp } = self;
        let wave = core.frame().to_vec();
        let silence = analyze_silence(&wave);
        let found = fo.find(fft, &wave, core.delayed_frame(), core.seed());
        let best = core.track(found.start, &found.candidates);
        let (nccf, cpp) = fo.periodicity(fft, &wave, &best.fo);
        let features = VoicingFeatures {
            score: best.score.value,
            nccf,
            cpp,
        };
        let pitch = core.fo();
        let probability = voicing_probability(&features);
        let asked = core.needs_bands(silence);
        let rumble = asked && ap.low_band_dominated(fft, &wave, pitch);
        let voice = asked && !rumble && ap.estimate_is_voiced(fft, &wave, pitch);
        let units = (probability * SCORE_UNIT) as i64;
        let voiced = core.judge(silence, rumble, voice, features, probability, units);
        let aperiodicity = if voiced {
            ap.aperiodicity(&wave, pitch)
        } else {
            Vec::new()
        };
        let envelope = if silence {
            Vec::new()
        } else {
            sp.analyze(fft, &wave, pitch, voiced)
        };
        core.finish_frame(&aperiodicity, &envelope, 1.0, SILENT_ENVELOPE);
    }
}

struct Synthesis {
    fft: Fft,
    excitation: Excitation,
}

impl Synthesis {
    fn new(cfg: &Config, fs: f64) -> Self {
        Synthesis {
            fft: Fft::new(cfg.fftsize),
            excitation: Excitation::new(cfg, fs),
        }
    }

    fn prepare(
        &mut self,
        core: &mut reim::synth::Synthesizer<f64>,
        plan: FramePlan,
        fo: f64,
        strength: f64,
        ap: &[f64],
        sp: &[f64],
    ) {
        self.excitation.split(strength, ap, sp);
        if plan.pulse {
            self.excitation.prepare_pulse(&mut self.fft, fo);
        }
        if plan.noise {
            self.excitation.prepare_noise(&mut self.fft);
            core.load_noise(&self.excitation.noise_impulse(&mut self.fft));
        }
    }

    fn next_sample(&mut self, core: &mut reim::synth::Synthesizer<f64>) -> f64 {
        let pulse = match core.pulse_due() {
            Some(frac) => {
                let shift = frac as f64 / TICK as f64;
                self.excitation.pulse_impulse(&mut self.fft, shift)
            }
            None => Vec::new(),
        };
        core.next_sample(&pulse, |a: f64, b: f64| a + b)
    }
}

struct Analyzer {
    core: reim::vocoder::Analyzer<f64>,
    analysis: Analysis,
}

impl Analyzer {
    fn with_defaults(fs: f64) -> Self {
        let (cfg, range) = defaults(fs);
        Analyzer {
            core: reim::vocoder::Analyzer::with_defaults(nanohertz(fs), range, 0.0),
            analysis: Analysis::new(&cfg, range, fs),
        }
    }

    fn push_sample(&mut self, input: f64) -> bool {
        let new_frame = self.core.push_sample(input);
        if new_frame {
            self.analysis.analyze_frame(&mut self.core);
        }
        new_frame
    }

    fn analyze_to_frames(&mut self, input: &[f64]) -> Vec<Frame> {
        let mut frames = Vec::new();
        for &x in input {
            if self.push_sample(x) {
                frames.push(Frame {
                    fo: self.core.fo(),
                    voiced: self.core.voiced(),
                    silence: self.core.silence(),
                    aperiodicity: self.core.aperiodicity().to_vec(),
                    spectral_envelope: self.core.spectral_envelope().to_vec(),
                });
            }
        }
        frames
    }
}

struct Synthesizer {
    core: reim::synth::Synthesizer<f64>,
    synthesis: Synthesis,
}

impl Synthesizer {
    fn with_defaults(fs: f64) -> Self {
        let (cfg, _) = defaults(fs);
        Synthesizer {
            core: reim::synth::Synthesizer::with_defaults(nanohertz(fs), 0.0),
            synthesis: Synthesis::new(&cfg, fs),
        }
    }

    fn push_frame_with_strength(
        &mut self,
        fo: f64,
        strength: f64,
        silence: bool,
        ap: &[f64],
        sp: &[f64],
    ) {
        let order = rank(strength).unwrap();
        let plan = self
            .core
            .push_frame_with_strength(nanohertz(fo), order, silence);
        self.synthesis
            .prepare(&mut self.core, plan, fo, strength, ap, sp);
    }

    fn push_frame(&mut self, fo: f64, voiced: bool, silence: bool, ap: &[f64], sp: &[f64]) {
        let plan = self.core.push_frame(nanohertz(fo), voiced, silence);
        let strength = if voiced { 1.0 } else { 0.0 };
        self.synthesis
            .prepare(&mut self.core, plan, fo, strength, ap, sp);
    }

    fn next_sample(&mut self) -> f64 {
        self.synthesis.next_sample(&mut self.core)
    }

    /// Frames are 5 ms apart: 120 samples.
    fn synthesize_frames(&mut self, frames: &[Frame]) -> Vec<f64> {
        let mut out = Vec::new();
        for f in frames {
            self.push_frame(
                f.fo,
                f.voiced,
                f.silence,
                &f.aperiodicity,
                &f.spectral_envelope,
            );
            for _ in 0..120 {
                out.push(self.next_sample());
            }
        }
        out
    }
}

struct Reim {
    core: reim::vocoder::Reim<f64>,
    analysis: Analysis,
    synthesis: Synthesis,
}

impl Reim {
    fn with_defaults(fs: f64) -> Self {
        let (cfg, range) = defaults(fs);
        Reim {
            core: reim::vocoder::Reim::with_defaults(nanohertz(fs), range, 0.0),
            analysis: Analysis::new(&cfg, range, fs),
            synthesis: Synthesis::new(&cfg, fs),
        }
    }

    fn analyze_sample(&mut self, input: f64) -> bool {
        let new_frame = self.core.analyze_sample(input);
        if new_frame {
            self.analysis.analyze_frame(&mut self.core.analyzer);
        }
        new_frame
    }

    fn process_sample(&mut self, input: f64) -> f64 {
        if self.analyze_sample(input) {
            let plan = self.core.pass_frame();
            let reim::vocoder::Reim { analyzer, synth } = &mut self.core;
            let strength = if analyzer.voiced() { 1.0 } else { 0.0 };
            self.synthesis.prepare(
                synth,
                plan,
                analyzer.fo(),
                strength,
                analyzer.aperiodicity(),
                analyzer.spectral_envelope(),
            );
        }
        self.synthesis.next_sample(&mut self.core.synth)
    }

    fn process_block(&mut self, input: &[f64], output: &mut [f64]) {
        for (o, &x) in output.iter_mut().zip(input) {
            *o = self.process_sample(x);
        }
    }
}

// --- notes ---

#[derive(Clone)]
struct Frame {
    fo: f64,
    voiced: bool,
    silence: bool,
    aperiodicity: Vec<f64>,
    spectral_envelope: Vec<f64>,
}

fn hz_to_cents(hz: f64) -> f64 {
    1200.0 * (hz / 440.0).log2()
}

fn cents_to_hz(cents: f64) -> f64 {
    440.0 * 2.0_f64.powf(cents / 1200.0)
}

fn core_frames(frames: &[Frame]) -> Vec<reim::contour::Frame> {
    let core: Vec<reim::contour::Frame> = frames
        .iter()
        .map(|f| reim::contour::Frame {
            fo: (f.fo * NANO).round() as i64,
            cents: if f.fo > 0.0 {
                (hz_to_cents(f.fo) * NANO).round() as i64
            } else {
                0
            },
            voiced: f.voiced,
            silence: f.silence,
        })
        .collect();
    assert!(frames_fit(&core));
    core
}

fn swing(amp: i64, phase: i128) -> i64 {
    let turns = phase.rem_euclid(TURN as i128) as f64 / TURN as f64;
    (amp as f64 * (2.0 * PI * turns).sin()).round() as i64
}

fn drift_kernel(config: &SegmentConfig) -> Kernel {
    let sigma = FRAME_RATE / (2.0 * PI * config.drift_cutoff_hz as f64 / NANO);
    let radius = (3.0 * sigma).ceil() as i64;
    let weights = (-radius..=radius)
        .map(|x| ((-0.5 * (x as f64 / sigma).powi(2)).exp() * NANO).round() as u32)
        .collect();
    Kernel::new(weights).unwrap()
}

fn extract_vibrato(contour: &mut NoteContour) {
    let lag = contour.vibrato_lag;
    if lag == 0 {
        return;
    }
    let n = contour.residual.len();
    let mut planner = FftPlanner::new();
    let mut buf: Vec<Complex<f64>> = contour
        .residual
        .iter()
        .map(|&x| Complex::new(x as f64, 0.0))
        .collect();
    planner.plan_fft_forward(n).process(&mut buf);
    let mask = bandpass_mask(n, nanohertz(FRAME_RATE), lag);
    let gains = analytic_gains(n);
    for (i, c) in buf.iter_mut().enumerate() {
        *c *= if mask[i] { gains[i] as f64 } else { 0.0 };
    }
    planner.plan_fft_inverse(n).process(&mut buf);
    let amp: Vec<i64> = buf
        .iter()
        .map(|c| (c.norm() / n as f64).round() as i64)
        .collect();
    assert!(amp.iter().all(|&a| a <= 4 * PITCH_LIMIT));
    let phase: Vec<i64> = buf
        .iter()
        .map(|c| ((c.im.atan2(c.re) / (2.0 * PI) + 0.25) * TURN as f64).round() as i64)
        .collect();
    contour.set_vibrato(amp, unwrap_phase(&phase), swing);
}

fn segment(frames: &[Frame], config: &SegmentConfig) -> Vec<Segment> {
    let core = core_frames(frames);
    let kernel = drift_kernel(config);
    let mut segments = reim::segment::segment(&core, nanohertz(FRAME_RATE), config, &kernel);
    for seg in &mut segments {
        if let SegmentKind::Note(contour) = &mut seg.kind {
            extract_vibrato(contour);
        }
    }
    segments
}

fn interp_frame(fa: &Frame, fb: &Frame, nearest: &Frame, t: f64, fo: f64) -> Frame {
    if t == 0.0 {
        return Frame { fo, ..fa.clone() };
    }
    let floor = 1e-16_f64;
    Frame {
        fo,
        voiced: nearest.voiced,
        silence: nearest.silence,
        aperiodicity: fa
            .aperiodicity
            .iter()
            .zip(&fb.aperiodicity)
            .map(|(&a, &b)| a * (1.0 - t) + b * t)
            .collect(),
        spectral_envelope: fa
            .spectral_envelope
            .iter()
            .zip(&fb.spectral_envelope)
            .map(|(&a, &b)| (a.max(floor).ln() * (1.0 - t) + b.max(floor).ln() * t).exp())
            .collect(),
    }
}

fn render(frames: &[Frame], segments: &[Segment], edits: &[NoteEdit]) -> Vec<Frame> {
    let core = core_frames(frames);
    assert!(segments.iter().all(|s| can_render(s, core.len())));
    assert!(edits.iter().all(NoteEdit::fits));
    reim::render::render(&core, segments, edits, swing)
        .iter()
        .map(|r| match *r {
            RenderedFrame::Kept(i) => frames[i].clone(),
            RenderedFrame::Silent(i) => Frame {
                fo: 0.0,
                voiced: false,
                silence: true,
                ..frames[i].clone()
            },
            RenderedFrame::Voiced {
                from,
                to,
                nearest,
                num,
                den,
                cents,
            } => interp_frame(
                &frames[from],
                &frames[to],
                &frames[nearest],
                num as f64 / den as f64,
                cents_to_hz(cents as f64 / NANO),
            ),
        })
        .collect()
}

fn note_edits(segs: &[Segment], edit: impl Fn(usize, &Segment) -> NoteEdit) -> Vec<NoteEdit> {
    segs.iter()
        .enumerate()
        .filter(|(_, s)| matches!(s.kind, SegmentKind::Note(_)))
        .map(|(i, s)| edit(i, s))
        .collect()
}

// --- signals ---

fn synthetic_input() -> Vec<f64> {
    let mut x = vec![0.0; N];
    let mut lcg: u64 = 0x2545_F491_4F6C_DD1D;
    let mut noise = || {
        lcg = lcg
            .wrapping_mul(6364136223846793005)
            .wrapping_add(1442695040888963407);
        ((lcg >> 33) as f64 / (1u64 << 31) as f64) - 1.0
    };
    for (i, s) in x.iter_mut().enumerate() {
        let t = i as f64 / FS;
        if i < 4_000 {
            let f = 180.0 * (1.0 + 0.03 * (2.0 * PI * 5.0 * t).sin());
            let ph = 2.0 * PI * f * t;
            *s = 0.5 * (ph.sin() + 0.4 * (2.0 * ph).sin() + 0.2 * (3.0 * ph).sin());
        } else if i < 8_000 {
            let ph = 2.0 * PI * 220.0 * t;
            *s = 0.3 * ph.sin() + 0.25 * noise();
        }
    }
    x
}

fn tone(hz: f64, seconds: f64) -> Vec<f64> {
    let n = (FS * seconds) as usize;
    (0..n)
        .map(|i| 0.5 * (2.0 * PI * hz * i as f64 / FS).sin())
        .collect()
}

fn uniform(rng: &mut Xorshift) -> f64 {
    rng.uniform() as f64 / u32::MAX as f64
}

fn snr_db(reference: &[f64], test: &[f64]) -> f64 {
    let n = reference.len().min(test.len());
    let mut sig = 0.0;
    let mut err = 0.0;
    for i in 0..n {
        sig += reference[i] * reference[i];
        let d = reference[i] - test[i];
        err += d * d;
    }
    10.0 * (sig / (err + 1e-20)).log10()
}

fn approx(a: f64, b: f64, eta: f64) -> bool {
    (a - b).abs() <= eta
}

// --- tests ---

#[test]
fn frame_identity_roundtrip() {
    let input = synthetic_input();
    let mut reim = Reim::with_defaults(FS);
    let mut reference = vec![0.0; input.len()];
    reim.process_block(&input, &mut reference);

    let mut analyzer = Analyzer::with_defaults(FS);
    let frames = analyzer.analyze_to_frames(&input);
    assert!(!frames.is_empty(), "should produce frames");

    let mut synth = Synthesizer::with_defaults(FS);
    let test_output = synth.synthesize_frames(&frames);

    let n = reference.len().min(test_output.len());
    assert!(n > 0, "outputs should not be empty");
    let snr = snr_db(&reference[..n], &test_output[..n]);
    assert!(
        snr > 120.0,
        "identity round-trip SNR too low: {snr:.1} dB (need >120 dB)"
    );
}

#[test]
fn e2e_segment_boundaries() {
    let input = synthetic_input();
    let mut analyzer = Analyzer::with_defaults(FS);
    let frames = analyzer.analyze_to_frames(&input);
    let segs = segment(&frames, &SegmentConfig::default());

    let has_note = segs.iter().any(|s| matches!(s.kind, SegmentKind::Note(_)));
    let has_unvoiced = segs.iter().any(|s| matches!(s.kind, SegmentKind::Unvoiced));
    assert!(has_note, "should detect at least one note");
    assert!(has_unvoiced, "should detect silence as unvoiced");
    assert!(
        matches!(segs.last().unwrap().kind, SegmentKind::Unvoiced),
        "last segment should be unvoiced (silence)"
    );
}

#[test]
fn e2e_identity_through_segment_render() {
    let input = synthetic_input();
    let mut reim = Reim::with_defaults(FS);
    let mut reference = vec![0.0; input.len()];
    reim.process_block(&input, &mut reference);

    let mut analyzer = Analyzer::with_defaults(FS);
    let frames = analyzer.analyze_to_frames(&input);
    let segs = segment(&frames, &SegmentConfig::default());
    let edits = note_edits(&segs, |i, _| NoteEdit::identity(i));
    let rendered = render(&frames, &segs, &edits);
    assert_eq!(
        rendered.len(),
        frames.len(),
        "identity render should preserve frame count"
    );

    let mut synth = Synthesizer::with_defaults(FS);
    let test_output = synth.synthesize_frames(&rendered);
    let n = reference.len().min(test_output.len());
    let snr = snr_db(&reference[..n], &test_output[..n]);
    assert!(
        snr > 80.0,
        "full pipeline identity SNR too low: {snr:.1} dB (need >80 dB)"
    );
}

#[test]
fn e2e_pitch_correction() {
    let input = synthetic_input();
    let mut analyzer = Analyzer::with_defaults(FS);
    let frames = analyzer.analyze_to_frames(&input);
    let segs = segment(&frames, &SegmentConfig::default());

    let target = -1200.0;
    let edits = note_edits(&segs, |i, _| NoteEdit {
        target_cents: Some((target * NANO) as i64),
        drift_scale: 0,
        ..NoteEdit::identity(i)
    });
    let rendered = render(&frames, &segs, &edits);
    let voiced_cents: Vec<f64> = rendered
        .iter()
        .filter(|f| f.voiced)
        .map(|f| hz_to_cents(f.fo))
        .collect();
    if !voiced_cents.is_empty() {
        let mean = voiced_cents.iter().sum::<f64>() / voiced_cents.len() as f64;
        assert!(
            (mean - target).abs() < 50.0,
            "mean pitch should be near A3 ({target} cents), got {mean} cents"
        );
    }
}

#[test]
fn e2e_vibrato_removal() {
    let input = synthetic_input();
    let mut analyzer = Analyzer::with_defaults(FS);
    let frames = analyzer.analyze_to_frames(&input);
    let segs = segment(&frames, &SegmentConfig::default());
    let edits = note_edits(&segs, |i, _| NoteEdit {
        vibrato_scale: 0,
        ..NoteEdit::identity(i)
    });
    let core = core_frames(&frames);
    let rendered = reim::render::render(&core, &segs, &edits, swing);

    let mut out_offset = 0;
    for (seg_idx, seg) in segs.iter().enumerate() {
        let edit = edits.iter().find(|e| e.segment_index == seg_idx);
        let out_len = edit.and_then(|e| e.out_len).unwrap_or(seg.frames.len());
        if matches!(seg.kind, SegmentKind::Note(_)) {
            let original_cents: Vec<f64> = core[seg.frames.clone()]
                .iter()
                .filter(|f| f.voiced)
                .map(|f| f.cents as f64 / NANO)
                .collect();
            let rendered_cents: Vec<f64> = rendered[out_offset..out_offset + out_len]
                .iter()
                .filter_map(|r| match *r {
                    RenderedFrame::Voiced { nearest, cents, .. } if core[nearest].voiced => {
                        Some(cents as f64 / NANO)
                    }
                    _ => None,
                })
                .collect();
            if original_cents.len() > 2 && rendered_cents.len() > 2 {
                let var = |v: &[f64]| {
                    let mean = v.iter().sum::<f64>() / v.len() as f64;
                    v.iter().map(|c| (c - mean).powi(2)).sum::<f64>() / v.len() as f64
                };
                let orig_var = var(&original_cents);
                let rend_var = var(&rendered_cents);
                assert!(
                    rend_var <= orig_var,
                    "vibrato removal should reduce variance: orig={orig_var:.1}, rendered={rend_var:.1}"
                );
            }
        }
        out_offset += out_len;
    }
}

#[test]
fn e2e_time_stretch() {
    let input = synthetic_input();
    let mut analyzer = Analyzer::with_defaults(FS);
    let frames = analyzer.analyze_to_frames(&input);
    let segs = segment(&frames, &SegmentConfig::default());
    let edits = note_edits(&segs, |i, s| NoteEdit {
        out_len: Some(s.frames.len() * 2),
        ..NoteEdit::identity(i)
    });
    let rendered = render(&frames, &segs, &edits);
    assert!(
        rendered.len() > frames.len(),
        "stretched output should be longer"
    );
    let mut synth = Synthesizer::with_defaults(FS);
    let output = synth.synthesize_frames(&rendered);
    assert!(
        output.len() > input.len(),
        "synthesized stretched output should be longer"
    );
}

#[test]
fn e2e_achieved_vs_intended_identity() {
    let long_n: usize = 48_000;
    let long_input: Vec<f64> = (0..long_n)
        .map(|i| {
            let t = i as f64 / FS;
            let f = 220.0 * (1.0 + 0.02 * (2.0 * PI * 5.5 * t).sin());
            let ph = 2.0 * PI * f * t;
            0.5 * (ph.sin() + 0.3 * (2.0 * ph).sin())
        })
        .collect();
    let orig_frames = Analyzer::with_defaults(FS).analyze_to_frames(&long_input);
    let segs = segment(&orig_frames, &SegmentConfig::default());
    let edits = note_edits(&segs, |i, _| NoteEdit::identity(i));
    let rendered = render(&orig_frames, &segs, &edits);
    let out = Synthesizer::with_defaults(FS).synthesize_frames(&rendered);
    let again = Analyzer::with_defaults(FS).analyze_to_frames(&out);

    let voiced_cents = |frames: &[Frame]| -> Vec<f64> {
        frames
            .iter()
            .filter(|f| f.voiced && f.fo > 0.0)
            .map(|f| hz_to_cents(f.fo))
            .collect()
    };
    let orig_cents = voiced_cents(&orig_frames);
    let again_cents = voiced_cents(&again);
    assert!(
        orig_cents.len() >= 10 && again_cents.len() >= 10,
        "need voiced frames: orig={}, again={}",
        orig_cents.len(),
        again_cents.len()
    );
    let median_of = |v: &[f64]| {
        let mut s = v.to_vec();
        s.sort_by(|a, b| a.partial_cmp(b).unwrap());
        s[s.len() / 2]
    };
    let shift = (median_of(&again_cents) - median_of(&orig_cents)).abs();
    assert!(
        shift < 50.0,
        "identity pitch center shifted: {shift:.1} cents (need <50)"
    );
}

#[test]
fn push_frame_with_strength_matches_bool_paths() {
    let numbins = default_fftsize(nanohertz(FS), 71 * HERTZ) / 2 + 1;
    let ap = vec![0.5; numbins];
    let sp: Vec<f64> = (0..numbins).map(|k| 1.0 / (1.0 + k as f64)).collect();
    let play = |voiced: Option<bool>, strength: f64| {
        let mut synth = Synthesizer::with_defaults(FS);
        match voiced {
            Some(v) => synth.push_frame(220.0, v, false, &ap, &sp),
            None => synth.push_frame_with_strength(220.0, strength, false, &ap, &sp),
        }
        (0..2048).map(|_| synth.next_sample()).collect::<Vec<f64>>()
    };

    // strength 1.0 == voiced, bit-identical.
    assert_eq!(play(Some(true), 0.0), play(None, 1.0));
    // strength 0.0 == unvoiced when ap = 1.0.
    let ap_unvoiced = vec![1.0; numbins];
    let mut a = Synthesizer::with_defaults(FS);
    a.push_frame(220.0, false, false, &ap_unvoiced, &sp);
    let mut b = Synthesizer::with_defaults(FS);
    b.push_frame_with_strength(220.0, 0.0, false, &ap_unvoiced, &sp);
    for _ in 0..2048 {
        assert_eq!(a.next_sample(), b.next_sample());
    }
}

#[test]
fn silence_on_zeros_and_determinism() {
    let mut a = Reim::with_defaults(24000.0);
    let mut b = Reim::with_defaults(24000.0);
    let mut rng = Xorshift::new();
    let input: Vec<f64> = (0..6000).map(|_| 0.2 * (uniform(&mut rng) - 0.5)).collect();
    let mut oa = vec![0.0; input.len()];
    let mut ob = vec![0.0; input.len()];
    a.process_block(&input, &mut oa);
    b.process_block(&input, &mut ob);
    assert_eq!(oa, ob);
    assert!(oa.iter().all(|x| x.is_finite()));
}

#[test]
fn silence_produces_silence() {
    let mut r = Reim::with_defaults(24000.0);
    let input = vec![0.0; 6000];
    let mut out = vec![0.0; input.len()];
    r.process_block(&input, &mut out);
    assert!(
        out.iter().all(|&x| x == 0.0),
        "silent input must yield silence"
    );
}

#[test]
fn pure_tone_tracks_fo() {
    let input = tone(200.0, 0.5);
    let mut r = Reim::with_defaults(FS);
    let mut last = 0u64;
    let mut fos = Vec::new();
    for &x in &input {
        r.process_sample(x);
        if r.core.frame_count() != last {
            last = r.core.frame_count();
            if r.core.last_fo() > 0.0 {
                fos.push(r.core.last_fo());
            }
        }
    }
    assert!(!fos.is_empty(), "no fo detected on a pure tone");
    let mut tail: Vec<f64> = fos[fos.len() / 2..].to_vec();
    tail.sort_by(|a, b| a.partial_cmp(b).unwrap());
    let med = tail[tail.len() / 2];
    assert!(approx(med, 200.0, 10.0), "median fo {med} not near 200 Hz");
}

#[test]
fn ap_guard_matches_c_nan_semantics() {
    // A pitch that is not a number is neither below the floor nor above the ceiling,
    // so that the spectral gates decide.
    let (cfg, range) = defaults(24000.0);
    let mut fft = Fft::new(cfg.fftsize);
    let mut ap = ApAnalyzer::new(&cfg, 24000.0);
    let input: Vec<f64> = (0..cfg.fftsize)
        .map(|i| (2.0 * PI * 200.0 * i as f64 / 24000.0).sin())
        .collect();
    let mut decider = reim::voicing::VoicingDecider::new(range);
    assert!(decider.needs_bands(false, rank(f64::NAN)));
    let low_band_dominated = ap.low_band_dominated(&mut fft, &input, f64::NAN);
    let expected = ap.estimate_is_voiced(&mut fft, &input, f64::NAN);
    let voiced = decider.decide(reim::voicing::Evidence {
        silence: false,
        fo: rank(f64::NAN),
        low_band_dominated,
        voice_band: expected,
        score: i64::MAX,
    });
    assert_eq!(voiced, expected);
}

#[test]
fn no_nan_on_noise() {
    let mut r = Reim::with_defaults(48000.0);
    let mut rng = Xorshift::new();
    let input: Vec<f64> = (0..20000).map(|_| uniform(&mut rng) - 0.5).collect();
    let mut out = vec![0.0; input.len()];
    r.process_block(&input, &mut out);
    assert!(out.iter().all(|x| x.is_finite()));
}

#[test]
fn voicing_score_gate_is_opt_in() {
    let input = tone(200.0, 0.5);
    let count_voiced = |min: f64| {
        let mut r = Reim::with_defaults(FS);
        r.core.set_voicing_score_min((min * SCORE_UNIT) as i64);
        let mut last = 0u64;
        let mut voiced = 0usize;
        for &x in &input {
            r.process_sample(x);
            if r.core.frame_count() != last {
                last = r.core.frame_count();
                if r.core.last_voiced() {
                    voiced += 1;
                }
            }
        }
        voiced
    };
    assert!(
        count_voiced(0.0) > 0,
        "a 200 Hz tone must have voiced frames"
    );
    assert_eq!(
        count_voiced(f64::INFINITY),
        0,
        "infinite threshold must reject all frames"
    );
}

#[test]
fn analyze_sample_matches_process_sample_analysis() {
    let input = tone(180.0, 0.4);
    let mut a = Reim::with_defaults(FS);
    let mut b = Reim::with_defaults(FS);
    for &x in &input {
        a.analyze_sample(x);
        b.process_sample(x);
    }
    assert_eq!(a.core.frame_count(), b.core.frame_count());
    assert_eq!(a.core.last_fo(), b.core.last_fo());
    assert_eq!(a.core.last_voiced(), b.core.last_voiced());
    assert_eq!(a.core.last_silence(), b.core.last_silence());
    assert_eq!(
        a.core.last_spectral_envelope(),
        b.core.last_spectral_envelope()
    );
    assert_eq!(a.core.last_aperiodicity(), b.core.last_aperiodicity());
}

#[test]
fn analyzer_synthesizer_compose_equals_reim() {
    let input = tone(190.0, 0.4);
    let mut reim = Reim::with_defaults(FS);
    let mut fused = vec![0.0; input.len()];
    reim.process_block(&input, &mut fused);

    let mut analyzer = Analyzer::with_defaults(FS);
    let mut synth = Synthesizer::with_defaults(FS);
    let mut split = Vec::with_capacity(input.len());
    for &x in &input {
        if analyzer.push_sample(x) {
            let last = &analyzer.core;
            synth.push_frame(
                last.fo(),
                last.voiced(),
                last.silence(),
                last.aperiodicity(),
                last.spectral_envelope(),
            );
        }
        split.push(synth.next_sample());
    }
    assert_eq!(fused, split);
    assert!(fused.iter().any(|&x| x != 0.0));
}

#[test]
fn nccf_periodic_vs_noise() {
    let fs = 44100.0_f64;
    let fo = 220.0;
    let lag = (fs / fo).round() as usize;
    let n = 2048;
    let sine: Vec<f64> = (0..n)
        .map(|i| (2.0 * REIM_PI * fo * i as f64 / fs).sin())
        .collect();
    assert!(nccf_at_lag(&sine, lag) > 0.99);

    let offset_sine: Vec<f64> = sine.iter().map(|s| s + 5.0).collect();
    assert!(nccf_at_lag(&offset_sine, lag) > 0.99);
    assert!(nccf_at_lag(&offset_sine, lag + lag / 2) < 0.5);

    let mut rng = Xorshift::new();
    let noise: Vec<f64> = (0..n).map(|_| uniform(&mut rng) - 0.5).collect();
    assert!(nccf_at_lag(&noise, lag).abs() < 0.2);

    assert_eq!(nccf_at_lag(&sine, n / 2 + 1), 0.0);
    assert_eq!(nccf_at_lag(&sine, 0), 0.0);
}

#[test]
fn cpp_periodic_vs_noise() {
    let fs = 44100.0_f64;
    let fftsize = 2048;
    let numbins = fftsize / 2 + 1;
    let cfg = Config::new(5_000_000, fftsize, 71 * HERTZ, 800 * HERTZ, nanohertz(fs));
    let mut fft = Fft::new(fftsize);
    let mut re = vec![0.0; fftsize];
    let mut im = vec![0.0; fftsize];
    let pspec_of = |x: &[f64], fft: &mut Fft| {
        let mut r: Vec<f64> = x
            .iter()
            .enumerate()
            .map(|(i, &v)| v * hanning_window(i as f64, fftsize as f64, fftsize as f64))
            .collect();
        let mut i = vec![0.0; fftsize];
        fft.forward_real_f64(&mut r, &mut i);
        (0..numbins)
            .map(|k| complex_abs2(r[k], i[k]) + 1e-15)
            .collect::<Vec<f64>>()
    };
    let fo = 200.0;
    let voiced: Vec<f64> = (0..fftsize)
        .map(|i| {
            (1..=20)
                .map(|h| (2.0 * REIM_PI * fo * h as f64 * i as f64 / fs).sin() / h as f64)
                .sum()
        })
        .collect();
    let mut rng = Xorshift::new();
    let noise: Vec<f64> = (0..fftsize).map(|_| uniform(&mut rng) - 0.5).collect();

    let pspec = pspec_of(&voiced, &mut fft);
    let cpp_voiced = cepstral_peak_prominence(&pspec, &cfg, &mut re, &mut im, &mut fft);
    let pspec = pspec_of(&noise, &mut fft);
    let cpp_noise = cepstral_peak_prominence(&pspec, &cfg, &mut re, &mut im, &mut fft);
    assert!(
        cpp_voiced > 2.0 * cpp_noise,
        "cpp_voiced={cpp_voiced} cpp_noise={cpp_noise}"
    );

    let pspec = pspec_of(&vec![1e-20; fftsize], &mut fft);
    let cpp_tiny = cepstral_peak_prominence(&pspec, &cfg, &mut re, &mut im, &mut fft);
    assert!(cpp_tiny.is_finite());
}
