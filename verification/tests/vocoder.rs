use reim::config::{default_fftsize, Config, HERTZ};
use reim::framing::Framer;
use reim::pitch::{
    analyze_fo_with_zerocross, channel_count, channel_length, overlap_at_lag, quefrency_range,
    settle_refined, Candidate, FoTracker, PitchRange, Ranked,
};
use reim::ring::{wrap_next, CircularBuffer, CircularQueue};
use reim::rng::Xorshift;
use reim::spectrum::ifftshift;
use reim::synth::{FramePlan, NoiseClock, PulseClock, Synthesizer, TICK};
use reim::vocoder::{Analyzer, Reim};
use reim::voicing::{
    low_band_edges, voice_band_edges, Evidence, SchmittGate, VoicingDecider, VoicingFeatures,
};

const PI: f64 = std::f64::consts::PI;

fn approx(a: f64, b: f64, eta: f64) -> bool {
    (a - b).abs() <= eta
}

fn plus(a: f64, b: f64) -> f64 {
    a + b
}

/// The rank of a number: its bit pattern, negated for negative numbers.
fn rank(x: f64) -> Option<i64> {
    if x.is_nan() {
        None
    } else {
        let magnitude = x.abs().to_bits() as i64;
        Some(if x < 0.0 { -magnitude } else { magnitude })
    }
}

fn ranks(x: &[f64]) -> Vec<i64> {
    x.iter().map(|&v| rank(v).expect("a number")).collect()
}

fn pitch_range() -> PitchRange {
    PitchRange {
        floor: rank(71.0).unwrap(),
        ceil: rank(800.0).unwrap(),
    }
}

fn candidate(hz: f64, score: f64) -> Candidate<f64> {
    Candidate {
        fo: Ranked {
            value: hz,
            rank: rank(hz),
        },
        nanohertz: if hz > 0.0 { (hz * 1e9).round() as u64 } else { 0 },
        score: Ranked {
            value: score,
            rank: rank(score),
        },
    }
}

#[test]
fn schmitt_gate_hysteresis() {
    // Scores in billionths.
    let unit = 1_000_000_000;
    let high = 1000 * unit;
    let low = 800 * unit;
    let mut gate = SchmittGate { open: false };

    // Closed: only scores >= high pass.
    assert!(!gate.pass(high - unit, high));
    assert!(!gate.pass(low, high));
    assert!(gate.pass(high, high));

    // Open: scores in [low, high) keep passing.
    gate.open = true;
    assert!(gate.pass(high - unit, high));
    assert!(gate.pass(low, high));
    // Below low: closes.
    assert!(!gate.pass(low - 1, high));

    // A veto closes the latch regardless of score.
    gate.open = false;
    assert!(!gate.pass(high - unit, high));
}

#[test]
#[allow(clippy::excessive_precision)]
fn rng_matches_reference_c() {
    let expected = [
        0.29209269729724452,
        0.76769657264642799,
        0.013512801382111573,
        0.85400040048500536,
        0.64289931153014757,
    ];
    let mut rng = Xorshift::new();
    for &e in &expected {
        assert!(approx(rng.uniform() as f64 / u32::MAX as f64, e, 1e-15));
    }
}

#[test]
fn circular_buffer_overflow() {
    let mut cb = CircularBuffer::new(4, 0.0);
    let mut out = [0.0; 4];
    cb.copy_all(&mut out);
    assert_eq!(out, [0.0, 0.0, 0.0, 0.0]);

    cb.push(1.0);
    cb.push(2.0);
    cb.copy_all(&mut out);
    assert_eq!(out, [0.0, 0.0, 1.0, 2.0]);

    for v in [3.0, 4.0, 5.0] {
        cb.push(v);
    }
    cb.copy_all(&mut out);
    assert_eq!(out, [2.0, 3.0, 4.0, 5.0]);
}

#[test]
fn circular_queue_additive_and_fill() {
    let mut q = CircularQueue::new(4, 0.0);
    assert_eq!(q.remaining(), 0);
    assert_eq!(q.pop(), 0.0);

    q.push_additive(&[1.0, 2.0], &plus);
    assert_eq!(q.remaining(), 2);
    assert_eq!(q.pop(), 1.0);
    q.push_additive(&[1.0, 2.0], &plus); // additive into existing
    assert_eq!(q.remaining(), 2);
    assert_eq!(q.pop(), 3.0);
    assert_eq!(q.pop(), 2.0);
    assert_eq!(q.remaining(), 0);

    // overflow fill: 5 into capacity 4 keeps the last 4
    let mut q = CircularQueue::new(4, 0.0);
    q.push_additive(&[1.0, 2.0, 3.0, 4.0, 5.0], &plus);
    assert_eq!(q.remaining(), 4);
    assert_eq!(q.pop(), 2.0);
    assert_eq!(q.pop(), 3.0);
    assert_eq!(q.pop(), 4.0);
    assert_eq!(q.pop(), 5.0);
}

#[test]
fn ifftshift_matches_reference() {
    let src = [1.0, 2.0, 3.0, 4.0, 5.0, 6.0, 7.0, 8.0];
    let mut dst = [9.0; 8];
    ifftshift(&src, &mut dst, 5);
    assert_eq!(dst, [5.0, 6.0, 7.0, 8.0, 1.0, 2.0, 3.0, 4.0]);
}

#[test]
fn framer_emits_frames_on_grid() {
    let cfg = Config::new(5_000_000, 2048, 71 * HERTZ, 800 * HERTZ, 24_000 * HERTZ);
    let mut framer = Framer::new(&cfg, 0.0);
    let mut wf = vec![0.0; cfg.fftsize + 1];
    let mut boundaries = Vec::new();
    for i in 0..600 {
        if framer.next(i as f64, &mut wf) {
            boundaries.push(i);
            assert_eq!(wf[cfg.fftsize], i as f64);
        }
    }
    // framesize = 5/1000*24000 = 120 -> frames at 0,120,240,360,480
    assert_eq!(boundaries, vec![0, 120, 240, 360, 480]);
}

#[test]
fn framer_with_a_fractional_frame_length() {
    // 5 ms at 22050 Hz are 110.25 samples.
    let cfg = Config::new(5_000_000, 2048, 71 * HERTZ, 800 * HERTZ, 22_050 * HERTZ);
    let mut framer = Framer::new(&cfg, 0u32);
    let mut wf = vec![0u32; cfg.fftsize + 1];
    let mut boundaries = Vec::new();
    for i in 0..600 {
        if framer.next(i, &mut wf) {
            boundaries.push(i);
        }
    }
    let mut position = 0.0f64;
    let mut expected = Vec::new();
    for i in 0..600 {
        if position.floor() == 0.0 {
            expected.push(i);
        }
        if position >= 110.25 - 1.0 {
            position -= 110.25 - 1.0;
        } else {
            position += 1.0;
        }
    }
    assert_eq!(boundaries, expected);
}

#[test]
fn default_fftsize_adapts_to_sample_rate() {
    let floor = 71 * HERTZ;
    assert_eq!(default_fftsize(16000 * HERTZ, floor), 1024);
    assert_eq!(default_fftsize(24000 * HERTZ, floor), 2048);
    assert_eq!(default_fftsize(44100 * HERTZ, floor), 2048);
    assert_eq!(default_fftsize(48000 * HERTZ, floor), 2048);
    assert_eq!(default_fftsize(8000 * HERTZ, floor), 512); // clamped floor
}

#[test]
fn zerocross_periodicity_gate() {
    let fs = 24000.0;
    let n = 2048;
    let steady: Vec<f64> = (0..n)
        .map(|i| (2.0 * PI * 200.0 * i as f64 / fs).sin())
        .collect();
    let fo = analyze_fo_with_zerocross(&ranks(&steady), 24_000 * HERTZ).expect("a steady tone");
    let fo = fo as f64 / 1e9;
    assert!(approx(fo, 200.0, 5.0), "fo {fo} not near 200 Hz");

    // Half the window at 300 Hz, half at 900 Hz: mean ~600, variance ~90k, between
    // the mean and its square.
    let two_tone: Vec<f64> = (0..n)
        .map(|i| {
            let f = if i < n / 2 { 300.0 } else { 900.0 };
            (2.0 * PI * f * i as f64 / fs).sin()
        })
        .collect();
    assert!(
        analyze_fo_with_zerocross(&ranks(&two_tone), 24_000 * HERTZ).is_none(),
        "bimodal signal must be rejected"
    );
}

#[test]
fn zerocross_of_a_square_wave() {
    // Crossings upward every 8 samples, exactly.
    let wave: Vec<i64> = (0..64).map(|i| if i % 8 < 4 { 1 } else { -1 }).collect();
    assert_eq!(
        analyze_fo_with_zerocross(&wave, 8_000 * HERTZ),
        Some(1_000 * HERTZ)
    );
    assert_eq!(analyze_fo_with_zerocross(&[0, 0, 0, 0], 8_000 * HERTZ), None);
}

#[test]
fn pitch_without_a_number_reaches_the_spectral_tests() {
    // A pitch that is not a number lies neither below the floor nor above the
    // ceiling, so the spectral gates decide.
    for expected in [false, true] {
        let mut decider = VoicingDecider::new(pitch_range());
        assert!(decider.needs_bands(false, rank(f64::NAN)));
        let voiced = decider.decide(Evidence {
            silence: false,
            fo: rank(f64::NAN),
            low_band_dominated: false,
            voice_band: expected,
            score: i64::MAX,
        });
        assert_eq!(voiced, expected);
    }
    // Numbers out of range do not get that far.
    assert!(!VoicingDecider::new(pitch_range()).needs_bands(false, rank(70.9)));
    assert!(!VoicingDecider::new(pitch_range()).needs_bands(false, rank(800.1)));
    assert!(VoicingDecider::new(pitch_range()).needs_bands(false, rank(71.0)));
    assert!(!VoicingDecider::new(pitch_range()).needs_bands(true, rank(71.0)));
}

#[test]
fn silence_closes_the_latch() {
    let e = Evidence {
        silence: false,
        fo: rank(200.0),
        low_band_dominated: false,
        voice_band: true,
        score: 900,
    };
    let mut d = VoicingDecider::new(pitch_range());
    d.score_min = 1000;
    assert!(!d.decide(e));
    assert!(d.decide(Evidence { score: 1000, ..e }));
    // Open now: four fifths are enough.
    assert!(d.decide(e));
    assert!(d.decide(Evidence { score: 800, ..e }));
    assert!(!d.decide(Evidence { silence: true, ..e }));
    assert!(!d.decide(e));
    assert!(!d.decide(Evidence { low_band_dominated: true, score: 1000, ..e }));
}

#[test]
fn delayed_frame_lags_by_one() {
    let cfg = Config::new(1_000_000, 4, 71 * HERTZ, 800 * HERTZ, 24_000 * HERTZ);
    let mut a = Analyzer::new(&cfg, pitch_range(), 0u32);
    for x in 1..=25 {
        assert_eq!(a.push_sample(x), x == 1 || x == 25);
    }
    assert_eq!(a.frame(), [22, 23, 24, 25]);
    assert_eq!(a.delayed_frame(), [21, 22, 23, 24]);
}

#[test]
fn unvoiced_and_silent_frames_have_fixed_spectra() {
    let cfg = Config::new(1_000_000, 4, 71 * HERTZ, 800 * HERTZ, 24_000 * HERTZ);
    let mut a = Analyzer::new(&cfg, pitch_range(), 0.0);
    assert_eq!(a.numbins(), 3);
    let features = VoicingFeatures {
        score: 1.0,
        nccf: 2.0,
        cpp: 3.0,
    };
    a.track(candidate(200.0, 5.0), &[]);
    assert_eq!(a.fo(), 200.0);
    assert!(a.judge(false, false, true, features, 0.5, 0));
    a.finish_frame(&[0.1, 0.2, 0.3], &[4.0, 5.0, 6.0], 1.0, 1e-12);
    assert_eq!(a.aperiodicity(), [0.1, 0.2, 0.3]);
    assert_eq!(a.spectral_envelope(), [4.0, 5.0, 6.0]);

    a.track(candidate(200.0, 5.0), &[]);
    assert!(!a.judge(false, false, false, features, 0.5, 0));
    a.finish_frame(&[0.1, 0.2, 0.3], &[4.0, 5.0, 6.0], 1.0, 1e-12);
    assert_eq!(a.aperiodicity(), [1.0, 1.0, 1.0]);
    assert_eq!(a.spectral_envelope(), [4.0, 5.0, 6.0]);

    assert!(!a.judge(true, false, true, features, 0.5, 0));
    a.finish_frame(&[0.1, 0.2, 0.3], &[4.0, 5.0, 6.0], 1.0, 1e-12);
    assert_eq!(a.aperiodicity(), [1.0, 1.0, 1.0]);
    assert_eq!(a.spectral_envelope(), [1e-12, 1e-12, 1e-12]);
    assert!(a.silence());
    assert_eq!(a.frame_count(), 3);
}

#[test]
fn tracker_takes_the_best_and_remembers_it() {
    let mut t = FoTracker::new(pitch_range(), 0.0);
    assert_eq!(t.seed(), None);
    let none = candidate(-1.0, -1.0);
    let found = t.choose_best(none, &[]);
    assert!(!found.found);
    assert_eq!(t.seed(), None);
    let found = t.choose_best(
        none,
        &[candidate(100.0, 2.0), candidate(200.0, 3.0), candidate(300.0, 3.0)],
    );
    assert!(found.found);
    assert_eq!(found.best.fo.value, 200.0);
    assert_eq!(t.seed(), Some(200.0));
    // A score that is not a number never takes over.
    let found = t.choose_best(candidate(150.0, 1.0), &[candidate(400.0, f64::NAN)]);
    assert_eq!(found.best.fo.value, 150.0);
    // Out of range is no pitch, and the last one stays.
    let found = t.choose_best(none, &[candidate(900.0, 5.0)]);
    assert!(!found.found);
    assert_eq!(t.seed(), Some(150.0));
    // At the floor there is nothing to start from.
    t.choose_best(candidate(71.0, 1.0), &[]);
    assert_eq!(t.seed(), None);
}

#[test]
fn pulses_fall_on_the_grid() {
    // 24000 / 220 samples apart: 109 + 1/11.
    let mut clock = PulseClock {
        interval: 24_000 * TICK / 220,
        wait: 0,
        frac: 0,
    };
    let mut at = Vec::new();
    for t in 0..1400u128 {
        if clock.wait == 0 {
            at.push(t * TICK + clock.frac as u128);
        }
        clock.tick();
    }
    for (k, &p) in at.iter().enumerate() {
        assert_eq!(p, k as u128 * clock.interval);
    }
    assert_eq!(at.len(), 13);
}

#[test]
fn noise_sounds_once_per_stretch() {
    let mut clock = NoiseClock::new(12);
    let mut at = Vec::new();
    for t in 0..60 {
        if clock.due() {
            at.push(t);
        }
        clock.tick();
    }
    // The register steps to 0.292.., 0.767.., 0.0135.., 0.854..: samples 3, 8, 0, 9
    // of 11. A stretch is counted from one, so that sample 0 does not sound.
    assert_eq!(at, vec![0, 14, 30, 53]);
}

#[test]
fn frames_without_strength_have_no_pulse() {
    let cfg = Config::with_defaults(24_000 * HERTZ);
    let mut s = Synthesizer::new(&cfg, 0.0);
    let quiet = FramePlan {
        pulse: false,
        noise: false,
    };
    let noise = FramePlan {
        pulse: false,
        noise: true,
    };
    let both = FramePlan {
        pulse: true,
        noise: true,
    };
    assert_eq!(s.push_frame(220 * HERTZ, true, true), quiet);
    assert_eq!(s.push_frame(220 * HERTZ, false, false), noise);
    assert_eq!(s.push_frame(0, true, false), noise);
    assert_eq!(s.push_frame(801 * HERTZ, true, false), noise);
    assert_eq!(s.push_frame_with_strength(800 * HERTZ, 0, false), noise);
    assert_eq!(s.push_frame_with_strength(800 * HERTZ, 1, false), both);
    assert_eq!(s.push_frame(71 * HERTZ, true, false), both);
    assert_eq!(s.pulse_due(), Some(0));
}

#[test]
fn channels_of_the_default_range() {
    // Seven half octaves reach from 71 to 800 Hz.
    assert_eq!(channel_count(71 * HERTZ, 800 * HERTZ), 7);
    let lengths: Vec<usize> = (0..7)
        .map(|ch| channel_length(24_000 * HERTZ, 71 * HERTZ, 800 * HERTZ, ch))
        .collect();
    let expected: Vec<usize> = (0..7)
        .map(|ch| (24000.0 / (71.0 * 2f64.powf((1.0 + ch as f64) / 2.0))).ceil() as usize)
        .collect();
    assert_eq!(lengths, expected);
    assert_eq!(lengths[0], 240);
    assert_eq!(channel_count(100 * HERTZ, 200 * HERTZ), 2);
}

#[test]
fn overlap_needs_one_period() {
    assert_eq!(overlap_at_lag(2048, 0), None);
    assert_eq!(overlap_at_lag(2048, 1025), None);
    assert_eq!(overlap_at_lag(2048, 1024), Some(1024));
    assert_eq!(overlap_at_lag(2048, 200), Some(1848));
}

#[test]
fn quefrencies_of_the_pitch_range() {
    let h = HERTZ;
    assert_eq!(
        quefrency_range(44_100 * h, 71 * h, 800 * h, 1025),
        Some((56, 621))
    );
    assert_eq!(
        quefrency_range(44_100 * h, 71 * h, 800 * h, 500),
        Some((56, 499))
    );
    assert_eq!(quefrency_range(44_100 * h, 71 * h, 800 * h, 57), None);
}

#[test]
fn band_edges() {
    let cfg = Config::with_defaults(24_000 * HERTZ);
    // 100, 4000 and 7900 Hz at 2048 bins over 24 kHz.
    assert_eq!(voice_band_edges(&cfg), Some((8, 341, 674)));
    // 20, 160 and 1200 Hz for a pitch of 200 Hz.
    assert_eq!(low_band_edges(&cfg, 200 * HERTZ), (1, 13, 102));
    // Six times 3 kHz would be above half the rate.
    assert_eq!(low_band_edges(&cfg, 3000 * HERTZ), (1, 204, 1023));
    let low = Config::with_defaults(8_000 * HERTZ);
    assert_eq!(voice_band_edges(&low), None);
}

#[test]
fn configurations_that_are_refused() {
    let h = HERTZ;
    assert!(Config::accepts(2048, 71 * h, 800 * h, 24_000 * h));
    assert!(!Config::accepts(2000, 71 * h, 800 * h, 24_000 * h));
    assert!(!Config::accepts(2048, 0, 800 * h, 24_000 * h));
    assert!(!Config::accepts(2048, 800 * h, 800 * h, 24_000 * h));
    assert!(!Config::accepts(2048, 71 * h, 800 * h, 1_600 * h));
    assert!(!Config::accepts(1, 71 * h, 800 * h, 24_000 * h));
    let cfg = Config::with_defaults(16_000 * h);
    assert_eq!(cfg.fftsize, 1024);
    assert_eq!(cfg.numbins, 513);
    assert_eq!(cfg.period, 5_000_000);
    // 16000 / 71 rounded up.
    assert_eq!(cfg.period_max(), 226);
}

#[test]
fn wrap_at_the_end() {
    assert_eq!(wrap_next(0, 4), 1);
    assert_eq!(wrap_next(3, 4), 0);
    assert_eq!(wrap_next(0, 1), 0);
}

#[test]
fn random_numbers_below_a_bound() {
    let mut rng = Xorshift::new();
    // 0.292.. and 0.767.. of 11.
    assert_eq!(rng.below_or_at(11), 3);
    assert_eq!(rng.below_or_at(11), 8);
}

#[test]
fn refinement_stays_in_range() {
    let of = |hz: f64| Ranked {
        value: hz,
        rank: rank(hz),
    };
    let settle = |fo: f64, refined: f64| {
        settle_refined(pitch_range(), of(fo), of(refined), rank((refined - fo).abs())).value
    };
    assert_eq!(settle(200.0, 203.0), 203.0);
    assert_eq!(settle(200.0, 70.0), 200.0);
    assert_eq!(settle(700.0, 801.0), 700.0);
    // A move by more than the pitch itself.
    assert_eq!(settle(100.0, 200.0), 200.0);
    assert_eq!(settle(100.0, 201.0), 100.0);
    // What is not a number is neither out of range nor far.
    assert!(settle(200.0, f64::NAN).is_nan());
    assert!(pitch_range().in_range(rank(800.0)));
    assert!(!pitch_range().in_range(rank(f64::NAN)));
}

/// Landmarks of every kind 30 and 60 samples apart.
fn two_intervals() -> Vec<i64> {
    let mut wave = vec![-1; 120];
    for at in [10, 40, 100] {
        wave[at] = 1;
    }
    wave
}

#[test]
fn zerocross_gate_is_exact() {
    // At 360 Hz the frequencies are 12 and 6 Hz: their mean is 8 and so is their
    // variance.
    let wave = two_intervals();
    let rate = 360 * HERTZ;
    assert_eq!(analyze_fo_with_zerocross(&wave, rate), Some(8 * HERTZ));
    assert_eq!(analyze_fo_with_zerocross(&wave, rate + 1), None);
    assert!(analyze_fo_with_zerocross(&wave, rate - 1).is_some());
}

#[test]
fn zerocross_without_a_rate() {
    assert_eq!(analyze_fo_with_zerocross(&two_intervals(), 0), None);
}

fn small_config() -> Config {
    Config::new(1_000_000, 4, 71 * HERTZ, 800 * HERTZ, 24_000 * HERTZ)
}

fn no_features() -> VoicingFeatures<f64> {
    VoicingFeatures {
        score: 0.0,
        nccf: 0.0,
        cpp: 0.0,
    }
}

/// A frame that is voiced where its newest sample is above one half, and silent
/// where it is zero.
fn analyze(a: &mut Analyzer<f64>) {
    let newest = a.frame()[3];
    let silence = newest == 0.0;
    a.track(candidate(100.0 + newest, newest), &[]);
    a.judge(silence, false, newest > 0.5, no_features(), newest, 0);
    a.finish_frame(&[newest; 3], &[2.0 * newest; 3], 1.0, 1e-12);
}

#[test]
fn frames_are_counted_at_the_frame_rate() {
    let mut a = Analyzer::new(&small_config(), pitch_range(), 0.0);
    assert_eq!(a.frame_count(), 0);
    for n in 1..=200u64 {
        let before = (a.frame_count(), a.fo(), a.voiced(), a.aperiodicity().to_vec());
        if a.push_sample(n as f64 / 200.0) {
            analyze(&mut a);
            assert_eq!(a.frame_count(), before.0 + 1);
        } else {
            assert_eq!(
                (a.frame_count(), a.fo(), a.voiced(), a.aperiodicity().to_vec()),
                before
            );
        }
        // Frames are 24 samples long.
        assert_eq!(a.frame_count(), (n - 1) / 24 + 1);
        assert_eq!(a.aperiodicity().len(), 3);
        assert_eq!(a.spectral_envelope().len(), 3);
    }
}

#[test]
fn frames_shorter_than_a_sample_end() {
    // A period of 30 us at 24 kHz is 0.72 samples: the position grows by 0.28 samples,
    // and frames begin while it is below one.
    let cfg = Config::new(30_000, 4, 71 * HERTZ, 800 * HERTZ, 24_000 * HERTZ);
    let mut a = Analyzer::new(&cfg, pitch_range(), 0.0);
    let begun: Vec<bool> = (0..8).map(|_| a.push_sample(0.0)).collect();
    assert_eq!(
        begun,
        [true, true, true, true, false, false, false, false]
    );
}

#[test]
fn frames_are_consistent() {
    let mut a = Analyzer::new(&small_config(), pitch_range(), 0.0);
    let mut seen = (0, 0, 0);
    for n in 0..400 {
        let x = [0.0, 0.25, 0.75][(n / 24) % 3];
        if a.push_sample(x) {
            analyze(&mut a);
        }
        if a.voiced() {
            assert!(!a.silence() && 71.0 <= a.fo() && a.fo() <= 800.0);
            assert_eq!(a.voiced_fo(), a.fo());
            seen.0 += 1;
        } else {
            assert_eq!(a.aperiodicity(), [1.0, 1.0, 1.0]);
            assert_eq!(a.voiced_fo(), 0.0);
            seen.1 += 1;
        }
        if a.silence() {
            assert!(!a.voiced());
            assert_eq!(a.spectral_envelope(), [1e-12, 1e-12, 1e-12]);
            seen.2 += 1;
        }
    }
    assert!(seen.0 > 100 && seen.1 > 100 && seen.2 > 100);
}

#[test]
fn spectra_of_unvoiced_silence_may_be_left_out() {
    let mut a = Analyzer::new(&small_config(), pitch_range(), 0.0);
    a.track(candidate(200.0, 5.0), &[]);
    assert!(!a.judge(true, false, true, no_features(), 0.5, 0));
    a.finish_frame(&[], &[], 1.0, 1e-12);
    assert_eq!(a.aperiodicity(), [1.0, 1.0, 1.0]);
    assert_eq!(a.spectral_envelope(), [1e-12, 1e-12, 1e-12]);
}

#[test]
fn synthesis_falls_silent() {
    let cfg = small_config();
    let mut s = Synthesizer::new(&cfg, 0.0);
    for _ in 0..10 {
        assert_eq!(s.next_sample(&[], plus), 0.0);
    }
    s.push_frame(220 * HERTZ, true, false);
    s.load_noise(&[0.5, 0.25, 0.125, 0.0625]);
    let mut loud = 0;
    for _ in 0..100 {
        let pulse: &[f64] = match s.pulse_due() {
            Some(_) => &[1.0, 1.0, 1.0, 1.0],
            None => &[],
        };
        if s.next_sample(pulse, plus) != 0.0 {
            loud += 1;
        }
    }
    assert!(loud >= 4);
    // The clock of the noise starts anew with every stretch: find a burst.
    while s.next_sample(if s.pulse_due().is_some() { &[0.0; 4] } else { &[] }, plus) != 0.5 {}
    s.push_frame(220 * HERTZ, true, true);
    assert_eq!(s.pulse_due(), None);
    let rest: Vec<f64> = (0..50).map(|_| s.next_sample(&[], plus)).collect();
    assert_eq!(&rest[..4], [0.25, 0.125, 0.0625, 0.0]);
    assert!(rest[4..].iter().all(|&x| x == 0.0));
}

#[test]
fn strength_sounds_as_the_flag_it_matches() {
    let cfg = small_config();
    let mut flagged = Synthesizer::new(&cfg, 0.0);
    let mut graded = Synthesizer::new(&cfg, 0.0);
    let one = rank(1.0).unwrap();
    for frame in 0..12u64 {
        let fo = (90 + 60 * frame) * HERTZ;
        let voiced = frame % 3 != 1;
        let silence = frame % 5 == 4;
        let a = flagged.push_frame(fo, voiced, silence);
        let b = graded.push_frame_with_strength(fo, if voiced { one } else { 0 }, silence);
        assert_eq!(a, b);
        if a.noise {
            let level = 1.0 / (frame + 1) as f64;
            flagged.load_noise(&[level; 4]);
            graded.load_noise(&[level; 4]);
        }
        for _ in 0..24 {
            assert_eq!(flagged.pulse_due(), graded.pulse_due());
            let pulse: &[f64] = match flagged.pulse_due() {
                Some(_) => &[1.0, 0.5, 0.25, 0.125],
                None => &[],
            };
            assert_eq!(
                flagged.next_sample(pulse, plus),
                graded.next_sample(pulse, plus)
            );
        }
    }
}

#[test]
fn analysis_alone_gives_the_same_frames() {
    let cfg = small_config();
    let mut alone = Reim::new(&cfg, pitch_range(), 0.0);
    let mut both = Reim::new(&cfg, pitch_range(), 0.0);
    let mut sounded = 0;
    for n in 0..500 {
        let x = (n % 7) as f64 / 7.0;
        assert_eq!(alone.analyze_sample(x), both.analyze_sample(x));
        if n % 24 == 0 {
            analyze(&mut alone.analyzer);
            analyze(&mut both.analyzer);
            if both.pass_frame().noise {
                both.synth.load_noise(&[1.0; 4]);
            }
        }
        let pulse: &[f64] = match both.synth.pulse_due() {
            Some(_) => &[1.0; 4],
            None => &[],
        };
        if both.synth.next_sample(pulse, plus) != 0.0 {
            sounded += 1;
        }
        assert_eq!(alone.frame_count(), both.frame_count());
        assert_eq!(alone.last_fo(), both.last_fo());
        assert_eq!(alone.last_voiced(), both.last_voiced());
        assert_eq!(alone.last_silence(), both.last_silence());
        assert_eq!(alone.last_aperiodicity(), both.last_aperiodicity());
        assert_eq!(alone.last_spectral_envelope(), both.last_spectral_envelope());
        assert_eq!(alone.last_voicing_score(), both.last_voicing_score());
    }
    assert!(sounded > 0);
    assert_eq!(alone.synth.next_sample(&[], plus), 0.0);
}

#[test]
fn pitches_that_are_tracked() {
    let cfg = small_config();
    assert!(cfg.tracks(71 * HERTZ) && cfg.tracks(800 * HERTZ));
    assert!(!cfg.tracks(71 * HERTZ - 1) && !cfg.tracks(800 * HERTZ + 1));
}

#[test]
fn vocoder_is_analyzer_and_synthesizer() {
    let cfg = small_config();
    let mut fused = Reim::new(&cfg, pitch_range(), 0.0);
    let mut a = Analyzer::new(&cfg, pitch_range(), 0.0);
    let mut s = Synthesizer::new(&cfg, 0.0);
    let mut sounded = 0;
    for n in 0..600 {
        let x = (n % 7) as f64 / 7.0;
        if fused.analyze_sample(x) {
            analyze(&mut fused.analyzer);
            if fused.pass_frame().noise {
                let level = fused.last_spectral_envelope()[0];
                fused.synth.load_noise(&[level; 4]);
            }
        }
        if a.push_sample(x) {
            analyze(&mut a);
            if s.push_frame(a.fo_nanohertz(), a.voiced(), a.silence()).noise {
                s.load_noise(&[a.spectral_envelope()[0]; 4]);
            }
        }
        let impulse = |due: Option<u64>, ap: &[f64]| match due {
            Some(_) => vec![ap[0]; 4],
            None => Vec::new(),
        };
        let p = impulse(fused.synth.pulse_due(), fused.last_aperiodicity());
        let q = impulse(s.pulse_due(), a.aperiodicity());
        let y = fused.synth.next_sample(&p, plus);
        assert_eq!(y.to_bits(), s.next_sample(&q, plus).to_bits());
        if y != 0.0 {
            sounded += 1;
        }
    }
    assert!(sounded > 10);
}
