use reim::config::{Config, HERTZ};
use reim::contour::{find_vibrato_lag, SegmentConfig};
use reim::d4c::{
    buckets, half_window_length, quarter_period_centers, window_taps, D4cLayout, BAND_INTERVAL,
};
use reim::eval::{
    compare_features, parse_index, parse_row, quantile_index, split_fields, FrameFeatures, RawRow,
    Row, Tally,
};
use reim::glide::{detect_transition, merge_notes, Span};
use reim::heap::Heap;
use reim::median::{median_cents, RunningMedian};
use reim::natural::Natural;
use reim::notes::find_note_starts;
use reim::num::{even_div, floor_div, round_div};
use reim::pitch::MAX_RATE;
use reim::render::{note_render_lengths, NoteEdit};
use reim::smooth::{autocorrelation, gaussian_lowpass, Kernel};
use reim::spectrum::{
    extend_spectrum, ifftshift, mirror_upper, replica_bins, running_sum, unfold_spectrum,
};
use reim::svg::{note_name, pitches_fit, DRAWN_LIMIT};
use reim::text::{append_decimal, append_fixed_point, append_signed, append_tenths};
use reim::vibrato::{analytic_gains, bandpass_mask, unwrap_phase, HALF_TURN, TURN};

const CENT: i64 = 1_000_000_000;

fn name_of(cents: i64) -> String {
    let mut out = String::new();
    note_name(&mut out, cents * CENT);
    out
}

#[test]
fn quotients_round_down_or_to_nearest() {
    assert_eq!(floor_div(-7, 2), -4);
    assert_eq!(floor_div(7, 2), 3);
    assert_eq!(round_div(7, 2), 4);
    assert_eq!(round_div(-7, 2), -3);
    assert_eq!(round_div(-5, 3), -2);
    assert_eq!(round_div(4, 3), 1);
}

#[test]
fn median_is_the_upper_one() {
    assert_eq!(median_cents(&[4, 1, 3, 2]), 3);
    assert_eq!(median_cents(&[5, 1, 3]), 3);
    let mut running = RunningMedian::new();
    let pushed = [4, 1, 3, 2, 2, 9];
    for (i, &x) in pushed.iter().enumerate() {
        running.push(x);
        assert_eq!(running.median(), median_cents(&pushed[..=i]));
    }
    running.clear();
    running.push(7);
    assert_eq!(running.median(), 7);
}

#[test]
fn smoothing_reflects_at_the_ends() {
    let kernel = Kernel::new(vec![1, 2, 1]).unwrap();
    assert_eq!(kernel.reach(), 1);
    // Padded to 8 | 0 8 16 | 8.
    assert_eq!(gaussian_lowpass(&[0, 8, 16], &kernel), vec![4, 8, 12]);
    assert_eq!(gaussian_lowpass(&[5], &kernel), vec![5]);
    let point = Kernel::new(vec![3]).unwrap();
    assert_eq!(gaussian_lowpass(&[1, 2, 4], &point), vec![1, 2, 4]);
}

#[test]
fn kernels_that_are_refused() {
    assert!(Kernel::new(vec![1, 1]).is_none());
    assert!(Kernel::new(vec![0, 0, 0]).is_none());
    assert!(Kernel::new(Vec::new()).is_none());
}

#[test]
fn autocorrelation_of_a_short_track() {
    assert_eq!(autocorrelation(&[1, 2, 3], 1), vec![14, 8]);
    assert_eq!(autocorrelation(&[1, 2, 3], 9), vec![14, 8, 3]);
}

#[test]
fn vibrato_lag_of_a_square_wave() {
    // Six hertz at 120 frames a second: 20 frames.
    let track: Vec<i64> = (0..120)
        .map(|i| if i % 20 < 10 { 30 * CENT } else { -30 * CENT })
        .collect();
    let config = SegmentConfig::default();
    assert_eq!(find_vibrato_lag(&track, 120 * HERTZ, &config), 20);
    // Less than two periods of the slowest vibrato.
    assert_eq!(find_vibrato_lag(&track[..59], 120 * HERTZ, &config), 0);
    assert_eq!(find_vibrato_lag(&[0; 120], 120 * HERTZ, &config), 0);
}

#[test]
fn vibrato_band() {
    // Eight bins at 8 Hz: one hertz each. A lag of four is two hertz.
    assert_eq!(
        bandpass_mask(8, 8 * HERTZ, 4),
        vec![false, true, true, true, false, true, true, true]
    );
}

#[test]
fn gains_of_the_analytic_signal() {
    assert_eq!(analytic_gains(6), vec![1, 2, 2, 1, 0, 0]);
    assert_eq!(analytic_gains(5), vec![1, 2, 2, 0, 0]);
    assert_eq!(analytic_gains(1), vec![1]);
}

#[test]
fn unwrapping_removes_whole_turns() {
    let q = TURN / 4;
    assert_eq!(
        unwrap_phase(&[0, q, 2 * q, -q, 0, q]),
        vec![0, q, 2 * q, 3 * q, 4 * q, 5 * q]
    );
    assert_eq!(unwrap_phase(&[0, HALF_TURN]), vec![0, HALF_TURN]);
    assert_eq!(unwrap_phase(&[0, HALF_TURN + 1]), vec![0, 1 - HALF_TURN]);
}

#[test]
fn notes_begin_at_the_steepest_slope() {
    let mut run = vec![0i64; 30];
    run.extend(vec![200 * CENT; 30]);
    assert_eq!(find_note_starts(&run, 50 * CENT, 6, 3), vec![0, 30]);
    // Too short an excursion is no note.
    let mut blip = vec![0i64; 30];
    for x in &mut blip[10..15] {
        *x = 200 * CENT;
    }
    assert_eq!(find_note_starts(&blip, 50 * CENT, 6, 3), vec![0]);
}

#[test]
fn short_notes_fold_into_their_neighbours() {
    let spans = |starts: &[usize]| merge_notes(starts, 100, 140, 6);
    assert_eq!(
        spans(&[0, 20]),
        vec![
            Span { start: 100, end: 120 },
            Span { start: 120, end: 140 }
        ]
    );
    // The short one in the middle joins the note before it.
    assert_eq!(
        spans(&[0, 20, 23]),
        vec![
            Span { start: 100, end: 123 },
            Span { start: 123, end: 140 }
        ]
    );
    // A short one at the start joins the note after it.
    assert_eq!(spans(&[0, 3]), vec![Span { start: 100, end: 140 }]);
}

#[test]
fn transitions_are_steep_and_monotone() {
    let config = SegmentConfig::default();
    let rate = 200 * HERTZ;
    let ramp: Vec<i64> = (0..20).map(|i| i * 20 * CENT).collect();
    assert!(detect_transition(&ramp, rate, &config));
    let slow: Vec<i64> = (0..20).map(|i| i * CENT).collect();
    assert!(!detect_transition(&slow, rate, &config));
    let mut hold = vec![0i64; 15];
    hold.extend((1..6).map(|i| i * 60 * CENT));
    assert!(!detect_transition(&hold, rate, &config));
    assert!(!detect_transition(&[0], rate, &config));
}

#[test]
fn lengths_of_an_edited_note() {
    let edit = NoteEdit::identity(0);
    assert_eq!(note_render_lengths(80, 20, &edit), Some((20, 60)));
    let slow = NoteEdit {
        glide_time_scale: 2_000_000,
        ..edit
    };
    assert_eq!(note_render_lengths(80, 20, &slow), Some((40, 60)));
    let none = NoteEdit {
        glide_time_scale: 0,
        ..edit
    };
    assert_eq!(note_render_lengths(80, 20, &none), Some((0, 60)));
    let twice = NoteEdit {
        out_len: Some(160),
        ..edit
    };
    assert_eq!(note_render_lengths(80, 20, &twice), Some((40, 120)));
    let dropped = NoteEdit {
        out_len: Some(0),
        ..edit
    };
    assert_eq!(note_render_lengths(80, 20, &dropped), None);
}

#[test]
fn note_names() {
    assert_eq!(name_of(0), "A4");
    assert_eq!(name_of(300), "C5");
    assert_eq!(name_of(-900), "C4");
    assert_eq!(name_of(-901), "C4");
    assert_eq!(name_of(100), "A#4");
    assert_eq!(name_of(-7000), "B-2");
    assert_eq!(name_of(50), "A#4");
    assert_eq!(name_of(-50), "A4");
    assert_eq!(name_of(-7050), "A#-2");
}

#[test]
fn numbers_as_text() {
    let mut s = String::new();
    append_decimal(&mut s, 0);
    s.push(' ');
    append_decimal(&mut s, 1_234_567_890_123);
    s.push(' ');
    append_signed(&mut s, -42);
    s.push(' ');
    append_tenths(&mut s, 605);
    s.push(' ');
    append_tenths(&mut s, 5);
    assert_eq!(s, "0 1234567890123 -42 60.5 0.5");
}

#[test]
fn band_layouts() {
    let l = D4cLayout::new(24_000 * HERTZ);
    assert_eq!(
        (l.fft_size, l.bands, l.half_window, l.boundary),
        (2048, 3, 256, 32)
    );
    assert_eq!(l.center_of_band(0), 256);
    assert_eq!(l.center_of_band(2), 768);
    let l = D4cLayout::new(48_000 * HERTZ);
    assert_eq!((l.fft_size, l.bands, l.half_window), (4096, 5, 256));
    let l = D4cLayout::new(8_000 * HERTZ);
    assert_eq!((l.fft_size, l.bands), (1024, 0));
    assert_eq!(BAND_INTERVAL, 3_000 * HERTZ);
}

#[test]
fn windows_stay_within_the_waveform() {
    let x = [10, 11, 12, 13, 14];
    let mut taps = Vec::new();
    window_taps(&x, 1, 2, &mut taps);
    assert_eq!(taps, vec![10, 10, 11, 12, 13]);
    window_taps(&x, 4, 2, &mut taps);
    assert_eq!(taps, vec![12, 13, 14, 14, 14]);
    assert_eq!(half_window_length(24_000 * HERTZ, 200 * HERTZ), 240);
    assert_eq!(half_window_length(24_000 * HERTZ, 71 * HERTZ), 676);
    assert_eq!(
        quarter_period_centers(24_000 * HERTZ, 200 * HERTZ, 1024, 2048),
        (994, 1054)
    );
    assert_eq!(
        quarter_period_centers(24_000 * HERTZ, 71 * HERTZ, 10, 50),
        (0, 49)
    );
}

#[test]
fn interpolation_intervals() {
    let x = [0, 30, 60, 120];
    assert_eq!(
        buckets(&x, &[-5, 0, 29, 30, 59, 60, 119, 120, 500]),
        vec![1, 1, 1, 2, 2, 3, 3, 3, 3]
    );
}

#[test]
fn shifting_twice_changes_nothing() {
    let src = [1, 2, 3, 4, 5, 6];
    let mut once = [0; 6];
    let mut twice = [0; 6];
    ifftshift(&src, &mut once, 4);
    assert_eq!(once, [4, 5, 6, 1, 2, 3]);
    ifftshift(&once, &mut twice, 4);
    assert_eq!(twice, src);
}

#[test]
fn mirrored_spectra() {
    let mut s = [1, 2, 3, 4, 5, 0, 0, 0];
    mirror_upper(&mut s, 5);
    assert_eq!(s, [1, 2, 3, 4, 5, 4, 3, 2]);
    let mut out = vec![9];
    unfold_spectrum(&s, 5, &mut out);
    assert_eq!(out, vec![4, 3, 2, 1, 2, 3, 4, 5, 4, 3, 2]);
    extend_spectrum(&[0, 1, 2, 3, 4], 2, &mut out);
    assert_eq!(out, vec![2, 1, 0, 1, 2, 3, 4, 3, 2]);
    running_sum(&[1, 2, 3], |a, b| a + b, &mut out);
    assert_eq!(out, vec![1, 3, 6]);
}

#[test]
fn replica_of_a_pitch() {
    let cfg = Config::with_defaults(24_000 * HERTZ);
    // 200 Hz is bin 17.07 of 1024 below 12 kHz.
    assert_eq!(replica_bins(&cfg, 200 * HERTZ), 18);
    assert_eq!(replica_bins(&cfg, 0), 1);
}

#[test]
fn feature_counts() {
    let f = |silence: bool, hz: i64, voiced: bool| FrameFeatures {
        silence,
        fo: hz * 1_000_000_000,
        voiced,
    };
    let frames = [f(false, 200, true), f(true, 0, false), f(false, 103, true)];
    let rows = [
        Row {
            frame: 0,
            features: f(false, 203, true),
        },
        Row {
            frame: 1,
            features: f(true, 0, true),
        },
        Row {
            frame: 2,
            features: f(true, 100, true),
        },
        Row {
            frame: 3,
            features: f(false, 0, false),
        },
    ];
    assert_eq!(
        compare_features(&rows, &frames),
        Tally {
            total: 3,
            silence_match: 2,
            voiced_match: 2,
            fo_close: 2,
            fo_compared: 2
        }
    );
}

#[test]
fn two_percent_is_not_close() {
    let f = |fo: i64| FrameFeatures {
        silence: false,
        fo,
        voiced: true,
    };
    let row = |fo: i64| Row {
        frame: 0,
        features: f(fo),
    };
    assert_eq!(compare_features(&[row(100)], &[f(102)]).fo_close, 0);
    assert_eq!(compare_features(&[row(101)], &[f(103)]).fo_close, 1);
}

#[test]
fn fields_of_a_line() {
    assert_eq!(split_fields(b"12,0,,1"), vec![(0, 2), (3, 4), (5, 5), (6, 7)]);
    assert_eq!(split_fields(b""), vec![(0, 0)]);
}

#[test]
fn indices_as_text() {
    assert_eq!(parse_index(b"12"), Some(12));
    assert_eq!(parse_index(b"+7"), Some(7));
    assert_eq!(parse_index(b""), None);
    assert_eq!(parse_index(b"+"), None);
    assert_eq!(parse_index(b"-1"), None);
    assert_eq!(parse_index(b" 1"), None);
    assert_eq!(parse_index(b"99999999999999999999"), None);
    assert_eq!(parse_index(b"18446744073709551615"), "18446744073709551615".parse().ok());
}

#[test]
fn quantiles() {
    assert_eq!(quantile_index(101, 50), 50);
    assert_eq!(quantile_index(100, 99), 98);
    assert_eq!(quantile_index(1, 100), 0);
    assert_eq!(quantile_index(7, 100), 6);
}

fn fixed(num: i128, den: i128) -> String {
    let mut s = String::new();
    append_fixed_point(&mut s, num, den);
    s
}

#[test]
fn fractions_with_one_decimal_place() {
    // Halves go to the even tenth.
    assert_eq!(fixed(345, 4), "86.2");
    assert_eq!(fixed(347, 4), "86.8");
    assert_eq!(fixed(1, 20), "0.0");
    assert_eq!(fixed(3, 20), "0.2");
    // Others go to the nearest.
    assert_eq!(fixed(100, 3), "33.3");
    assert_eq!(fixed(200, 3), "66.7");
    assert_eq!(fixed(0, 7), "0.0");
    // What is below zero keeps its sign.
    assert_eq!(fixed(-1, 100), "-0.0");
    assert_eq!(fixed(-1, 20), "-0.0");
    assert_eq!(fixed(-7, 2), "-3.5");
    assert_eq!(format!("{:.1}", 86.25_f64), fixed(345, 4));
    assert_eq!(format!("{:.1}", -0.01_f64), fixed(-1, 100));
}

#[test]
fn quotients_round_halves_to_even() {
    assert_eq!(even_div(5, 2), 2);
    assert_eq!(even_div(7, 2), 4);
    assert_eq!(even_div(8, 3), 3);
    assert_eq!(even_div(7, 3), 2);
    assert_eq!(even_div(0, 3), 0);
}

#[test]
fn natural_numbers_of_any_size() {
    let power = |exponent: usize| {
        let mut n = Natural::one();
        for _ in 0..exponent {
            n.scale(u64::MAX);
        }
        n
    };
    assert!(power(5).above(&power(4)));
    assert!(!power(4).above(&power(5)));
    assert!(!power(5).above(&power(5)));
    assert!(!Natural::zero().above(&Natural::zero()));
    assert!(Natural::one().above(&Natural::zero()));
    // m^2 + m = m * (m + 1), with m + 1 a power of two.
    let mut sum = power(2);
    sum.increase(&power(1));
    let mut product = power(1);
    product.scale(1 << 32);
    product.scale(1 << 32);
    assert!(!sum.above(&product) && !product.above(&sum));
    sum.increase(&Natural::one());
    assert!(sum.above(&product));
    let mut copy = sum.copied();
    copy.scale(0);
    assert!(!copy.above(&Natural::zero()));
    assert!(sum.above(&copy));
}

#[test]
fn rows_of_a_table() {
    assert_eq!(
        parse_row(b"12,1,220.5,0,more"),
        Some(RawRow {
            frame: 12,
            silence: true,
            voiced: false,
            fo_start: 5,
            fo_end: 10,
        })
    );
    assert_eq!(
        parse_row(b"0,01,,1"),
        Some(RawRow {
            frame: 0,
            silence: false,
            voiced: true,
            fo_start: 5,
            fo_end: 5,
        })
    );
    // Too few fields, or no index.
    assert_eq!(parse_row(b"12,1,220.5"), None);
    assert_eq!(parse_row(b"frame,1,220.5,1"), None);
    assert_eq!(parse_row(b",1,220.5,1"), None);
    assert_eq!(parse_row(b""), None);
}

#[test]
fn heaps_give_their_values_in_order() {
    let values = [5, -3, 5, 0, i64::MIN, 7, i64::MAX, -3];
    let mut sorted = values.to_vec();
    sorted.sort();
    let mut least = Heap::new(true);
    let mut greatest = Heap::new(false);
    for &x in &values {
        least.push(x);
        greatest.push(x);
    }
    assert_eq!(least.len(), 8);
    assert_eq!((least.top(), greatest.top()), (i64::MIN, i64::MAX));
    let up: Vec<i64> = (0..8).map(|_| least.pop()).collect();
    let mut down: Vec<i64> = (0..8).map(|_| greatest.pop()).collect();
    assert_eq!(up, sorted);
    down.reverse();
    assert_eq!(down, sorted);
    least.push(1);
    least.clear();
    assert_eq!(least.len(), 0);
}

#[test]
fn medians_of_a_long_growing_set() {
    let mut running = RunningMedian::new();
    let mut pushed = Vec::new();
    let mut x: i64 = 1;
    for _ in 0..300 {
        x = x.wrapping_mul(6_364_136_223_846_793_005).wrapping_add(1_442_695_040_888_963_407);
        let value = (x >> 33) % 50;
        pushed.push(value);
        running.push(value);
        let mut sorted = pushed.clone();
        sorted.sort();
        assert_eq!(running.median(), sorted[sorted.len() / 2]);
    }
}

#[test]
fn overlaid_pitches_that_fit() {
    assert!(pitches_fit(&[None, Some(DRAWN_LIMIT), Some(-DRAWN_LIMIT)]));
    assert!(!pitches_fit(&[None, Some(DRAWN_LIMIT + 1)]));
    assert!(!pitches_fit(&[Some(i128::MIN)]));
    assert!(pitches_fit(&[]));
}

#[test]
fn rates_of_32_bits_of_hertz() {
    let fs = u32::MAX as u64 * HERTZ;
    assert!(Config::accepts(1 << 20, 71 * HERTZ, 800 * HERTZ, fs));
    let cfg = Config::with_defaults(fs);
    assert_eq!(cfg.fftsize, 2048);
    assert_eq!(cfg.period_max(), 60_492_498);
    let l = D4cLayout::new(fs);
    assert_eq!((l.fft_size, l.bands), (1 << 29, 5));
    assert!(!Config::accepts(2048, 71 * HERTZ, 800 * HERTZ, MAX_RATE + 1));
}
