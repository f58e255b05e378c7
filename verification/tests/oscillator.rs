use sine_synth::oscillators::{sine, SineOsc, HALF, QUARTER};
use sine_synth::utils::ONE;

#[test]
fn sine_is_exact_at_the_landmarks() {
    assert_eq!(sine(0), 0);
    assert_eq!(sine(QUARTER), 1_000_000_000);
    assert_eq!(sine(HALF), 0);
    assert_eq!(sine(750_000_000), -1_000_000_000);
}

#[test]
fn sine_at_a_twelfth_of_a_turn_is_one_half() {
    // 30 degrees, with the phase rounded to a billionth of a turn.
    assert_eq!(sine(83_333_333), 499_999_998);
    assert_eq!(sine(416_666_667), 499_999_998);
    assert_eq!(sine(583_333_333), -499_999_998);
}

#[test]
fn sine_takes_the_phase_within_its_turn() {
    assert_eq!(sine(ONE), 0);
    assert_eq!(sine(ONE + 250_000_000), 1_000_000_000);
    assert_eq!(sine(7 * ONE + 750_000_000), -1_000_000_000);
    assert_eq!(sine(u64::MAX), sine(u64::MAX % ONE));
}

#[test]
fn sine_known_values() {
    assert_eq!(sine(125_000_000), 707_106_781);
    assert_eq!(sine(9_977_324), 62_648_322);
    assert_eq!(sine(19_954_648), 125_050_520);
    assert_eq!(sine(999_999_999), -6);
}

#[test]
fn sine_stays_close_to_the_true_sine() {
    let mut worst: f64 = 0.0;
    let mut phase: u64 = 0;
    while phase < ONE {
        let exact: f64 = (phase as f64 / 1e9 * 2.0 * std::f64::consts::PI).sin();
        let got: f64 = sine(phase) as f64 / 1e9;
        worst = worst.max((got - exact).abs());
        phase += 99_991;
    }
    assert!(worst < 5e-9, "worst error {worst}");
}

#[test]
fn sine_is_bounded_and_mirrored() {
    let mut phase: u64 = 0;
    while phase < HALF {
        let up: i64 = sine(phase);
        assert!(0 <= up && up <= ONE as i64);
        assert_eq!(sine(phase + HALF), -up);
        assert_eq!(sine(HALF - phase), up);
        phase += 1_234_567;
    }
}

#[test]
fn new_oscillator_rests_at_440_hz() {
    let osc = SineOsc::new(48_000);
    assert_eq!(osc.phase(), 0);
    assert_eq!(osc.frequency(), 440_000_000_000);
    assert_eq!(osc.sample_rate(), 48_000);
}

#[test]
fn next_sample_returns_the_old_phase_then_advances() {
    let mut osc = SineOsc::new(44_100);
    assert_eq!(osc.next_sample(), 0);
    assert_eq!(osc.phase(), 9_977_324);
    assert_eq!(osc.next_sample(), 62_648_322);
    assert_eq!(osc.phase(), 2 * 9_977_324);
}

#[test]
fn phase_wraps_by_one_turn() {
    let mut osc = SineOsc::new(1_000);
    osc.set_frequency(600_000_000_000);
    let mut seen: Vec<u64> = Vec::new();
    for _ in 0..6 {
        seen.push(osc.phase());
        osc.next_sample();
    }
    assert_eq!(
        seen,
        vec![0, 600_000_000, 200_000_000, 800_000_000, 400_000_000, 0]
    );
}

#[test]
fn set_frequency_and_reset_touch_one_field_each() {
    let mut osc = SineOsc::new(44_100);
    osc.next_sample();
    osc.set_frequency(261_625_565_312);
    assert_eq!(osc.frequency(), 261_625_565_312);
    assert_eq!(osc.phase(), 9_977_324);
    assert_eq!(osc.sample_rate(), 44_100);
    osc.reset();
    assert_eq!(osc.phase(), 0);
    assert_eq!(osc.frequency(), 261_625_565_312);
    assert_eq!(osc.sample_rate(), 44_100);
}

#[test]
fn whole_cycles_bring_the_phase_back() {
    // 1 kHz at 48 kHz: 48 samples to the cycle, and a step that is not a whole
    // number of billionths.
    let mut osc = SineOsc::new(48_000);
    osc.set_frequency(1_000_000_000_000);
    let first: i64 = osc.next_sample();
    let start: u64 = 20_833_333;
    assert_eq!(osc.phase(), start);
    for cycle in 1u64..=20 {
        let mut last: i64 = 0;
        for _ in 0..48 {
            last = osc.next_sample();
        }
        let samples: u64 = 48 * cycle;
        let drift: u64 = (start + ONE - osc.phase()) % ONE;
        assert_eq!(drift, 16 * cycle);
        assert!(drift < samples);
        let again: i64 = sine((osc.phase() + ONE - start) % ONE);
        assert!((again - first).abs() < 10_000, "cycle {cycle}: {again}");
        assert!(last < 0);
    }
}

#[test]
fn whole_cycles_with_an_exact_step_return_exactly() {
    // 441 Hz at 44.1 kHz: a step of exactly one hundredth of a turn.
    let mut osc = SineOsc::new(44_100);
    osc.set_frequency(441_000_000_000);
    let mut samples: Vec<i64> = Vec::new();
    for _ in 0..100 {
        samples.push(osc.next_sample());
    }
    assert_eq!(osc.phase(), 0);
    for k in 0..300 {
        assert_eq!(osc.next_sample(), samples[k % 100]);
    }
    assert_eq!(osc.phase(), 0);
}

#[test]
fn frequency_at_or_above_the_sample_rate_aliases() {
    let mut osc = SineOsc::new(1_000);
    osc.set_frequency(1_000_000_000_000);
    osc.next_sample();
    assert_eq!(osc.phase(), 0);
    osc.set_frequency(2_300_000_000_000);
    osc.next_sample();
    assert_eq!(osc.phase(), 300_000_000);
    osc.set_frequency(u64::MAX);
    for _ in 0..10 {
        let sample: i64 = osc.next_sample();
        assert!(osc.phase() < ONE);
        assert!(sample.abs() <= ONE as i64);
    }
}

#[test]
fn sample_rate_zero_stands_still() {
    let mut osc = SineOsc::new(0);
    for _ in 0..5 {
        assert_eq!(osc.next_sample(), 0);
        assert_eq!(osc.phase(), 0);
    }
}

#[test]
fn frequency_zero_stands_still() {
    let mut osc = SineOsc::new(44_100);
    osc.next_sample();
    osc.set_frequency(0);
    for _ in 0..5 {
        assert_eq!(osc.next_sample(), 62_648_322);
        assert_eq!(osc.phase(), 9_977_324);
    }
}

#[test]
fn whole_cycles_bring_the_sample_back() {
    // 100 Hz at 44.1 kHz: 441 samples to the cycle, and a step that is not a
    // whole number of billionths.
    let mut osc = SineOsc::new(44_100);
    osc.set_frequency(100_000_000_000);
    for _ in 0..123 {
        osc.next_sample();
    }
    let start: u64 = osc.phase();
    let first: i64 = osc.next_sample();
    for cycle in 1i64..=50 {
        for _ in 0..440 {
            osc.next_sample();
        }
        let samples: i64 = 441 * cycle;
        let drift: u64 = (start + ONE - osc.phase()) % ONE;
        assert!((drift as i64) < samples);
        let again: i64 = osc.next_sample();
        // The sine is never steeper than 2 pi per turn.
        assert!((again - first).abs() <= 7 * samples + 8, "cycle {cycle}: {again}");
    }
}

#[test]
fn oscillator_tracks_the_real_phase_accumulator() {
    let mut osc = SineOsc::new(44_100);
    osc.set_frequency(261_625_565_312);
    let mut phase: f64 = 0.0;
    for n in 0..20_000 {
        let got: f64 = osc.next_sample() as f64 / 1e9;
        let exact: f64 = (phase * 2.0 * std::f64::consts::PI).sin();
        // The step is rounded down to a billionth of a turn, so the phase
        // falls behind by up to that much per sample.
        assert!((got - exact).abs() < 2e-4, "sample {n}: {got} against {exact}");
        phase += 261.625_565_312 / 44_100.0;
        if phase >= 1.0 {
            phase -= 1.0;
        }
    }
}
