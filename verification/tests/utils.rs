use sine_synth::utils::{add_clipped, lerp, midi_to_freq, scale_sample, ONE, SAMPLE_MAX};

#[test]
fn midi_to_freq_concert_pitch_is_exact() {
    assert_eq!(midi_to_freq(69), 440_000_000_000);
}

#[test]
fn midi_to_freq_octaves_of_a() {
    assert_eq!(midi_to_freq(21), 27_500_000_000);
    assert_eq!(midi_to_freq(45), 110_000_000_000);
    assert_eq!(midi_to_freq(57), 220_000_000_000);
    assert_eq!(midi_to_freq(81), 880_000_000_000);
    assert_eq!(midi_to_freq(93), 1_760_000_000_000);
}

#[test]
fn midi_to_freq_known_notes() {
    assert_eq!(midi_to_freq(0), 8_175_798_916);
    assert_eq!(midi_to_freq(12), 16_351_597_832);
    assert_eq!(midi_to_freq(60), 261_625_565_312);
    assert_eq!(midi_to_freq(108), 4_186_009_044_992);
    assert_eq!(midi_to_freq(127), 12_543_853_950_976);
    assert_eq!(midi_to_freq(255), 20_390_018_004_549_632);
}

#[test]
fn midi_to_freq_follows_equal_temperament() {
    for note in 0u16..=255 {
        let exact: f64 = 440.0 * 2.0f64.powf((note as f64 - 69.0) / 12.0);
        let got: f64 = midi_to_freq(note as u8) as f64 / 1e9;
        // From a table rounded to a nanohertz.
        assert!((got - exact).abs() <= exact * 1e-10, "note {note}: {got} against {exact}");
    }
}

#[test]
fn midi_to_freq_rises_with_the_note_and_doubles_per_octave() {
    for note in 0u8..255 {
        assert!(midi_to_freq(note) < midi_to_freq(note + 1));
    }
    for note in 0u8..=243 {
        assert_eq!(midi_to_freq(note + 12), 2 * midi_to_freq(note));
    }
}

#[test]
fn lerp_hits_both_ends() {
    assert_eq!(lerp(-5, 17, 0), -5);
    assert_eq!(lerp(-5, 17, ONE as i64), 17);
    assert_eq!(lerp(17, -5, 0), 17);
    assert_eq!(lerp(17, -5, ONE as i64), -5);
    assert_eq!(lerp(i64::MIN, i64::MAX, ONE as i64), i64::MAX);
    assert_eq!(lerp(i64::MAX, i64::MIN, ONE as i64), i64::MIN);
    assert_eq!(lerp(i64::MIN, i64::MAX, 0), i64::MIN);
    assert_eq!(lerp(i64::MAX, i64::MIN, 0), i64::MAX);
}

#[test]
fn lerp_midpoint_and_quarter() {
    assert_eq!(lerp(0, 1_000_000_000, 500_000_000), 500_000_000);
    assert_eq!(lerp(100, 200, 250_000_000), 125);
    assert_eq!(lerp(200, 100, 250_000_000), 175);
}

#[test]
fn lerp_rounds_the_step_toward_zero() {
    // 0 + 3 * 0.5 = 1.5 and 0 - 3 * 0.5 = -1.5
    assert_eq!(lerp(0, 3, 500_000_000), 1);
    assert_eq!(lerp(0, -3, 500_000_000), -1);
    assert_eq!(lerp(0, -3, 1), 0);
    assert_eq!(lerp(10, 7, 999_999_999), 8);
    assert_eq!(lerp(-10, -7, 999_999_999), -8);
}

#[test]
fn lerp_extrapolates_beyond_one() {
    assert_eq!(lerp(0, 10, 2_000_000_000), 20);
    assert_eq!(lerp(10, 0, 2_000_000_000), -10);
    assert_eq!(lerp(-2_147_483_648, 2_147_483_647, 4_294_967_295), 16_299_260_417);
}

#[test]
fn lerp_extrapolates_below_zero() {
    assert_eq!(lerp(0, 10, -1_000_000_000), -10);
    assert_eq!(lerp(10, 0, -1_000_000_000), 20);
    assert_eq!(lerp(0, 3, -500_000_000), -1);
    assert_eq!(lerp(0, -3, -500_000_000), 1);
    assert_eq!(lerp(5, 5, i64::MIN), 5);
}

#[test]
fn lerp_holds_the_result_to_the_range() {
    assert_eq!(lerp(0, i64::MAX, 2_000_000_000), i64::MAX);
    assert_eq!(lerp(0, i64::MIN, 2_000_000_000), i64::MIN);
    assert_eq!(lerp(i64::MIN, i64::MAX, i64::MAX), i64::MAX);
    assert_eq!(lerp(i64::MIN, i64::MAX, i64::MIN), i64::MIN);
    assert_eq!(lerp(i64::MAX, i64::MIN, i64::MIN), i64::MAX);
}

#[test]
fn lerp_matches_the_real_formula() {
    let cases: [(i64, i64, i64); 7] = [
        (0, 1000, -123_456_789),
        (-50, 50, -2_000_000_000),
        (0, 1000, 123_456_789),
        (-1000, 1000, 999_999_999),
        (7, -7_000_000, 333_333_333),
        (1_000_000_000, -1_000_000_000, 750_000_000),
        (5, 5, 4_000_000_000),
    ];
    for (a, b, t) in cases {
        let exact: f64 = a as f64 + (b as f64 - a as f64) * (t as f64 / 1e9);
        let got: f64 = lerp(a, b, t) as f64;
        assert!((got - exact).abs() <= 1.0, "lerp({a}, {b}, {t}) = {got}, exact {exact}");
    }
}

#[test]
fn scale_sample_scales_and_keeps_the_sign() {
    assert_eq!(scale_sample(1_000_000_000, 700_000_000), 700_000_000);
    assert_eq!(scale_sample(-1_000_000_000, 700_000_000), -700_000_000);
    assert_eq!(scale_sample(500_000_000, 500_000_000), 250_000_000);
    assert_eq!(scale_sample(0, u64::MAX), 0);
    assert_eq!(scale_sample(123, 0), 0);
}

#[test]
fn scale_sample_rounds_toward_zero() {
    assert_eq!(scale_sample(3, 500_000_000), 1);
    assert_eq!(scale_sample(-3, 500_000_000), -1);
    assert_eq!(scale_sample(1, 999_999_999), 0);
    assert_eq!(scale_sample(-1, 999_999_999), 0);
}

#[test]
fn scale_sample_takes_any_sample() {
    assert_eq!(scale_sample(4_000_000_000, 500_000_000), 2_000_000_000);
    assert_eq!(scale_sample(-4_000_000_000, 2_500_000_000), -10_000_000_000);
    assert_eq!(scale_sample(i64::MAX, ONE), SAMPLE_MAX);
    assert_eq!(scale_sample(i64::MIN, ONE), -SAMPLE_MAX);
    assert_eq!(scale_sample(i64::MIN, 500_000_000), -(1i64 << 62));
    assert_eq!(scale_sample(i64::MIN, u64::MAX), -SAMPLE_MAX);
    assert_eq!(scale_sample(i64::MAX, 0), 0);
}

#[test]
fn scale_sample_clips_a_huge_gain() {
    assert_eq!(scale_sample(1_000_000_000, u64::MAX), SAMPLE_MAX);
    assert_eq!(scale_sample(-1_000_000_000, u64::MAX), -SAMPLE_MAX);
    assert_eq!(scale_sample(1_000_000_000, SAMPLE_MAX as u64), SAMPLE_MAX);
    assert_eq!(scale_sample(500_000_000, u64::MAX), SAMPLE_MAX);
    assert_eq!(scale_sample(250_000_000, u64::MAX), (u64::MAX / 4) as i64);
}

#[test]
fn add_clipped_adds_and_clips() {
    assert_eq!(add_clipped(2, 3), 5);
    assert_eq!(add_clipped(-2, -3), -5);
    assert_eq!(add_clipped(SAMPLE_MAX, 1), SAMPLE_MAX);
    assert_eq!(add_clipped(SAMPLE_MAX, SAMPLE_MAX), SAMPLE_MAX);
    assert_eq!(add_clipped(-SAMPLE_MAX, -1), -SAMPLE_MAX);
    assert_eq!(add_clipped(i64::MIN, 0), -SAMPLE_MAX);
    assert_eq!(add_clipped(i64::MIN, i64::MIN), -SAMPLE_MAX);
    assert_eq!(add_clipped(SAMPLE_MAX, -SAMPLE_MAX), 0);
}
