use sine_synth::envelopes::{ADSREnvelope, EnvStage, RELEASE_FLOOR};
use sine_synth::utils::ONE;

fn run_until(env: &mut ADSREnvelope, stage: EnvStage, limit: usize) -> usize {
    let mut samples: usize = 0;
    while env.stage() != stage {
        assert!(samples < limit, "stage {:?} not reached", stage);
        env.next_sample();
        samples += 1;
    }
    samples
}

#[test]
fn new_envelope_is_idle_and_silent() {
    let mut env = ADSREnvelope::new(44_100);
    assert_eq!(env.stage(), EnvStage::Idle);
    assert_eq!(env.level(), 0);
    assert!(!env.is_active());
    for _ in 0..10 {
        assert_eq!(env.next_sample(), 0);
        assert_eq!(env.stage(), EnvStage::Idle);
        assert_eq!(env.level(), 0);
    }
}

#[test]
fn note_on_starts_the_attack_without_touching_the_level() {
    let mut env = ADSREnvelope::new(44_100);
    env.note_on();
    assert_eq!(env.stage(), EnvStage::Attack);
    assert_eq!(env.level(), 0);
    assert!(env.is_active());
}

#[test]
fn attack_climbs_by_one_over_441_per_sample() {
    let mut env = ADSREnvelope::new(44_100);
    env.note_on();
    assert_eq!(env.next_sample(), 2_267_574);
    assert_eq!(env.next_sample(), 2 * 2_267_574);
    assert_eq!(env.level(), 4_535_148);
    assert_eq!(env.stage(), EnvStage::Attack);
}

#[test]
fn attack_ends_at_full_level_in_decay() {
    let mut env = ADSREnvelope::new(44_100);
    env.note_on();
    for _ in 0..440 {
        env.next_sample();
    }
    assert_eq!(env.stage(), EnvStage::Attack);
    assert_eq!(env.level(), 440 * 2_267_574);
    assert_eq!(env.next_sample(), ONE);
    assert_eq!(env.stage(), EnvStage::Decay);
    assert_eq!(env.level(), ONE);
}

#[test]
fn decay_falls_to_the_sustain_level() {
    let mut env = ADSREnvelope::new(44_100);
    env.note_on();
    run_until(&mut env, EnvStage::Decay, 1_000);
    assert_eq!(env.next_sample(), ONE - 68_028);
    assert_eq!(env.stage(), EnvStage::Decay);
    let more: usize = run_until(&mut env, EnvStage::Sustain, 10_000);
    assert_eq!(more + 1, 4_410);
    assert_eq!(env.level(), 700_000_000);
}

#[test]
fn sustain_holds_its_level() {
    let mut env = ADSREnvelope::new(44_100);
    env.note_on();
    run_until(&mut env, EnvStage::Sustain, 10_000);
    for _ in 0..1_000 {
        assert_eq!(env.next_sample(), 700_000_000);
        assert_eq!(env.stage(), EnvStage::Sustain);
        assert_eq!(env.level(), 700_000_000);
    }
}

#[test]
fn release_decays_by_a_fraction_of_the_level() {
    let mut env = ADSREnvelope::new(44_100);
    env.note_on();
    run_until(&mut env, EnvStage::Sustain, 10_000);
    env.note_off();
    assert_eq!(env.stage(), EnvStage::Release);
    assert_eq!(env.level(), 700_000_000);
    // 0.7 - 0.7 / (0.2 * 44100)
    assert_eq!(env.next_sample(), 699_920_634);
    let more: usize = run_until(&mut env, EnvStage::Idle, 100_000);
    assert_eq!(more + 1, 57_739);
    assert_eq!(env.level(), 0);
    assert!(!env.is_active());
    assert_eq!(env.next_sample(), 0);
}

#[test]
fn held_then_released_note_walks_the_whole_cycle() {
    let mut env = ADSREnvelope::new(44_100);
    let mut stages: Vec<EnvStage> = vec![env.stage()];
    env.note_on();
    stages.push(env.stage());
    for sample in 0..80_000 {
        if sample == 10_000 {
            env.note_off();
            stages.push(env.stage());
        }
        let out: u64 = env.next_sample();
        assert!(out <= ONE);
        if env.stage() != *stages.last().unwrap() {
            stages.push(env.stage());
        }
    }
    assert_eq!(
        stages,
        vec![
            EnvStage::Idle,
            EnvStage::Attack,
            EnvStage::Decay,
            EnvStage::Sustain,
            EnvStage::Release,
            EnvStage::Idle
        ]
    );
}

#[test]
fn level_moves_one_way_within_each_stage() {
    let mut env = ADSREnvelope::new(48_000);
    env.note_on();
    for sample in 0..90_000 {
        if sample == 20_000 {
            env.note_off();
        }
        let stage: EnvStage = env.stage();
        let before: u64 = env.level();
        env.next_sample();
        match stage {
            EnvStage::Attack => assert!(env.level() > before),
            EnvStage::Decay => assert!(env.level() < before && env.level() >= 700_000_000),
            EnvStage::Sustain => assert_eq!(env.level(), before),
            EnvStage::Release => assert!(env.level() < before),
            EnvStage::Idle => assert_eq!(env.level(), 0),
        }
    }
    assert_eq!(env.stage(), EnvStage::Idle);
}

#[test]
fn release_cuts_into_the_attack() {
    let mut env = ADSREnvelope::new(44_100);
    env.note_on();
    for _ in 0..10 {
        env.next_sample();
    }
    env.note_off();
    assert_eq!(env.stage(), EnvStage::Release);
    assert_eq!(env.level(), 22_675_740);
    let first: u64 = env.next_sample();
    // 22_675_740 / 8_820 = 2570.9, rounded up
    assert_eq!(first, 22_675_740 - 2_571);
    let more: usize = run_until(&mut env, EnvStage::Idle, 100_000);
    assert_eq!(more + 1, 27_492);
}

#[test]
fn release_cuts_into_the_decay() {
    let mut env = ADSREnvelope::new(44_100);
    env.note_on();
    run_until(&mut env, EnvStage::Decay, 1_000);
    env.next_sample();
    env.note_off();
    assert_eq!(env.stage(), EnvStage::Release);
    let level: u64 = ONE - 68_028;
    // 999_931_972 / 8_820 = 113370.9, rounded up
    assert_eq!(env.next_sample(), level - 113_371);
    assert_eq!(env.stage(), EnvStage::Release);
}

#[test]
fn note_on_during_release_continues_from_the_level() {
    let mut env = ADSREnvelope::new(44_100);
    env.note_on();
    run_until(&mut env, EnvStage::Sustain, 10_000);
    env.note_off();
    for _ in 0..1_000 {
        env.next_sample();
    }
    let level: u64 = env.level();
    assert!(level < 700_000_000 && level > RELEASE_FLOOR);
    env.note_on();
    assert_eq!(env.stage(), EnvStage::Attack);
    assert_eq!(env.level(), level);
    assert_eq!(env.next_sample(), level + 2_267_574);
}

#[test]
fn note_off_on_a_silent_envelope_ends_after_one_sample() {
    let mut env = ADSREnvelope::new(44_100);
    env.note_off();
    assert!(env.is_active());
    assert_eq!(env.stage(), EnvStage::Release);
    assert_eq!(env.next_sample(), 0);
    assert_eq!(env.stage(), EnvStage::Idle);
}

#[test]
fn note_on_then_note_off_before_any_sample_gives_no_attack_sample() {
    let mut env = ADSREnvelope::new(44_100);
    env.note_on();
    env.note_off();
    assert_eq!(env.stage(), EnvStage::Release);
    assert_eq!(env.next_sample(), 0);
    assert_eq!(env.stage(), EnvStage::Idle);
}

#[test]
fn release_stops_at_the_floor() {
    let mut env = ADSREnvelope::new(44_100);
    env.set_attack(0);
    env.set_decay(0);
    env.set_sustain(RELEASE_FLOOR + 200);
    env.set_release(1_000_000);
    env.note_on();
    env.next_sample();
    env.next_sample();
    assert_eq!(env.stage(), EnvStage::Sustain);
    env.note_off();
    // 1_000_200 / 44_100 = 22.7, rounded up to 23 per sample: eight samples
    // stay above the floor.
    for k in 1u64..=8 {
        assert_eq!(env.next_sample(), RELEASE_FLOOR + 200 - 23 * k);
        assert_eq!(env.stage(), EnvStage::Release);
    }
    assert_eq!(env.next_sample(), 0);
    assert_eq!(env.stage(), EnvStage::Idle);
    assert_eq!(env.level(), 0);
}

#[test]
fn zero_times_pass_in_one_sample_each() {
    let mut env = ADSREnvelope::new(44_100);
    env.set_attack(0);
    env.set_decay(0);
    env.set_release(0);
    env.note_on();
    assert_eq!(env.next_sample(), ONE);
    assert_eq!(env.stage(), EnvStage::Decay);
    assert_eq!(env.next_sample(), 700_000_000);
    assert_eq!(env.stage(), EnvStage::Sustain);
    env.note_off();
    assert_eq!(env.next_sample(), 0);
    assert_eq!(env.stage(), EnvStage::Idle);
}

#[test]
fn very_short_times_overshoot_and_clamp() {
    let mut env = ADSREnvelope::new(44_100);
    env.set_attack(1);
    env.set_decay(1);
    env.set_release(1);
    env.note_on();
    assert_eq!(env.next_sample(), ONE);
    assert_eq!(env.next_sample(), 700_000_000);
    env.note_off();
    assert_eq!(env.next_sample(), 0);
    assert!(!env.is_active());
}

#[test]
fn sample_rate_zero_passes_every_stage_at_once() {
    let mut env = ADSREnvelope::new(0);
    env.note_on();
    assert_eq!(env.next_sample(), ONE);
    assert_eq!(env.next_sample(), 700_000_000);
    assert_eq!(env.next_sample(), 700_000_000);
    env.note_off();
    assert_eq!(env.next_sample(), 0);
    assert_eq!(env.stage(), EnvStage::Idle);
}

#[test]
fn setters_change_the_ramps() {
    let mut env = ADSREnvelope::new(48_000);
    env.set_attack(500_000);
    env.set_decay(250_000);
    env.set_sustain(250_000_000);
    env.set_release(100_000);
    env.note_on();
    // 1 / (0.5 * 48000)
    assert_eq!(env.next_sample(), 41_667);
    let attack: usize = run_until(&mut env, EnvStage::Decay, 100_000);
    assert_eq!(attack + 1, 24_000);
    // 0.75 / (0.25 * 48000)
    assert_eq!(env.next_sample(), ONE - 62_500);
    let decay: usize = run_until(&mut env, EnvStage::Sustain, 100_000);
    assert_eq!(decay + 1, 12_000);
    assert_eq!(env.next_sample(), 250_000_000);
    env.note_off();
    // 0.25 - 0.25 / (0.1 * 48000)
    assert_eq!(env.next_sample(), 250_000_000 - 52_084);
}

#[test]
fn sustain_of_one_skips_the_fall() {
    let mut env = ADSREnvelope::new(44_100);
    env.set_sustain(ONE);
    env.note_on();
    run_until(&mut env, EnvStage::Decay, 1_000);
    assert_eq!(env.next_sample(), ONE);
    assert_eq!(env.stage(), EnvStage::Sustain);
}

#[test]
fn sustain_of_zero_falls_all_the_way() {
    let mut env = ADSREnvelope::new(44_100);
    env.set_sustain(0);
    env.note_on();
    run_until(&mut env, EnvStage::Sustain, 100_000);
    assert_eq!(env.level(), 0);
    assert!(env.is_active());
    assert_eq!(env.next_sample(), 0);
    env.note_off();
    assert_eq!(env.next_sample(), 0);
    assert_eq!(env.stage(), EnvStage::Idle);
}

#[test]
fn output_is_a_ratio_for_many_settings() {
    let times: [u32; 6] = [0, 1, 1_000, 10_000, 5_000_000, u32::MAX];
    let rates: [u32; 5] = [0, 1, 44_100, 192_000, u32::MAX];
    let levels: [u64; 4] = [0, 1, 700_000_000, ONE];
    for &time in &times {
        for &rate in &rates {
            for &sustain in &levels {
                let mut env = ADSREnvelope::new(rate);
                env.set_attack(time);
                env.set_decay(time);
                env.set_release(time);
                env.set_sustain(sustain);
                env.note_on();
                for sample in 0..600 {
                    if sample == 300 {
                        env.note_off();
                    }
                    if sample == 450 {
                        env.note_on();
                    }
                    let out: u64 = env.next_sample();
                    assert!(out <= ONE);
                    assert!(env.level() <= ONE);
                    assert_eq!(env.is_active(), env.stage() != EnvStage::Idle);
                    if env.stage() == EnvStage::Idle {
                        assert_eq!(env.level(), 0);
                    }
                }
            }
        }
    }
}

#[test]
fn envelope_tracks_the_real_valued_envelope() {
    let mut env = ADSREnvelope::new(44_100);
    let (attack, decay, sustain, release, rate) = (0.01f64, 0.1f64, 0.7f64, 0.2f64, 44_100.0f64);
    let mut level: f64 = 0.0;
    let mut stage: u8 = 1;
    env.note_on();
    for sample in 0..30_000 {
        if sample == 12_000 {
            env.note_off();
            stage = 4;
        }
        let exact: f64 = match stage {
            1 => {
                level += 1.0 / (attack * rate);
                if level >= 1.0 {
                    level = 1.0;
                    stage = 2;
                }
                level
            }
            2 => {
                level -= (1.0 - sustain) / (decay * rate);
                if level <= sustain {
                    level = sustain;
                    stage = 3;
                }
                level
            }
            3 => sustain,
            4 => {
                level -= level / (release * rate);
                if level <= 0.001 {
                    level = 0.0;
                    stage = 0;
                }
                level
            }
            _ => 0.0,
        };
        let got: f64 = env.next_sample() as f64 / 1e9;
        assert!((got - exact).abs() < 1e-4, "sample {sample}: {got} against {exact}");
    }
}

#[test]
fn a_long_release_never_stalls() {
    // 30 s at 44.1 kHz: 1 323 000 samples, more than the level counts
    // millionths near the floor.
    let mut env = ADSREnvelope::new(44_100);
    env.set_attack(0);
    env.set_decay(0);
    env.set_sustain(1_200_000);
    env.set_release(30_000_000);
    env.note_on();
    env.next_sample();
    env.next_sample();
    assert_eq!(env.stage(), EnvStage::Sustain);
    env.note_off();
    let mut last: u64 = 1_200_000;
    let mut samples: usize = 0;
    while env.is_active() {
        let out: u64 = env.next_sample();
        assert!(out < last, "sample {samples}: {out} after {last}");
        last = out;
        samples += 1;
        assert!(samples <= 241_213);
    }
    assert_eq!(samples, 200_000);
    assert_eq!(env.level(), 0);
}

#[test]
fn a_release_of_two_to_the_twenty_samples_ends_in_time() {
    // 16.384 s at 64 kHz from a level of 0.00104: the real-valued release
    // takes ln(1.04) / -ln(1 - 2^-20), about 41 000 samples.
    let mut env = ADSREnvelope::new(64_000);
    env.set_attack(0);
    env.set_decay(0);
    env.set_sustain(1_040_000);
    env.set_release(16_384_000);
    env.note_on();
    env.next_sample();
    env.next_sample();
    env.note_off();
    let mut last: u64 = 1_040_000;
    let mut samples: usize = 0;
    while env.is_active() {
        let out: u64 = env.next_sample();
        assert!(out < last);
        last = out;
        samples += 1;
        assert!(samples <= 41_127);
    }
    assert_eq!(samples, 40_000);
}

#[test]
fn a_long_release_from_the_sustain_level_follows_the_real_curve() {
    let mut env = ADSREnvelope::new(44_100);
    env.set_release(30_000_000);
    env.note_on();
    run_until(&mut env, EnvStage::Sustain, 10_000);
    env.note_off();
    let mut exact: f64 = 0.7;
    let mut samples: usize = 0;
    while env.is_active() {
        let got: f64 = env.next_sample() as f64 / 1e9;
        if exact > 0.001 {
            exact -= exact / (30.0 * 44_100.0);
        }
        if env.is_active() {
            assert!(got <= exact + 1e-12, "sample {samples}: {got} above {exact}");
            assert!(exact - got < 5e-3);
        }
        samples += 1;
        assert!(samples < 9_000_000);
    }
    assert_eq!(samples, 8_061_673);
}

#[test]
fn the_slowest_ramps_still_move() {
    let mut env = ADSREnvelope::new(u32::MAX);
    env.set_attack(u32::MAX);
    env.set_decay(u32::MAX);
    env.set_release(u32::MAX);
    env.note_on();
    for k in 1u64..=1_000 {
        assert_eq!(env.next_sample(), k);
        assert_eq!(env.stage(), EnvStage::Attack);
    }
    let mut fast = ADSREnvelope::new(u32::MAX);
    fast.set_attack(0);
    fast.set_decay(u32::MAX);
    fast.set_release(u32::MAX);
    fast.note_on();
    assert_eq!(fast.next_sample(), ONE);
    for k in 1u64..=1_000 {
        assert_eq!(fast.next_sample(), ONE - k);
        assert_eq!(fast.stage(), EnvStage::Decay);
    }
    fast.note_off();
    for k in 1u64..=1_000 {
        assert_eq!(fast.next_sample(), ONE - 1_000 - k);
        assert_eq!(fast.stage(), EnvStage::Release);
    }
}
