//! An attack / decay / sustain / release amplitude envelope.
//!
//! Levels are ratios in billionths, times are in microseconds and the sample
//! rate is in hertz.

use crate::utils::{MICROS_PER_SECOND, ONE};
use vstd::arithmetic::div_mod::lemma_fundamental_div_mod;
use vstd::arithmetic::power::{lemma_pow_positive, pow};
use vstd::prelude::*;

verus! {

/// The level at or below which a releasing envelope falls silent: 0.001.
pub const RELEASE_FLOOR: u64 = 1_000_000;

/// The stage of an envelope.
#[derive(Clone, Copy, Debug, PartialEq, Eq, Structural)]
pub enum EnvStage {
    Idle,
    Attack,
    Decay,
    Sustain,
    Release,
}

/// The state of an envelope as mathematical integers.
pub struct EnvState {
    /// Attack time in microseconds.
    pub attack: nat,
    /// Decay time in microseconds.
    pub decay: nat,
    /// Sustain level in billionths.
    pub sustain: nat,
    /// Release time in microseconds.
    pub release: nat,
    pub stage: EnvStage,
    /// Current level in billionths.
    pub level: nat,
    /// Sample rate in hertz.
    pub sample_rate: nat,
}

impl EnvState {
    /// Level and sustain are ratios of at most 1, and an idle envelope is at
    /// level zero.
    pub open spec fn wf(self) -> bool {
        &&& self.level <= ONE
        &&& self.sustain <= ONE
        &&& self.stage == EnvStage::Idle ==> self.level == 0
    }

    /// Every stage but `Idle` sounds.
    pub open spec fn is_active(self) -> bool {
        self.stage != EnvStage::Idle
    }
}

/// An idle envelope with an attack of 10 ms, a decay of 100 ms, a sustain
/// level of 0.7 and a release of 200 ms.
pub open spec fn env_fresh(sample_rate: nat) -> EnvState {
    EnvState {
        attack: 10_000,
        decay: 100_000,
        sustain: 700_000_000,
        release: 200_000,
        stage: EnvStage::Idle,
        level: 0,
        sample_rate,
    }
}

/// The envelope with new times and a new sustain level; stage and level stay.
pub open spec fn env_shape(
    e: EnvState,
    attack: nat,
    decay: nat,
    sustain: nat,
    release: nat,
) -> EnvState {
    EnvState { attack, decay, sustain, release, ..e }
}

/// Change of level per sample of a ramp that covers `span` in `time`
/// microseconds, rounded up, so that a ramp with anywhere to go always moves. A
/// ramp that lasts no time at all covers its span in one sample.
pub open spec fn ramp_rate(span: nat, time: nat, sample_rate: nat) -> nat {
    let samples = time * sample_rate;
    if samples == 0 {
        span
    } else {
        ((span * MICROS_PER_SECOND + samples - 1) / (samples as int)) as nat
    }
}

/// The envelope one sample later.
pub open spec fn env_step(e: EnvState) -> EnvState {
    match e.stage {
        EnvStage::Idle => e,
        EnvStage::Attack => {
            let level = e.level + ramp_rate(ONE as nat, e.attack, e.sample_rate);
            if level >= ONE {
                EnvState { level: ONE as nat, stage: EnvStage::Decay, ..e }
            } else {
                EnvState { level, ..e }
            }
        },
        EnvStage::Decay => {
            let level = e.level - ramp_rate((ONE - e.sustain) as nat, e.decay, e.sample_rate);
            if level <= e.sustain {
                EnvState { level: e.sustain, stage: EnvStage::Sustain, ..e }
            } else {
                EnvState { level: level as nat, ..e }
            }
        },
        EnvStage::Sustain => e,
        EnvStage::Release => {
            let level = e.level - ramp_rate(e.level, e.release, e.sample_rate);
            if level <= RELEASE_FLOOR {
                EnvState { level: 0, stage: EnvStage::Idle, ..e }
            } else {
                EnvState { level: level as nat, ..e }
            }
        },
    }
}

/// The sample that the step from `e` puts out: nothing while idle, the
/// sustain level while sustaining, otherwise the level just reached.
pub open spec fn env_output(e: EnvState) -> nat {
    match e.stage {
        EnvStage::Idle => 0,
        EnvStage::Sustain => e.sustain,
        _ => env_step(e).level,
    }
}

/// The stages that one sample can lead to from `from`: a stage either lasts
/// or gives way to the next one of the cycle
/// Idle, Attack, Decay, Sustain, Release, Idle; only a note event leaves
/// `Idle` or `Sustain`.
pub open spec fn stage_follows(from: EnvStage, to: EnvStage) -> bool {
    match from {
        EnvStage::Idle => to == EnvStage::Idle,
        EnvStage::Attack => to == EnvStage::Attack || to == EnvStage::Decay,
        EnvStage::Decay => to == EnvStage::Decay || to == EnvStage::Sustain,
        EnvStage::Sustain => to == EnvStage::Sustain,
        EnvStage::Release => to == EnvStage::Release || to == EnvStage::Idle,
    }
}

/// The stages that any number of samples can lead to from `from`, with no note
/// event between them.
pub open spec fn stage_reaches(from: EnvStage, to: EnvStage) -> bool {
    match from {
        EnvStage::Idle => to == EnvStage::Idle,
        EnvStage::Attack => {
            to == EnvStage::Attack || to == EnvStage::Decay || to == EnvStage::Sustain
        },
        EnvStage::Decay => to == EnvStage::Decay || to == EnvStage::Sustain,
        EnvStage::Sustain => to == EnvStage::Sustain,
        EnvStage::Release => to == EnvStage::Release || to == EnvStage::Idle,
    }
}

/// The envelope `n` samples later.
pub open spec fn env_step_n(e: EnvState, n: nat) -> EnvState
    decreases n,
{
    if n == 0 {
        e
    } else {
        env_step(env_step_n(e, (n - 1) as nat))
    }
}

/// An envelope generator.
#[derive(Clone, Copy, Debug)]
pub struct ADSREnvelope {
    attack: u32,
    decay: u32,
    sustain: u64,
    release: u32,
    stage: EnvStage,
    level: u64,
    sample_rate: u32,
}

impl View for ADSREnvelope {
    type V = EnvState;

    closed spec fn view(&self) -> EnvState {
        EnvState {
            attack: self.attack as nat,
            decay: self.decay as nat,
            sustain: self.sustain as nat,
            release: self.release as nat,
            stage: self.stage,
            level: self.level as nat,
            sample_rate: self.sample_rate as nat,
        }
    }
}

/// A step keeps the envelope well formed, puts out a ratio of at most 1,
/// changes nothing but stage and level, and moves the stage forward along the
/// cycle or not at all.
pub proof fn lemma_step_preserves_wf(e: EnvState)
    requires
        e.wf(),
    ensures
        env_step(e).wf(),
        env_output(e) <= ONE,
        stage_follows(e.stage, env_step(e).stage),
        env_step(e) == (EnvState { stage: env_step(e).stage, level: env_step(e).level, ..e }),
{
}

/// Within a stage the level moves one way only, and it does move: strictly
/// up during the attack until it is full, strictly down during the decay while
/// it is above the sustain level, strictly down during the release while it is
/// above zero; it rests while idle or sustaining.
pub proof fn lemma_step_is_monotone(e: EnvState)
    requires
        e.wf(),
    ensures
        e.stage == EnvStage::Attack ==> e.level <= env_step(e).level,
        e.stage == EnvStage::Attack && e.level < ONE ==> e.level < env_step(e).level,
        e.stage == EnvStage::Decay && e.level >= e.sustain ==> e.sustain <= env_step(e).level
            <= e.level,
        e.stage == EnvStage::Decay && e.level > e.sustain ==> env_step(e).level < e.level,
        e.stage == EnvStage::Release ==> env_step(e).level <= e.level,
        e.stage == EnvStage::Release && e.level > 0 ==> env_step(e).level < e.level,
        e.stage == EnvStage::Idle || e.stage == EnvStage::Sustain ==> env_step(e) == e,
{
    lemma_ramp_rate_covers(ONE as nat, e.attack, e.sample_rate);
    lemma_ramp_rate_covers((ONE - e.sustain) as nat, e.decay, e.sample_rate);
    lemma_ramp_rate_covers(e.level, e.release, e.sample_rate);
}

/// A ramp moves whenever it has anywhere to go, covers its span in the time
/// given or sooner, and never more than the whole span in one sample of a
/// ramp that lasts a sample or longer.
pub proof fn lemma_ramp_rate_covers(span: nat, time: nat, sample_rate: nat)
    ensures
        span > 0 ==> ramp_rate(span, time, sample_rate) >= 1,
        span == 0 ==> ramp_rate(span, time, sample_rate) == 0,
        ramp_rate(span, time, sample_rate) <= span * MICROS_PER_SECOND || time * sample_rate == 0,
        ramp_rate(span, time, sample_rate) * (time * sample_rate) >= span * MICROS_PER_SECOND
            || time * sample_rate == 0,
        time * sample_rate >= MICROS_PER_SECOND ==> ramp_rate(span, time, sample_rate) <= span,
{
    let samples = (time * sample_rate) as int;
    if samples > 0 {
        let x = (span * MICROS_PER_SECOND) as int;
        let q = (x + samples - 1) / samples;
        let r = (x + samples - 1) % samples;
        lemma_fundamental_div_mod(x + samples - 1, samples);
        assert(q * samples >= x && (x > 0 ==> q >= 1) && q <= x && q >= 0) by (nonlinear_arith)
            requires
                x + samples - 1 == samples * q + r,
                0 <= r < samples,
                x >= 0,
        ;
        assert(x > 0 <==> span > 0);
        if samples >= MICROS_PER_SECOND {
            assert(q <= span) by (nonlinear_arith)
                requires
                    x + samples - 1 == samples * q + r,
                    0 <= r < samples,
                    x == span * 1_000_000,
                    samples >= 1_000_000,
            ;
        }
    }
}

/// A release always makes progress: the level strictly falls until the
/// envelope is idle.
pub proof fn lemma_release_makes_progress(e: EnvState)
    requires
        e.wf(),
        e.stage == EnvStage::Release,
        e.level > 0,
    ensures
        env_step(e).level < e.level,
{
    lemma_ramp_rate_covers(e.level, e.release, e.sample_rate);
}

/// Each sample of a release that lasts a sample or longer takes at least the
/// fraction `1 / r` off the level, where `r` is the release time in samples:
/// the new level is at most `level * (1 - 1/r)`. A shorter release is over in
/// one sample.
pub proof fn lemma_release_step_shrinks(e: EnvState)
    requires
        e.wf(),
        e.stage == EnvStage::Release,
    ensures
        e.release * e.sample_rate >= MICROS_PER_SECOND ==> env_step(e).level * (e.release
            * e.sample_rate) <= e.level * (e.release * e.sample_rate - MICROS_PER_SECOND),
        e.release * e.sample_rate <= MICROS_PER_SECOND ==> env_step(e).stage == EnvStage::Idle,
        env_step(e).stage == EnvStage::Release ==> env_step(e).level > RELEASE_FLOOR,
        env_step(e).stage == EnvStage::Idle ==> env_step(e).level == 0,
{
    let samples = (e.release * e.sample_rate) as int;
    let rate = ramp_rate(e.level, e.release, e.sample_rate) as int;
    let level = e.level as int;
    lemma_ramp_rate_covers(e.level, e.release, e.sample_rate);
    if samples >= MICROS_PER_SECOND {
        let next = env_step(e).level as int;
        assert(next <= level - rate);
        assert(next * samples <= level * (samples - 1_000_000)) by (nonlinear_arith)
            requires
                0 <= next <= level - rate,
                rate * samples >= level * 1_000_000,
                samples >= 1_000_000,
                level >= 0,
        ;
    }
    if 0 < samples <= MICROS_PER_SECOND {
        assert(rate >= level) by (nonlinear_arith)
            requires
                rate * samples >= level * 1_000_000,
                0 < samples <= 1_000_000,
                level >= 0,
                rate >= 0,
        ;
    }
}

/// The level of a release that lasts `r` samples, a sample or longer, decays
/// at least as fast as `(1 - 1/r)^n`; and once that bound is at the release
/// floor or below, the envelope is idle.
pub proof fn lemma_release_decays(e: EnvState, n: nat)
    requires
        e.wf(),
        e.stage == EnvStage::Release,
        e.release * e.sample_rate >= MICROS_PER_SECOND,
    ensures
        env_step_n(e, n).stage == EnvStage::Release || env_step_n(e, n).stage == EnvStage::Idle,
        env_step_n(e, n).level * pow((e.release * e.sample_rate) as int, n) <= e.level * pow(
            e.release * e.sample_rate - MICROS_PER_SECOND,
            n,
        ),
        n >= 1 && e.level * pow(e.release * e.sample_rate - MICROS_PER_SECOND, n) <= RELEASE_FLOOR
            * pow((e.release * e.sample_rate) as int, n) ==> env_step_n(e, n).stage
            == EnvStage::Idle,
    decreases n,
{
    let samples = (e.release * e.sample_rate) as int;
    let rest = samples - MICROS_PER_SECOND;
    reveal(pow);
    if n > 0 {
        let before = env_step_n(e, (n - 1) as nat);
        let after = env_step_n(e, n);
        lemma_release_decays(e, (n - 1) as nat);
        lemma_steps_never_go_back(e, (n - 1) as nat);
        let grown = pow(samples, (n - 1) as nat);
        let shrunk = pow(rest, (n - 1) as nat);
        lemma_pow_positive(samples, (n - 1) as nat);
        lemma_pow_positive(samples, n);
        if rest > 0 {
            lemma_pow_positive(rest, (n - 1) as nat);
        }
        assert(shrunk >= 0) by {
            if rest == 0 && n > 1 {
                assert(pow(rest, (n - 1) as nat) == rest * pow(rest, (n - 2) as nat));
                assert(rest * pow(rest, (n - 2) as nat) == 0) by (nonlinear_arith)
                    requires
                        rest == 0,
                ;
            }
        }
        if before.stage == EnvStage::Release {
            lemma_release_step_shrinks(before);
            assert(after.level * (samples * grown) <= e.level * (rest * shrunk))
                by (nonlinear_arith)
                requires
                    after.level * samples <= before.level * rest,
                    before.level * grown <= e.level * shrunk,
                    grown > 0,
                    rest >= 0,
                    shrunk >= 0,
                    samples > 0,
            ;
        } else {
            assert(after.level == 0);
            assert(e.level * (rest * shrunk) >= 0) by (nonlinear_arith)
                requires
                    rest >= 0,
                    shrunk >= 0,
            ;
            assert(after.level * (samples * grown) == 0) by (nonlinear_arith)
                requires
                    after.level == 0,
            ;
        }
        if after.stage == EnvStage::Release {
            assert(after.level > RELEASE_FLOOR);
            assert(after.level * pow(samples, n) > RELEASE_FLOOR * pow(samples, n))
                by (nonlinear_arith)
                requires
                    after.level > RELEASE_FLOOR,
                    pow(samples, n) > 0,
            ;
        }
    }
}

/// The stage that `n` steps lead to is never behind the stage they started
/// from: without a note event no stage of the cycle comes back once left,
/// except that the cycle closes from `Release` to `Idle`. The steps change
/// nothing but stage and level.
pub proof fn lemma_steps_never_go_back(e: EnvState, n: nat)
    requires
        e.wf(),
    ensures
        env_step_n(e, n).wf(),
        stage_reaches(e.stage, env_step_n(e, n).stage),
        env_step_n(e, n) == (EnvState {
            stage: env_step_n(e, n).stage,
            level: env_step_n(e, n).level,
            ..e
        }),
    decreases n,
{
    if n > 0 {
        lemma_steps_never_go_back(e, (n - 1) as nat);
        lemma_step_preserves_wf(env_step_n(e, (n - 1) as nat));
    }
}

/// Stepping first and then `n` times is stepping `n + 1` times.
pub proof fn lemma_step_n_unfolds_in_front(e: EnvState, n: nat)
    ensures
        env_step_n(env_step(e), n) == env_step_n(e, n + 1),
    decreases n,
{
    assert(env_step_n(e, n + 1) == env_step(env_step_n(e, n)));
    if n > 0 {
        lemma_step_n_unfolds_in_front(e, (n - 1) as nat);
        assert(env_step_n(env_step(e), n) == env_step(env_step_n(env_step(e), (n - 1) as nat)));
    }
}

/// A stage that lasts for `rest` samples after the first step has lasted for
/// `rest + 1` samples.
proof fn lemma_stage_lasts(e: EnvState, rest: nat)
    requires
        forall|m: nat| m < rest ==> (#[trigger] env_step_n(env_step(e), m)).stage == e.stage,
    ensures
        forall|m: nat| m < rest + 1 ==> (#[trigger] env_step_n(e, m)).stage == e.stage,
        env_step_n(e, rest + 1) == env_step_n(env_step(e), rest),
{
    lemma_step_n_unfolds_in_front(e, rest);
    assert forall|m: nat| m < rest + 1 implies (#[trigger] env_step_n(e, m)).stage == e.stage by {
        if m > 0 {
            lemma_step_n_unfolds_in_front(e, (m - 1) as nat);
            assert(env_step_n(env_step(e), (m - 1) as nat).stage == e.stage);
        }
    }
}

/// An attack is over after finitely many samples: the envelope stays in
/// `Attack` for the `n - 1` samples before the last, and the last one leaves
/// it at full level in `Decay`.
pub proof fn lemma_attack_completes(e: EnvState) -> (n: nat)
    requires
        e.wf(),
        e.stage == EnvStage::Attack,
    ensures
        n >= 1,
        env_step_n(e, n).stage == EnvStage::Decay,
        env_step_n(e, n).level == ONE,
        forall|m: nat| m < n ==> (#[trigger] env_step_n(e, m)).stage == EnvStage::Attack,
    decreases ONE - e.level,
{
    lemma_ramp_rate_covers(ONE as nat, e.attack, e.sample_rate);
    let next = env_step(e);
    let rest = if next.stage == EnvStage::Decay {
        0
    } else {
        lemma_attack_completes(next)
    };
    lemma_stage_lasts(e, rest);
    rest + 1
}

/// A decay is over after finitely many samples: the envelope stays in `Decay`
/// for the `n - 1` samples before the last, and the last one leaves it at the
/// sustain level in `Sustain`.
pub proof fn lemma_decay_completes(e: EnvState) -> (n: nat)
    requires
        e.wf(),
        e.stage == EnvStage::Decay,
    ensures
        n >= 1,
        env_step_n(e, n).stage == EnvStage::Sustain,
        env_step_n(e, n).level == e.sustain,
        forall|m: nat| m < n ==> (#[trigger] env_step_n(e, m)).stage == EnvStage::Decay,
    decreases e.level,
{
    lemma_ramp_rate_covers((ONE - e.sustain) as nat, e.decay, e.sample_rate);
    let next = env_step(e);
    let rest = if next.stage == EnvStage::Sustain {
        0
    } else {
        lemma_decay_completes(next)
    };
    lemma_stage_lasts(e, rest);
    rest + 1
}

/// A release is over after finitely many samples, at most as many as the
/// level counts billionths: the envelope stays in `Release` for the `n - 1`
/// samples before the last, and the last one leaves it idle at level zero.
pub proof fn lemma_release_completes(e: EnvState) -> (n: nat)
    requires
        e.wf(),
        e.stage == EnvStage::Release,
    ensures
        n <= e.level + 1,
        n >= 1,
        env_step_n(e, n).stage == EnvStage::Idle,
        env_step_n(e, n).level == 0,
        forall|m: nat| m < n ==> (#[trigger] env_step_n(e, m)).stage == EnvStage::Release,
    decreases e.level,
{
    let next = env_step(e);
    let rest = if next.stage == EnvStage::Idle {
        0
    } else {
        lemma_release_makes_progress(e);
        lemma_release_completes(next)
    };
    lemma_stage_lasts(e, rest);
    rest + 1
}

/// A sustaining envelope rests for as long as the note is held.
pub proof fn lemma_sustain_holds(e: EnvState, n: nat)
    requires
        e.stage == EnvStage::Sustain,
    ensures
        env_step_n(e, n) == e,
    decreases n,
{
    if n > 0 {
        lemma_sustain_holds(e, (n - 1) as nat);
    }
}

/// For every setting of the envelope, a note held long enough and then let go
/// walks the whole cycle, stage by
/// stage and in order: from `Idle` the note-on leads to `Attack`, which lasts
/// `n.0 - 1` samples and ends in `Decay` at full level; `Decay` lasts
/// `n.1 - 1` samples and ends in `Sustain` at the sustain level, where the
/// envelope rests however long the note is held; the note-off leads to
/// `Release`, which lasts `n.2 - 1` samples and ends in `Idle` at level zero.
pub proof fn lemma_held_note_walks_the_cycle(e: EnvState, held: nat) -> (n: (nat, nat, nat))
    requires
        e.wf(),
        e.stage == EnvStage::Idle,
    ensures
        n.0 >= 1 && n.1 >= 1 && n.2 >= 1,
        ({
            let struck = EnvState { stage: EnvStage::Attack, ..e };
            let peak = EnvState { stage: EnvStage::Decay, level: ONE as nat, ..e };
            let resting = EnvState { stage: EnvStage::Sustain, level: e.sustain, ..e };
            let let_go = EnvState { stage: EnvStage::Release, level: e.sustain, ..e };
            &&& forall|m: nat|
                m < n.0 ==> (#[trigger] env_step_n(struck, m)).stage == EnvStage::Attack
            &&& env_step_n(struck, n.0) == peak
            &&& forall|m: nat|
                m < n.1 ==> (#[trigger] env_step_n(peak, m)).stage == EnvStage::Decay
            &&& env_step_n(peak, n.1) == resting
            &&& env_step_n(resting, held) == resting
            &&& forall|m: nat|
                m < n.2 ==> (#[trigger] env_step_n(let_go, m)).stage == EnvStage::Release
            &&& env_step_n(let_go, n.2) == e
        }),
{
    let struck = EnvState { stage: EnvStage::Attack, ..e };
    let peak = EnvState { stage: EnvStage::Decay, level: ONE as nat, ..e };
    let resting = EnvState { stage: EnvStage::Sustain, level: e.sustain, ..e };
    let let_go = EnvState { stage: EnvStage::Release, level: e.sustain, ..e };
    let attack = lemma_attack_completes(struck);
    lemma_steps_never_go_back(struck, attack);
    let decay = lemma_decay_completes(peak);
    lemma_steps_never_go_back(peak, decay);
    lemma_sustain_holds(resting, held);
    let release = lemma_release_completes(let_go);
    lemma_steps_never_go_back(let_go, release);
    (attack, decay, release)
}

fn ramp(span: u64, time: u32, sample_rate: u32) -> (rate: u64)
    requires
        span <= ONE,
    ensures
        rate == ramp_rate(span as nat, time as nat, sample_rate as nat),
{
    assert(time * sample_rate <= 0xffff_ffff * 0xffff_ffff) by (nonlinear_arith)
        requires
            time <= 0xffff_ffff,
            sample_rate <= 0xffff_ffff,
    ;
    let samples: u64 = (time as u64) * (sample_rate as u64);
    if samples == 0 {
        span
    } else {
        proof {
            lemma_ramp_rate_covers(span as nat, time as nat, sample_rate as nat);
        }
        let covered: u128 = (span * MICROS_PER_SECOND) as u128 + (samples as u128 - 1);
        (covered / samples as u128) as u64
    }
}

impl ADSREnvelope {
    /// An idle envelope with an attack of 10 ms, a decay of 100 ms, a sustain
    /// level of 0.7 and a release of 200 ms.
    pub fn new(sample_rate: u32) -> (env: ADSREnvelope)
        ensures
            env@ == env_fresh(sample_rate as nat),
            env@.wf(),
    {
        ADSREnvelope {
            attack: 10_000,
            decay: 100_000,
            sustain: 700_000_000,
            release: 200_000,
            stage: EnvStage::Idle,
            level: 0,
            sample_rate,
        }
    }

    /// Set the attack time, in microseconds.
    pub fn set_attack(&mut self, micros: u32)
        ensures
            final(self)@ == (EnvState { attack: micros as nat, ..old(self)@ }),
    {
        self.attack = micros;
    }

    /// Set the decay time, in microseconds.
    pub fn set_decay(&mut self, micros: u32)
        ensures
            final(self)@ == (EnvState { decay: micros as nat, ..old(self)@ }),
    {
        self.decay = micros;
    }

    /// Set the sustain level, a ratio of at most 1.
    pub fn set_sustain(&mut self, level: u64)
        requires
            level <= ONE,
        ensures
            final(self)@ == (EnvState { sustain: level as nat, ..old(self)@ }),
    {
        self.sustain = level;
    }

    /// Set the release time, in microseconds.
    pub fn set_release(&mut self, micros: u32)
        ensures
            final(self)@ == (EnvState { release: micros as nat, ..old(self)@ }),
    {
        self.release = micros;
    }

    /// Start the attack from whatever level the envelope is at.
    pub fn note_on(&mut self)
        ensures
            final(self)@ == (EnvState { stage: EnvStage::Attack, ..old(self)@ }),
    {
        self.stage = EnvStage::Attack;
    }

    /// Start the release from whatever level the envelope is at.
    pub fn note_off(&mut self)
        ensures
            final(self)@ == (EnvState { stage: EnvStage::Release, ..old(self)@ }),
    {
        self.stage = EnvStage::Release;
    }

    /// Advance the envelope by one sample and return its output.
    pub fn next_sample(&mut self) -> (sample: u64)
        requires
            old(self)@.wf(),
        ensures
            final(self)@ == env_step(old(self)@),
            sample == env_output(old(self)@),
            sample <= ONE,
            final(self)@.wf(),
            stage_follows(old(self)@.stage, final(self)@.stage),
            old(self)@.stage == EnvStage::Release && old(self)@.level > 0 ==> final(self)@.level
                < old(self)@.level,
    {
        proof {
            lemma_step_is_monotone(self@);
        }
        match self.stage {
            EnvStage::Idle => 0,
            EnvStage::Attack => {
                let rate: u64 = ramp(ONE, self.attack, self.sample_rate);
                if rate >= ONE - self.level {
                    self.level = ONE;
                    self.stage = EnvStage::Decay;
                } else {
                    self.level = self.level + rate;
                }
                self.level
            },
            EnvStage::Decay => {
                let rate: u64 = ramp(ONE - self.sustain, self.decay, self.sample_rate);
                if self.level <= self.sustain || rate >= self.level - self.sustain {
                    self.level = self.sustain;
                    self.stage = EnvStage::Sustain;
                } else {
                    self.level = self.level - rate;
                }
                self.level
            },
            EnvStage::Sustain => self.sustain,
            EnvStage::Release => {
                let rate: u64 = ramp(self.level, self.release, self.sample_rate);
                if self.level <= RELEASE_FLOOR || rate >= self.level - RELEASE_FLOOR {
                    self.level = 0;
                    self.stage = EnvStage::Idle;
                } else {
                    self.level = self.level - rate;
                }
                self.level
            },
        }
    }

    /// Whether the envelope sounds: true in every stage but `Idle`.
    pub fn is_active(&self) -> (active: bool)
        ensures
            active == self@.is_active(),
    {
        self.stage != EnvStage::Idle
    }

    /// The current stage.
    pub fn stage(&self) -> (stage: EnvStage)
        ensures
            stage == self@.stage,
    {
        self.stage
    }

    /// The current level, in billionths.
    pub fn level(&self) -> (level: u64)
        ensures
            level == self@.level,
    {
        self.level
    }
}

} // verus!
