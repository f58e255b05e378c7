//! A phase-accumulating sine oscillator.
//!
//! The phase is a fraction of a turn in billionths. The waveform is the sine,
//! computed in integers from the first seven terms of its power series; it
//! stays within a few billionths of full scale of the true sine.

use crate::utils::{lemma_scale_bounded, scale, NANOS_PER_UNIT, ONE};
use vstd::arithmetic::div_mod::{
    lemma_add_mod_noop, lemma_div_by_multiple_is_strongly_ordered, lemma_div_multiples_vanish,
    lemma_fundamental_div_mod, lemma_fundamental_div_mod_converse, lemma_mod_multiples_vanish,
    lemma_small_mod,
};
use vstd::prelude::*;

verus! {

/// Half a turn, in billionths.
pub const HALF: u64 = 500_000_000;

/// A quarter of a turn, in billionths.
pub const QUARTER: u64 = 250_000_000;

/// The state of an oscillator as mathematical integers.
pub struct OscState {
    /// Fraction of a turn already travelled, in billionths.
    pub phase: nat,
    /// Frequency in nanohertz.
    pub frequency: nat,
    /// Sample rate in hertz.
    pub sample_rate: nat,
}

impl OscState {
    /// The phase lies inside one turn.
    pub open spec fn wf(self) -> bool {
        self.phase < ONE
    }
}

/// An oscillator at rest, tuned to 440 Hz.
pub open spec fn osc_fresh(sample_rate: nat) -> OscState {
    OscState { phase: 0, frequency: 440_000_000_000, sample_rate }
}

/// Phase travelled during one sample, in billionths of a turn, rounded down:
/// the frequency in nanohertz over the sample rate in hertz. Nothing moves at
/// a sample rate of zero.
pub open spec fn phase_step(frequency: nat, sample_rate: nat) -> nat {
    if sample_rate == 0 {
        0
    } else {
        frequency / sample_rate
    }
}

/// One step of Horner's rule for an alternating series in `z2`, a ratio of
/// at most 1: `c - t * z2`.
pub open spec fn horner_step(c: nat, t: nat, z2: nat) -> nat {
    (c - scale(t as int, z2)) as nat
}

/// The sine of `z` billionths of a quarter turn (`z <= ONE`), in billionths:
/// `sin(pi/2 * z)` by the power series
/// `a1 z - a3 z^3 + a5 z^5 - ... + a13 z^13` with `ak = (pi/2)^k / k!`, held
/// to full scale.
pub open spec fn quarter_wave(z: nat) -> nat {
    let z2 = scale(z as int, z) as nat;
    let t = horner_step(3_599, 57, z2);
    let t = horner_step(160_441, t, z2);
    let t = horner_step(4_681_754, t, z2);
    let t = horner_step(79_692_626, t, z2);
    let t = horner_step(645_964_098, t, z2);
    let t = horner_step(1_570_796_327, t, z2);
    let sine = scale(t as int, z) as nat;
    if sine > ONE {
        ONE as nat
    } else {
        sine
    }
}

/// Magnitude of the waveform at `x` billionths into a half turn
/// (`x <= HALF`): the second quarter turn mirrors the first.
pub open spec fn half_wave(x: nat) -> nat {
    if x <= QUARTER {
        quarter_wave(4 * x)
    } else {
        quarter_wave((4 * (HALF - x)) as nat)
    }
}

/// The distance between two numbers.
pub open spec fn gap(a: int, b: int) -> int {
    if a >= b {
        a - b
    } else {
        b - a
    }
}

/// The waveform at phase `phase < ONE`: the first half turn is positive, the
/// second mirrors it below zero.
pub open spec fn sine_wave(phase: nat) -> int {
    if phase < HALF {
        half_wave(phase) as int
    } else {
        -(half_wave((phase - HALF) as nat) as int)
    }
}

/// The oscillator one sample later: the phase moves on by `phase_step` and
/// wraps around at one turn.
pub open spec fn osc_advance(s: OscState) -> OscState {
    OscState { phase: (s.phase + phase_step(s.frequency, s.sample_rate)) % ONE as nat, ..s }
}

/// The oscillator `n` samples later.
pub open spec fn osc_advance_n(s: OscState, n: nat) -> OscState
    decreases n,
{
    if n == 0 {
        s
    } else {
        osc_advance(osc_advance_n(s, (n - 1) as nat))
    }
}

/// A sine oscillator.
#[derive(Clone, Copy, Debug)]
pub struct SineOsc {
    phase: u64,
    frequency: u64,
    sample_rate: u32,
}

impl View for SineOsc {
    type V = OscState;

    closed spec fn view(&self) -> OscState {
        OscState {
            phase: self.phase as nat,
            frequency: self.frequency as nat,
            sample_rate: self.sample_rate as nat,
        }
    }
}

/// A step of Horner's rule on a term of at most `c` stays between zero and
/// `c`.
proof fn lemma_horner_step_bounded(c: nat, t: nat, z2: nat)
    requires
        t <= c,
        z2 <= ONE,
    ensures
        horner_step(c, t, z2) <= c,
        horner_step(c, t, z2) == c - scale(t as int, z2),
{
    lemma_scale_bounded(t as int, z2, t);
}

/// At the end of the quarter turn the series adds up to full scale exactly.
proof fn lemma_quarter_wave_peak()
    ensures
        quarter_wave(ONE as nat) == ONE,
{
    let one = ONE as nat;
    crate::utils::lemma_scale_by_zero_and_one(ONE as int);
    crate::utils::lemma_scale_by_zero_and_one(57);
    assert(horner_step(3_599, 57, one) == 3_542);
    crate::utils::lemma_scale_by_zero_and_one(3_542);
    assert(horner_step(160_441, 3_542, one) == 156_899);
    crate::utils::lemma_scale_by_zero_and_one(156_899);
    assert(horner_step(4_681_754, 156_899, one) == 4_524_855);
    crate::utils::lemma_scale_by_zero_and_one(4_524_855);
    assert(horner_step(79_692_626, 4_524_855, one) == 75_167_771);
    crate::utils::lemma_scale_by_zero_and_one(75_167_771);
    assert(horner_step(645_964_098, 75_167_771, one) == 570_796_327);
    crate::utils::lemma_scale_by_zero_and_one(570_796_327);
    assert(horner_step(1_570_796_327, 570_796_327, one) == 1_000_000_000);
}

/// The waveform's magnitude never exceeds full scale, and the two quarter
/// turns of a half turn mirror each other.
pub proof fn lemma_half_wave_bounded(x: nat)
    requires
        x <= HALF,
    ensures
        half_wave(x) <= ONE,
        half_wave(x) == half_wave((HALF - x) as nat),
{
}

/// The waveform stays within full scale, crosses zero at the start of each
/// half turn, peaks at the quarter turns, is positive over the first half turn
/// and mirrors it below zero over the second.
pub proof fn lemma_sine_wave_shape(phase: nat)
    requires
        phase < ONE,
    ensures
        -(ONE as int) <= sine_wave(phase) <= ONE,
        sine_wave(0) == 0,
        sine_wave(HALF as nat) == 0,
        sine_wave(QUARTER as nat) == ONE,
        sine_wave(750_000_000) == -(ONE as int),
        phase < HALF ==> sine_wave(phase) >= 0,
        phase >= HALF ==> sine_wave(phase) == -sine_wave((phase - HALF) as nat),
{
    lemma_quarter_wave_peak();
    assert(quarter_wave(0) == 0);
}

/// Two scaled values are no further apart than the values, plus what the
/// difference of the ratios makes of the larger value, plus one for rounding.
proof fn lemma_scale_gap(t: nat, u: nat, z: nat, w: nat, bound: nat)
    requires
        t <= bound,
        u <= bound,
        z <= ONE,
        w <= ONE,
    ensures
        gap(scale(t as int, z), scale(u as int, w)) <= gap(t as int, u as int) + scale(
            bound as int,
            gap(z as int, w as int) as nat,
        ) + 1,
        scale(bound as int, gap(z as int, w as int) as nat) * ONE <= bound * gap(
            z as int,
            w as int,
        ),
{
    let one = ONE as int;
    let a = (t * z) as int;
    let b = (u * w) as int;
    let far = gap(t as int, u as int);
    let y = (bound * gap(z as int, w as int)) as int;
    assert(a - b <= far * one + y && b - a <= far * one + y && y >= 0) by (nonlinear_arith)
        requires
            a == t * z,
            b == u * w,
            far == gap(t as int, u as int),
            y == bound * gap(z as int, w as int),
            0 <= t <= bound,
            0 <= u <= bound,
            0 <= z <= one,
            0 <= w <= one,
    ;
    lemma_fundamental_div_mod(a, one);
    lemma_fundamental_div_mod(b, one);
    lemma_fundamental_div_mod(y, one);
}

/// Two steps of Horner's rule are no further apart than their terms, plus
/// what the difference of the ratios makes of the larger term, plus one.
proof fn lemma_horner_step_gap(c: nat, t: nat, u: nat, z: nat, w: nat, bound: nat)
    requires
        t <= bound <= c,
        u <= bound,
        z <= ONE,
        w <= ONE,
    ensures
        gap(horner_step(c, t, z) as int, horner_step(c, u, w) as int) <= gap(t as int, u as int)
            + scale(bound as int, gap(z as int, w as int) as nat) + 1,
        scale(bound as int, gap(z as int, w as int) as nat) * ONE <= bound * gap(
            z as int,
            w as int,
        ),
        horner_step(c, t, z) <= c,
        horner_step(c, u, w) <= c,
{
    lemma_horner_step_bounded(c, t, z);
    lemma_horner_step_bounded(c, u, w);
    lemma_scale_gap(t, u, z, w, bound);
}

/// The sine over a quarter turn is steady: two of its values are no further
/// apart than about three times the distance of their places, plus eight for
/// rounding.
proof fn lemma_quarter_wave_gap(z: nat, w: nat)
    requires
        z <= ONE,
        w <= ONE,
    ensures
        gap(quarter_wave(z) as int, quarter_wave(w) as int) * ONE <= 3_031_801_477 * gap(
            z as int,
            w as int,
        ) + 7_730_502_575,
{
    let one = ONE as nat;
    let far = gap(z as int, w as int);
    let z2 = scale(z as int, z) as nat;
    let w2 = scale(w as int, w) as nat;
    lemma_scale_bounded(z as int, z, one);
    lemma_scale_bounded(w as int, w, one);
    lemma_scale_gap(z, w, z, w, one);
    let far2 = gap(z2 as int, w2 as int);
    assert(far2 <= 2 * far + 1) by {
        crate::utils::lemma_scale_by_zero_and_one(far);
        assert(scale(ONE as int, far as nat) * ONE <= ONE * far);
    }
    let t5 = horner_step(3_599, 57, z2);
    let u5 = horner_step(3_599, 57, w2);
    lemma_horner_step_gap(3_599, 57, 57, z2, w2, 57);
    let t4 = horner_step(160_441, t5, z2);
    let u4 = horner_step(160_441, u5, w2);
    lemma_horner_step_gap(160_441, t5, u5, z2, w2, 3_599);
    let t3 = horner_step(4_681_754, t4, z2);
    let u3 = horner_step(4_681_754, u4, w2);
    lemma_horner_step_gap(4_681_754, t4, u4, z2, w2, 160_441);
    let t2 = horner_step(79_692_626, t3, z2);
    let u2 = horner_step(79_692_626, u3, w2);
    lemma_horner_step_gap(79_692_626, t3, u3, z2, w2, 4_681_754);
    let t1 = horner_step(645_964_098, t2, z2);
    let u1 = horner_step(645_964_098, u2, w2);
    lemma_horner_step_gap(645_964_098, t2, u2, z2, w2, 79_692_626);
    let t0 = horner_step(1_570_796_327, t1, z2);
    let u0 = horner_step(1_570_796_327, u1, w2);
    lemma_horner_step_gap(1_570_796_327, t1, u1, z2, w2, 645_964_098);
    // The terms differ by at most 0.7305 times the difference of the squares,
    // plus six.
    assert(gap(t0 as int, u0 as int) * ONE <= 730_502_575 * far2 + 6 * ONE);
    lemma_scale_gap(t0, u0, z, w, 1_570_796_327);
    let m = scale(t0 as int, z);
    let n = scale(u0 as int, w);
    assert(gap(m, n) * ONE <= 730_502_575 * far2 + 1_570_796_327 * far + 7 * ONE);
}

/// The sine over a half turn is steady: two of its values are no further
/// apart than about twelve times the distance of their phases, plus eight.
proof fn lemma_half_wave_gap(x: nat, y: nat)
    requires
        x <= HALF,
        y <= HALF,
    ensures
        gap(half_wave(x) as int, half_wave(y) as int) * ONE <= 12_127_205_908 * gap(
            x as int,
            y as int,
        ) + 7_730_502_575,
        half_wave(0) == 0,
        half_wave(HALF as nat) == 0,
{
    let z: nat = if x <= QUARTER {
        4 * x
    } else {
        (4 * (HALF - x)) as nat
    };
    let w: nat = if y <= QUARTER {
        4 * y
    } else {
        (4 * (HALF - y)) as nat
    };
    lemma_quarter_wave_gap(z, w);
    assert(gap(z as int, w as int) <= 4 * gap(x as int, y as int));
    assert(quarter_wave(0) == 0);
}

/// The waveform is steady: the samples at two phases of which one is `d`
/// billionths of a turn ahead of the other, around the turn, are no further
/// apart than `13 d + 16` billionths of full scale.
pub proof fn lemma_sine_wave_is_steady(p: nat, q: nat, d: nat)
    requires
        p < ONE,
        q < ONE,
        (p + d) % (ONE as nat) == q,
    ensures
        gap(sine_wave(p), sine_wave(q)) <= 13 * d + 16,
{
    lemma_sine_wave_shape(p);
    lemma_sine_wave_shape(q);
    if d < HALF {
        if p + d < ONE {
            lemma_small_mod(p + d, ONE as nat);
        } else {
            lemma_fundamental_div_mod_converse((p + d) as int, ONE as int, 1, p + d - ONE);
        }
        if p < HALF && q < HALF {
            lemma_half_wave_gap(p, q);
        } else if p >= HALF && q >= HALF {
            lemma_half_wave_gap((p - HALF) as nat, (q - HALF) as nat);
        } else if p < HALF {
            lemma_half_wave_gap(p, HALF as nat);
            lemma_half_wave_gap((q - HALF) as nat, 0);
        } else {
            lemma_half_wave_gap((p - HALF) as nat, HALF as nat);
            lemma_half_wave_gap(q, 0);
        }
    }
}

/// Below the sample rate the step is less than a turn, so that the phase wraps
/// by taking one turn off at most once.
pub proof fn lemma_single_wrap(s: OscState)
    requires
        s.wf(),
        s.frequency < s.sample_rate * NANOS_PER_UNIT,
    ensures
        phase_step(s.frequency, s.sample_rate) < ONE,
        s.phase + phase_step(s.frequency, s.sample_rate) < ONE ==> osc_advance(s).phase
            == s.phase + phase_step(s.frequency, s.sample_rate),
        s.phase + phase_step(s.frequency, s.sample_rate) >= ONE ==> osc_advance(s).phase
            == s.phase + phase_step(s.frequency, s.sample_rate) - ONE,
{
    let rate = s.sample_rate as int;
    let step = phase_step(s.frequency, s.sample_rate) as int;
    lemma_div_by_multiple_is_strongly_ordered(
        s.frequency as int,
        rate * ONE,
        ONE as int,
        rate,
    );
    lemma_div_multiples_vanish(ONE as int, rate);
    let moved = s.phase + step;
    if moved >= ONE {
        lemma_fundamental_div_mod_converse(moved, ONE as int, 1, moved - ONE);
    } else {
        lemma_small_mod(moved as nat, ONE as nat);
    }
}

/// After `n` samples the phase has moved by `n` steps, modulo one turn, and
/// nothing else has changed.
pub proof fn lemma_advance_n(s: OscState, n: nat)
    requires
        s.wf(),
    ensures
        osc_advance_n(s, n).phase
            == (s.phase + n * phase_step(s.frequency, s.sample_rate)) % (ONE as nat),
        osc_advance_n(s, n).frequency == s.frequency,
        osc_advance_n(s, n).sample_rate == s.sample_rate,
        osc_advance_n(s, n).wf(),
    decreases n,
{
    let step = phase_step(s.frequency, s.sample_rate);
    if n == 0 {
        lemma_small_mod(s.phase, ONE as nat);
    } else {
        lemma_advance_n(s, (n - 1) as nat);
        let before = s.phase + (n - 1) * step;
        assert(s.phase + n * step == before + step) by (nonlinear_arith)
            requires
                before == s.phase + (n - 1) * step,
        ;
        lemma_add_mod_noop(before, step as int, ONE as int);
        lemma_small_mod(step % ONE as nat, ONE as nat);
        lemma_add_mod_noop(before % (ONE as int), step as int, ONE as int);
        lemma_small_mod((before % (ONE as int)) as nat, ONE as nat);
    }
}

/// An oscillator below the sample rate that runs for `n` samples spanning
/// exactly `k` whole cycles comes back to where it started: its phase is short
/// of the starting phase by a rounding drift of less than `n` billionths of a
/// turn, and its next sample is within `13 drift + 16` billionths of full scale
/// of the first one.
pub proof fn lemma_phase_returns_after_whole_cycles(s: OscState, n: nat, k: nat) -> (drift: nat)
    requires
        s.wf(),
        0 < s.frequency < s.sample_rate * NANOS_PER_UNIT,
        n * s.frequency == k * (s.sample_rate * NANOS_PER_UNIT),
    ensures
        drift == k * ONE - n * phase_step(s.frequency, s.sample_rate),
        n == 0 ==> drift == 0,
        n > 0 ==> drift < n,
        (osc_advance_n(s, n).phase + drift) % (ONE as nat) == s.phase,
        gap(sine_wave(osc_advance_n(s, n).phase), sine_wave(s.phase)) <= 13 * drift + 16,
{
    let f = s.frequency as int;
    let d = s.sample_rate as int;
    let one = ONE as int;
    let step = phase_step(s.frequency, s.sample_rate) as int;
    let r = f % d;
    lemma_fundamental_div_mod(f, d);
    assert(f == d * step + r);
    // n f = k d ONE, and also n (d step + r); hence d (k ONE - n step) = n r.
    let lag = k * one - n * step;
    assert(d * lag == n * r) by (nonlinear_arith)
        requires
            f == d * step + r,
            n * f == k * (d * one),
            lag == k * one - n * step,
    ;
    assert(0 <= lag && (n > 0 ==> lag < n) && (n == 0 ==> lag == 0)) by (nonlinear_arith)
        requires
            d * lag == n * r,
            0 <= r < d,
            n >= 0,
    ;
    lemma_advance_n(s, n);
    let travelled = s.phase + n * step;
    lemma_add_mod_noop(travelled, lag, one);
    lemma_small_mod(lag as nat % ONE as nat, ONE as nat);
    lemma_add_mod_noop(travelled % one, lag, one);
    lemma_small_mod((travelled % one) as nat, ONE as nat);
    assert(travelled + lag == one * k + s.phase) by (nonlinear_arith)
        requires
            travelled == s.phase + n * step,
            lag == k * one - n * step,
    ;
    lemma_mod_multiples_vanish(k as int, s.phase as int, one);
    lemma_small_mod(s.phase, ONE as nat);
    lemma_sine_wave_is_steady(osc_advance_n(s, n).phase, s.phase, lag as nat);
    lag as nat
}

/// `c - t * z2`, a step of Horner's rule.
fn horner(c: u64, t: u64, z2: u64) -> (r: u64)
    requires
        t <= c <= 2 * ONE,
        z2 <= ONE,
    ensures
        r == horner_step(c as nat, t as nat, z2 as nat),
        r <= c,
{
    proof {
        lemma_horner_step_bounded(c as nat, t as nat, z2 as nat);
        assert(t * z2 <= 2 * ONE * ONE) by (nonlinear_arith)
            requires
                t <= 2 * ONE,
                z2 <= ONE,
        ;
    }
    c - t * z2 / ONE
}

/// The sine of `z` billionths of a quarter turn, in billionths.
fn quarter_sine(z: u64) -> (r: u64)
    requires
        z <= ONE,
    ensures
        r == quarter_wave(z as nat),
        r <= ONE,
{
    proof {
        lemma_scale_bounded(z as int, z as nat, ONE as nat);
        assert(z * z <= ONE * ONE) by (nonlinear_arith)
            requires
                z <= ONE,
        ;
    }
    let z2: u64 = z * z / ONE;
    let t: u64 = horner(3_599, 57, z2);
    let t: u64 = horner(160_441, t, z2);
    let t: u64 = horner(4_681_754, t, z2);
    let t: u64 = horner(79_692_626, t, z2);
    let t: u64 = horner(645_964_098, t, z2);
    let t: u64 = horner(1_570_796_327, t, z2);
    assert(t * z <= 2 * ONE * ONE) by (nonlinear_arith)
        requires
            t <= 2 * ONE,
            z <= ONE,
    ;
    let sine: u64 = t * z / ONE;
    if sine > ONE {
        ONE
    } else {
        sine
    }
}

/// The waveform at `phase`, taken within its turn, in billionths of full
/// scale.
pub fn sine(phase: u64) -> (sample: i64)
    ensures
        sample == sine_wave((phase % ONE) as nat),
        -(ONE as int) <= sample <= ONE,
{
    let phase: u64 = phase % ONE;
    let x: u64 = if phase < HALF {
        phase
    } else {
        phase - HALF
    };
    let magnitude: u64 = if x <= QUARTER {
        quarter_sine(4 * x)
    } else {
        quarter_sine(4 * (HALF - x))
    };
    if phase < HALF {
        magnitude as i64
    } else {
        -(magnitude as i64)
    }
}

impl SineOsc {
    /// An oscillator at rest, tuned to 440 Hz.
    pub fn new(sample_rate: u32) -> (osc: SineOsc)
        ensures
            osc@ == osc_fresh(sample_rate as nat),
            osc@.wf(),
    {
        SineOsc { phase: 0, frequency: 440_000_000_000, sample_rate }
    }

    /// Set the frequency, in nanohertz.
    pub fn set_frequency(&mut self, freq: u64)
        ensures
            final(self)@ == (OscState { frequency: freq as nat, ..old(self)@ }),
    {
        self.frequency = freq;
    }

    /// Return the waveform at the current phase, then move the phase on by one
    /// sample.
    pub fn next_sample(&mut self) -> (sample: i64)
        requires
            old(self)@.wf(),
        ensures
            sample == sine_wave(old(self)@.phase),
            -(ONE as int) <= sample <= ONE,
            final(self)@ == osc_advance(old(self)@),
            final(self)@.wf(),
    {
        proof {
            lemma_small_mod(self.phase as nat, ONE as nat);
        }
        let sample: i64 = sine(self.phase);
        if self.sample_rate != 0 {
            let step: u64 = self.frequency / (self.sample_rate as u64);
            self.phase = (((self.phase as u128) + (step as u128)) % (ONE as u128)) as u64;
        }
        sample
    }

    /// Bring the phase back to the start of a turn.
    pub fn reset(&mut self)
        ensures
            final(self)@ == (OscState { phase: 0, ..old(self)@ }),
            final(self)@.wf(),
    {
        self.phase = 0;
    }

    /// The current phase, in billionths of a turn.
    pub fn phase(&self) -> (p: u64)
        ensures
            p == self@.phase,
    {
        self.phase
    }

    /// The current frequency, in nanohertz.
    pub fn frequency(&self) -> (f: u64)
        ensures
            f == self@.frequency,
    {
        self.frequency
    }

    /// The sample rate, in hertz.
    pub fn sample_rate(&self) -> (r: u32)
        ensures
            r == self@.sample_rate,
    {
        self.sample_rate
    }
}

} // verus!
