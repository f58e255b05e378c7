//! Units and small numeric helpers shared by the whole engine.

use vstd::arithmetic::div_mod::{
    lemma_div_is_ordered, lemma_div_multiples_vanish, lemma_div_pos_is_pos,
};
use vstd::arithmetic::power2::{
    lemma2_to64, lemma_pow2_strictly_increases, lemma_pow2_unfold, pow2,
};
use vstd::prelude::*;

verus! {

/// The fixed-point representation of 1.0: ratios are counted in billionths.
pub const ONE: u64 = 1_000_000_000;

/// Nanohertz in one hertz.
pub const NANOS_PER_UNIT: u64 = 1_000_000_000;

/// Microseconds in one second.
pub const MICROS_PER_SECOND: u64 = 1_000_000;

/// The largest magnitude of a sample, about 9.2 billion times full scale.
pub const SAMPLE_MAX: i64 = 0x7fff_ffff_ffff_ffff;

/// `x` scaled by `ratio` billionths, rounded toward zero.
pub open spec fn scale(x: int, ratio: nat) -> int {
    if x >= 0 {
        x * ratio / (ONE as int)
    } else {
        -((-x) * ratio / (ONE as int))
    }
}

/// `x` held to the range of a sample, `-SAMPLE_MAX ..= SAMPLE_MAX`.
pub open spec fn clip(x: int) -> int {
    if x > SAMPLE_MAX {
        SAMPLE_MAX as int
    } else if x < -SAMPLE_MAX {
        -SAMPLE_MAX
    } else {
        x
    }
}

/// Frequency, in nanohertz, of MIDI note `k` of the lowest octave (`k < 12`):
/// 440 Hz * 2^((k - 69) / 12), rounded to the nearest nanohertz.
pub open spec fn semitone_nano_hz(k: nat) -> nat {
    if k == 0 {
        8_175_798_916
    } else if k == 1 {
        8_661_957_218
    } else if k == 2 {
        9_177_023_997
    } else if k == 3 {
        9_722_718_241
    } else if k == 4 {
        10_300_861_154
    } else if k == 5 {
        10_913_382_232
    } else if k == 6 {
        11_562_325_710
    } else if k == 7 {
        12_249_857_374
    } else if k == 8 {
        12_978_271_799
    } else if k == 9 {
        13_750_000_000
    } else if k == 10 {
        14_567_617_547
    } else {
        15_433_853_164
    }
}

/// Frequency of a MIDI note in nanohertz, in equal temperament with note 69
/// at 440 Hz: the note's semitone in the lowest octave, doubled once per
/// octave.
pub open spec fn midi_freq(note: nat) -> nat {
    semitone_nano_hz(note % 12) * pow2(note / 12)
}

/// `x` scaled by `ratio` billionths of either sign, rounded toward zero.
pub open spec fn scale_signed(x: int, ratio: int) -> int {
    if ratio >= 0 {
        scale(x, ratio as nat)
    } else {
        -scale(x, (-ratio) as nat)
    }
}

/// `x` held to the range of an `i64`.
pub open spec fn saturate(x: int) -> int {
    if x > i64::MAX {
        i64::MAX as int
    } else if x < i64::MIN {
        i64::MIN as int
    } else {
        x
    }
}

/// `a + (b - a) * t`, with `t` in billionths and the product rounded toward
/// zero, held to the range of an `i64`.
pub open spec fn lerp_spec(a: int, b: int, t: int) -> int {
    saturate(a + scale_signed(b - a, t))
}

/// Scaling by a ratio of at most 1 never grows a value, and scaling keeps the
/// sign.
pub proof fn lemma_scale_bounded(x: int, ratio: nat, bound: nat)
    requires
        -(bound as int) <= x <= bound,
        ratio <= ONE,
    ensures
        -(bound as int) <= scale(x, ratio) <= bound,
        x >= 0 ==> 0 <= scale(x, ratio) <= x,
        x <= 0 ==> x <= scale(x, ratio) <= 0,
{
    let m: int = if x >= 0 {
        x
    } else {
        -x
    };
    assert(0 <= m * ratio <= m * ONE) by (nonlinear_arith)
        requires
            0 <= m,
            0 <= ratio <= ONE,
    ;
    lemma_div_is_ordered(m * ratio, m * ONE, ONE as int);
    lemma_div_multiples_vanish(m, ONE as int);
    lemma_div_pos_is_pos(m * ratio, ONE as int);
}

/// Scaling a ratio of at most 1 in magnitude by a gain gives at most the gain
/// in magnitude.
pub proof fn lemma_scale_by_gain(x: int, gain: nat)
    requires
        -(ONE as int) <= x <= ONE,
    ensures
        -(gain as int) <= scale(x, gain) <= gain,
{
    let m: int = if x >= 0 {
        x
    } else {
        -x
    };
    assert(0 <= m * gain <= gain * ONE) by (nonlinear_arith)
        requires
            0 <= m <= ONE,
            0 <= gain,
    ;
    lemma_div_is_ordered(m * gain, gain * ONE, ONE as int);
    lemma_div_multiples_vanish(gain as int, ONE as int);
    lemma_div_pos_is_pos(m * gain, ONE as int);
}

/// Scaling by nothing gives nothing, and scaling by 1 changes nothing.
pub proof fn lemma_scale_by_zero_and_one(x: int)
    ensures
        scale(x, 0) == 0,
        scale(x, ONE as nat) == x,
{
    lemma_div_multiples_vanish(x, ONE as int);
    lemma_div_multiples_vanish(-x, ONE as int);
}

/// An interpolation starts at `a`, ends at `b`, and stays between the two for
/// every `t` of at most 1.
pub proof fn lemma_lerp_stays_between(a: i64, b: i64, t: int)
    requires
        0 <= t <= ONE,
    ensures
        lerp_spec(a as int, b as int, 0) == a,
        lerp_spec(a as int, b as int, ONE as int) == b,
        a <= b ==> a <= lerp_spec(a as int, b as int, t) <= b,
        b <= a ==> b <= lerp_spec(a as int, b as int, t) <= a,
{
    lemma_scale_by_zero_and_one(b - a);
    if a <= b {
        lemma_scale_bounded(b - a, t as nat, (b - a) as nat);
    } else {
        lemma_scale_bounded(b - a, t as nat, (a - b) as nat);
    }
}

/// A note one octave up has exactly twice the frequency.
pub proof fn lemma_octave_doubles(note: nat)
    ensures
        midi_freq(note + 12) == 2 * midi_freq(note),
{
    let base = semitone_nano_hz(note % 12);
    let low = base * pow2(note / 12);
    assert((note + 12) % 12 == note % 12 && (note + 12) / 12 == note / 12 + 1);
    lemma_pow2_unfold(note / 12 + 1);
    assert(base * pow2(note / 12 + 1) == 2 * low) by (nonlinear_arith)
        requires
            pow2(note / 12 + 1) == 2 * pow2(note / 12),
            low == base * pow2(note / 12),
    ;
}

/// The notes A are whole multiples of 55 Hz: note 69 sounds at 440 Hz, and
/// every A at 13.75 Hz doubled once per octave.
pub proof fn lemma_a_notes_are_exact(octave: nat)
    ensures
        midi_freq(9 + 12 * octave) == 13_750_000_000 * pow2(octave),
        midi_freq(69) == 440_000_000_000,
{
    assert((9 + 12 * octave) % 12 == 9 && (9 + 12 * octave) / 12 == octave);
    lemma2_to64();
    assert(69nat % 12 == 9 && 69nat / 12 == 5);
}

fn semitone(k: u8) -> (f: u64)
    requires
        k < 12,
    ensures
        f == semitone_nano_hz(k as nat),
{
    if k == 0 {
        8_175_798_916
    } else if k == 1 {
        8_661_957_218
    } else if k == 2 {
        9_177_023_997
    } else if k == 3 {
        9_722_718_241
    } else if k == 4 {
        10_300_861_154
    } else if k == 5 {
        10_913_382_232
    } else if k == 6 {
        11_562_325_710
    } else if k == 7 {
        12_249_857_374
    } else if k == 8 {
        12_978_271_799
    } else if k == 9 {
        13_750_000_000
    } else if k == 10 {
        14_567_617_547
    } else {
        15_433_853_164
    }
}

/// Convert a MIDI note number to its frequency in nanohertz.
pub fn midi_to_freq(note: u8) -> (freq: u64)
    ensures
        freq == midi_freq(note as nat),
{
    let octave: u8 = note / 12;
    let mut nano: u64 = semitone(note % 12);
    let ghost base: nat = nano as nat;
    let mut i: u8 = 0;
    proof {
        lemma2_to64();
    }
    while i < octave
        invariant
            i <= octave <= 21,
            base < 16_000_000_000,
            nano == base * pow2(i as nat),
        decreases octave - i,
    {
        proof {
            lemma2_to64();
            lemma_pow2_unfold(i as nat + 1);
            lemma_pow2_strictly_increases(i as nat + 1, 22);
            assert(base * pow2(i as nat + 1) <= 16_000_000_000 * 0x400000) by (nonlinear_arith)
                requires
                    base < 16_000_000_000,
                    pow2(i as nat + 1) < pow2(22),
                    pow2(22) == 0x400000,
            ;
            assert(base * pow2(i as nat + 1) == 2 * (base * pow2(i as nat))) by (nonlinear_arith)
                requires
                    pow2(i as nat + 1) == 2 * pow2(i as nat),
            ;
        }
        nano = nano * 2;
        i = i + 1;
    }
    nano
}

/// The magnitude of `x`.
fn magnitude(x: i64) -> (m: u64)
    ensures
        m == if x >= 0 {
            x as int
        } else {
            -(x as int)
        },
{
    if x >= 0 {
        x as u64
    } else if x == i64::MIN {
        0x8000_0000_0000_0000
    } else {
        (-x) as u64
    }
}

/// Linear interpolation from `a` (at `t == 0`) to `b` (at `t == ONE`); a `t`
/// below zero or beyond `ONE` extrapolates, and the result is held to the range
/// of an `i64`.
pub fn lerp(a: i64, b: i64, t: i64) -> (r: i64)
    ensures
        r == lerp_spec(a as int, b as int, t as int),
{
    let span: i128 = b as i128 - a as i128;
    let size: u128 = if span >= 0 {
        span as u128
    } else {
        (-span) as u128
    };
    let ratio: u128 = magnitude(t) as u128;
    assert(size * ratio <= 0xffff_ffff_ffff_ffff * 0x8000_0000_0000_0000) by (nonlinear_arith)
        requires
            size <= 0xffff_ffff_ffff_ffff,
            ratio <= 0x8000_0000_0000_0000,
    ;
    let part: u128 = size * ratio / (ONE as u128);
    let step: i128 = if (span >= 0) == (t >= 0) {
        part as i128
    } else {
        -(part as i128)
    };
    let sum: i128 = a as i128 + step;
    if sum > i64::MAX as i128 {
        i64::MAX
    } else if sum < i64::MIN as i128 {
        i64::MIN
    } else {
        sum as i64
    }
}

/// Scale a sample by `ratio` billionths and clip the result to the range of a
/// sample.
pub fn scale_sample(x: i64, ratio: u64) -> (r: i64)
    ensures
        r == clip(scale(x as int, ratio as nat)),
{
    let size: u64 = magnitude(x);
    assert(size * ratio <= 0x8000_0000_0000_0000 * 0xffff_ffff_ffff_ffff) by (nonlinear_arith)
        requires
            size <= 0x8000_0000_0000_0000,
            ratio <= 0xffff_ffff_ffff_ffff,
    ;
    let scaled: u128 = (size as u128) * (ratio as u128) / (ONE as u128);
    let held: i64 = if scaled > SAMPLE_MAX as u128 {
        SAMPLE_MAX
    } else {
        scaled as i64
    };
    if x >= 0 {
        held
    } else {
        -held
    }
}

/// Add two samples and clip the sum to the range of a sample.
pub fn add_clipped(a: i64, b: i64) -> (r: i64)
    ensures
        r == clip(a + b),
{
    let sum: i128 = a as i128 + b as i128;
    if sum > SAMPLE_MAX as i128 {
        SAMPLE_MAX
    } else if sum < -(SAMPLE_MAX as i128) {
        -SAMPLE_MAX
    } else {
        sum as i64
    }
}

} // verus!
