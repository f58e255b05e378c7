//! One voice of polyphony: an oscillator and an envelope bound to a note.

use crate::envelopes::{
    env_fresh, env_output, env_shape, env_step, lemma_step_preserves_wf, ADSREnvelope, EnvStage,
    EnvState,
};
use crate::oscillators::{
    lemma_sine_wave_shape, osc_advance, osc_fresh, phase_step, sine_wave, OscState, SineOsc,
};
use crate::utils::{
    clip, lemma_scale_bounded, lemma_scale_by_gain, midi_freq, midi_to_freq, scale, scale_sample,
    ONE, SAMPLE_MAX,
};
use vstd::arithmetic::div_mod::lemma_mod_bound;
use vstd::prelude::*;

verus! {

/// The state of a voice as mathematical values.
pub struct VoiceState {
    pub osc: OscState,
    pub env: EnvState,
    /// The note last assigned to the voice, if any.
    pub note: Option<u8>,
    /// Velocity of that note, a ratio in billionths.
    pub velocity: nat,
}

impl VoiceState {
    /// Oscillator and envelope are well formed and the velocity is a ratio of
    /// at most 1.
    pub open spec fn wf(self) -> bool {
        &&& self.osc.wf()
        &&& self.env.wf()
        &&& self.velocity <= ONE
    }

    /// A voice sounds while its envelope is active, and is free otherwise.
    pub open spec fn is_active(self) -> bool {
        self.env.is_active()
    }
}

/// A free voice with no note.
pub open spec fn voice_fresh(sample_rate: nat) -> VoiceState {
    VoiceState {
        osc: osc_fresh(sample_rate),
        env: env_fresh(sample_rate),
        note: None,
        velocity: 0,
    }
}

/// The voice with a fresh oscillator and a fresh envelope for another sample
/// rate; note and velocity stay.
pub open spec fn voice_retune(v: VoiceState, sample_rate: nat) -> VoiceState {
    VoiceState { osc: osc_fresh(sample_rate), env: env_fresh(sample_rate), ..v }
}

/// The voice with new envelope times and a new sustain level.
pub open spec fn voice_shape(
    v: VoiceState,
    attack: nat,
    decay: nat,
    sustain: nat,
    release: nat,
) -> VoiceState {
    VoiceState { env: env_shape(v.env, attack, decay, sustain, release), ..v }
}

/// The voice after it was given a note: the oscillator is tuned to the note
/// and starts a new turn, and the envelope attacks from its current level.
pub open spec fn voice_trigger(v: VoiceState, note: u8, velocity: nat) -> VoiceState {
    VoiceState {
        osc: OscState { phase: 0, frequency: midi_freq(note as nat), ..v.osc },
        env: EnvState { stage: EnvStage::Attack, ..v.env },
        note: Some(note),
        velocity,
    }
}

/// The voice after its note was let go: the envelope releases.
pub open spec fn voice_release(v: VoiceState) -> VoiceState {
    VoiceState { env: EnvState { stage: EnvStage::Release, ..v.env }, ..v }
}

/// What the voice adds to the mix for one frame: the oscillator's sample
/// scaled by the envelope, the velocity and the gain in turn, clipped to the
/// range of a sample. A free voice adds nothing.
pub open spec fn voice_sample(v: VoiceState, gain: nat) -> int {
    if v.is_active() {
        clip(scale(scale(scale(sine_wave(v.osc.phase), env_output(v.env)), v.velocity), gain))
    } else {
        0
    }
}

/// The voice one frame later: a sounding voice advances its oscillator and
/// its envelope by one sample each, a free voice stays as it is.
pub open spec fn voice_advance(v: VoiceState) -> VoiceState {
    if v.is_active() {
        VoiceState { osc: osc_advance(v.osc), env: env_step(v.env), ..v }
    } else {
        v
    }
}

/// A voice: an oscillator, an envelope, and the note that it plays.
#[derive(Clone, Copy, Debug)]
pub struct Voice {
    osc: SineOsc,
    env: ADSREnvelope,
    note: Option<u8>,
    velocity: u64,
}

impl View for Voice {
    type V = VoiceState;

    closed spec fn view(&self) -> VoiceState {
        VoiceState {
            osc: self.osc@,
            env: self.env@,
            note: self.note,
            velocity: self.velocity as nat,
        }
    }
}

/// A voice never adds more than the gain to the mix, in either direction, nor
/// more than a sample can hold; a frame keeps it well formed, and leaves a
/// free voice silent and untouched.
pub proof fn lemma_voice_sample_bounded(v: VoiceState, gain: nat)
    requires
        v.wf(),
    ensures
        -(gain as int) <= voice_sample(v, gain) <= gain,
        -SAMPLE_MAX <= voice_sample(v, gain) <= SAMPLE_MAX,
        voice_advance(v).wf(),
        !v.is_active() ==> voice_sample(v, gain) == 0 && voice_advance(v) == v,
{
    if v.is_active() {
        lemma_sine_wave_shape(v.osc.phase);
        lemma_step_preserves_wf(v.env);
        let a = scale(sine_wave(v.osc.phase), env_output(v.env));
        lemma_scale_bounded(sine_wave(v.osc.phase), env_output(v.env), ONE as nat);
        let b = scale(a, v.velocity);
        lemma_scale_bounded(a, v.velocity, ONE as nat);
        lemma_scale_by_gain(b, gain);
        lemma_mod_bound(
            (v.osc.phase + phase_step(v.osc.frequency, v.osc.sample_rate)) as int,
            ONE as int,
        );
    }
}

impl Voice {
    /// A free voice with no note, for the given sample rate.
    pub fn new(sample_rate: u32) -> (voice: Voice)
        ensures
            voice@ == voice_fresh(sample_rate as nat),
            voice@.wf(),
            !voice@.is_active(),
    {
        Voice {
            osc: SineOsc::new(sample_rate),
            env: ADSREnvelope::new(sample_rate),
            note: None,
            velocity: 0,
        }
    }

    /// Replace oscillator and envelope by fresh ones for a new sample rate;
    /// note and velocity stay.
    pub fn set_sample_rate(&mut self, sample_rate: u32)
        ensures
            final(self)@ == voice_retune(old(self)@, sample_rate as nat),
    {
        self.osc = SineOsc::new(sample_rate);
        self.env = ADSREnvelope::new(sample_rate);
    }

    /// Set the envelope's attack, decay and release times, in microseconds,
    /// and its sustain level, a ratio of at most 1. The note in progress goes
    /// on from its stage and level.
    pub fn set_envelope(&mut self, attack: u32, decay: u32, sustain: u64, release: u32)
        requires
            sustain <= ONE,
        ensures
            final(self)@ == voice_shape(
                old(self)@,
                attack as nat,
                decay as nat,
                sustain as nat,
                release as nat,
            ),
            old(self)@.wf() ==> final(self)@.wf(),
    {
        self.env.set_attack(attack);
        self.env.set_decay(decay);
        self.env.set_sustain(sustain);
        self.env.set_release(release);
    }

    /// Give the voice a note to play.
    pub fn trigger(&mut self, note: u8, velocity: u64)
        requires
            old(self)@.wf(),
            velocity <= ONE,
        ensures
            final(self)@ == voice_trigger(old(self)@, note, velocity as nat),
            final(self)@.wf(),
            final(self)@.is_active(),
    {
        self.note = Some(note);
        self.velocity = velocity;
        self.osc.set_frequency(midi_to_freq(note));
        self.osc.reset();
        self.env.note_on();
    }

    /// Let the voice's note go.
    pub fn release(&mut self)
        requires
            old(self)@.wf(),
        ensures
            final(self)@ == voice_release(old(self)@),
            final(self)@.wf(),
    {
        self.env.note_off();
    }

    /// Render one frame of this voice: its contribution to the mix. A sounding
    /// voice advances by one sample, a free voice stays untouched.
    pub fn render(&mut self, gain: u64) -> (sample: i64)
        requires
            old(self)@.wf(),
        ensures
            sample == voice_sample(old(self)@, gain as nat),
            final(self)@ == voice_advance(old(self)@),
            final(self)@.wf(),
            -(gain as int) <= sample <= gain,
            -SAMPLE_MAX <= sample <= SAMPLE_MAX,
    {
        proof {
            lemma_voice_sample_bounded(self@, gain as nat);
        }
        if self.env.is_active() {
            let osc_sample: i64 = self.osc.next_sample();
            let env_sample: u64 = self.env.next_sample();
            proof {
                let shaped = scale(osc_sample as int, env_sample as nat);
                lemma_scale_bounded(osc_sample as int, env_sample as nat, ONE as nat);
                lemma_scale_bounded(shaped, self.velocity as nat, ONE as nat);
            }
            let shaped: i64 = scale_sample(osc_sample, env_sample);
            let struck: i64 = scale_sample(shaped, self.velocity);
            scale_sample(struck, gain)
        } else {
            0
        }
    }

    /// Whether the voice sounds.
    pub fn is_active(&self) -> (active: bool)
        ensures
            active == self@.is_active(),
    {
        self.env.is_active()
    }

    /// The note last assigned to the voice, if any.
    pub fn note(&self) -> (note: Option<u8>)
        ensures
            note == self@.note,
    {
        self.note
    }

    /// The velocity of the voice's note, in billionths.
    pub fn velocity(&self) -> (velocity: u64)
        ensures
            velocity == self@.velocity,
    {
        self.velocity
    }

    /// The voice's oscillator.
    pub fn osc(&self) -> (osc: &SineOsc)
        ensures
            osc@ == self@.osc,
    {
        &self.osc
    }

    /// The voice's envelope.
    pub fn env(&self) -> (env: &ADSREnvelope)
        ensures
            env@ == self@.env,
    {
        &self.env
    }
}

} // verus!
