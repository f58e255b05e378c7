//! The voice pool and the render loop.
//!
//! A fixed number of voices is shared among the notes. A new note takes the
//! first free voice; when none is free it takes over the voice under a cursor
//! that then moves on by one, round robin.

use crate::utils::{add_clipped, clip, ONE, SAMPLE_MAX};
use crate::voice::{
    lemma_voice_sample_bounded, voice_advance, voice_fresh, voice_release, voice_retune,
    voice_sample, voice_shape, voice_trigger, Voice, VoiceState,
};
use vstd::arithmetic::div_mod::{lemma_fundamental_div_mod_converse, lemma_mod_bound};
use vstd::prelude::*;

verus! {

/// The number of voices of the default synthesiser.
pub const MAX_VOICES: usize = 16;

/// The sample rate of the default synthesiser, in hertz.
pub const DEFAULT_SAMPLE_RATE: u32 = 44_100;

/// A note event, tagged with the frame of the buffer at which it takes effect.
#[derive(Clone, Copy, Debug, PartialEq, Eq, Structural)]
pub enum NoteEvent {
    /// A key went down; `velocity` is a ratio in billionths.
    NoteOn { timing: u32, note: u8, velocity: u64 },
    /// A key went up.
    NoteOff { timing: u32, note: u8 },
    /// Any other event: it is taken from the queue and has no effect.
    Other { timing: u32 },
}

impl NoteEvent {
    /// The frame at which the event takes effect.
    pub open spec fn frame(self) -> nat {
        match self {
            NoteEvent::NoteOn { timing, .. } => timing as nat,
            NoteEvent::NoteOff { timing, .. } => timing as nat,
            NoteEvent::Other { timing } => timing as nat,
        }
    }

    /// A velocity is a ratio of at most 1.
    pub open spec fn wf(self) -> bool {
        self matches NoteEvent::NoteOn { velocity, .. } ==> velocity <= ONE
    }

    /// The frame at which the event takes effect.
    pub fn timing(&self) -> (timing: u32)
        ensures
            timing == self.frame(),
    {
        match self {
            NoteEvent::NoteOn { timing, .. } => *timing,
            NoteEvent::NoteOff { timing, .. } => *timing,
            NoteEvent::Other { timing } => *timing,
        }
    }
}

/// The state of a synthesiser as mathematical values.
pub struct SynthState {
    pub voices: Seq<VoiceState>,
    /// The cursor: the voice that the next steal takes over.
    pub next_voice: nat,
}

impl SynthState {
    /// There is at least one voice, every voice is well formed, and the cursor
    /// points at a voice.
    pub open spec fn wf(self) -> bool {
        &&& self.next_voice < self.voices.len()
        &&& forall|i: int| 0 <= i < self.voices.len() ==> (#[trigger] self.voices[i]).wf()
    }

    /// No voice sounds.
    pub open spec fn is_silent(self) -> bool {
        forall|i: int| 0 <= i < self.voices.len() ==> !(#[trigger] self.voices[i]).is_active()
    }

    /// Every voice sounds.
    pub open spec fn is_full(self) -> bool {
        forall|i: int| 0 <= i < self.voices.len() ==> (#[trigger] self.voices[i]).is_active()
    }
}

/// A synthesiser of `capacity` free voices.
pub open spec fn synth_fresh(capacity: nat, sample_rate: nat) -> SynthState {
    SynthState { voices: Seq::new(capacity, |i: int| voice_fresh(sample_rate)), next_voice: 0 }
}

/// The synthesiser with every voice made ready for another sample rate.
pub open spec fn synth_retune(s: SynthState, sample_rate: nat) -> SynthState {
    SynthState {
        voices: Seq::new(s.voices.len(), |i: int| voice_retune(s.voices[i], sample_rate)),
        ..s
    }
}

/// The synthesiser with new envelope times and a new sustain level for every
/// voice.
pub open spec fn synth_shape(
    s: SynthState,
    attack: nat,
    decay: nat,
    sustain: nat,
    release: nat,
) -> SynthState {
    SynthState {
        voices: Seq::new(
            s.voices.len(),
            |i: int| voice_shape(s.voices[i], attack, decay, sustain, release),
        ),
        ..s
    }
}

/// Index of the first free voice at or after `from`, or the number of voices
/// if there is none.
pub open spec fn first_free(voices: Seq<VoiceState>, from: nat) -> nat
    decreases voices.len() - from,
{
    if from >= voices.len() {
        voices.len()
    } else if !voices[from as int].is_active() {
        from
    } else {
        first_free(voices, from + 1)
    }
}

/// The voice that a new note gets: the first free one, or else the one under
/// the cursor.
pub open spec fn chosen_voice(s: SynthState) -> nat {
    let free = first_free(s.voices, 0);
    if free < s.voices.len() {
        free
    } else {
        s.next_voice
    }
}

/// The synthesiser after a note-on: the chosen voice is given the note, and
/// the cursor moves on by one, round robin, if the voice had to be stolen.
pub open spec fn synth_note_on(s: SynthState, note: u8, velocity: nat) -> SynthState {
    let chosen = chosen_voice(s) as int;
    SynthState {
        voices: s.voices.update(chosen, voice_trigger(s.voices[chosen], note, velocity)),
        next_voice: if first_free(s.voices, 0) < s.voices.len() {
            s.next_voice
        } else {
            (s.next_voice + 1) % s.voices.len()
        },
    }
}

/// The synthesiser after a note-off: every voice that holds the note
/// releases, the others stay as they are.
pub open spec fn synth_note_off(s: SynthState, note: u8) -> SynthState {
    SynthState {
        voices: Seq::new(
            s.voices.len(),
            |i: int|
                if s.voices[i].note == Some(note) {
                    voice_release(s.voices[i])
                } else {
                    s.voices[i]
                },
        ),
        ..s
    }
}

/// The synthesiser after one event.
pub open spec fn synth_dispatch(s: SynthState, event: NoteEvent) -> SynthState {
    match event {
        NoteEvent::NoteOn { note, velocity, .. } => synth_note_on(s, note, velocity as nat),
        NoteEvent::NoteOff { note, .. } => synth_note_off(s, note),
        NoteEvent::Other { .. } => s,
    }
}

/// How far a render has come: the synthesiser's state and the number of events
/// taken from the front of the queue.
pub struct Progress {
    pub synth: SynthState,
    pub consumed: nat,
}

/// Dispatch, in their order, the events at the front of the queue (from
/// `pos` on) that are due at `frame`, and stop at the first that is not.
pub open spec fn synth_drain(
    s: SynthState,
    events: Seq<NoteEvent>,
    pos: nat,
    frame: nat,
) -> Progress
    decreases events.len() - pos,
{
    if pos < events.len() && events[pos as int].frame() == frame {
        synth_drain(synth_dispatch(s, events[pos as int]), events, pos + 1, frame)
    } else {
        Progress { synth: s, consumed: pos }
    }
}

/// The mix of the first `n` voices for one frame: their samples added up in
/// index order, the running sum clipped to the range of a sample.
pub open spec fn mix(voices: Seq<VoiceState>, gain: nat, n: nat) -> int
    decreases n,
{
    if n == 0 {
        0
    } else {
        clip(mix(voices, gain, (n - 1) as nat) + voice_sample(voices[n - 1], gain))
    }
}

/// The synthesiser one frame later: every sounding voice has advanced by one
/// sample.
pub open spec fn synth_advance(s: SynthState) -> SynthState {
    SynthState { voices: Seq::new(s.voices.len(), |i: int| voice_advance(s.voices[i])), ..s }
}

/// One frame of a render: the events due at `frame` are dispatched, then the
/// voices advance.
pub open spec fn render_frame(p: Progress, events: Seq<NoteEvent>, frame: nat) -> Progress {
    let due = synth_drain(p.synth, events, p.consumed, frame);
    Progress { synth: synth_advance(due.synth), consumed: due.consumed }
}

/// The render after its first `frames` frames, from frame 0 and the front of
/// the queue.
pub open spec fn render(s: SynthState, events: Seq<NoteEvent>, frames: nat) -> Progress
    decreases frames,
{
    if frames == 0 {
        Progress { synth: s, consumed: 0 }
    } else {
        render_frame(render(s, events, (frames - 1) as nat), events, (frames - 1) as nat)
    }
}

/// The sample that a render puts out at `frame`: the mix of all voices once
/// the events due at that frame are dispatched.
pub open spec fn render_output(
    s: SynthState,
    events: Seq<NoteEvent>,
    gain: nat,
    frame: nat,
) -> int {
    let before = render(s, events, frame);
    let due = synth_drain(before.synth, events, before.consumed, frame);
    mix(due.synth.voices, gain, due.synth.voices.len())
}

/// The events come in the order of their frames.
pub open spec fn events_sorted(events: Seq<NoteEvent>) -> bool {
    forall|i: int, j: int|
        0 <= i <= j < events.len() ==> (#[trigger] events[i]).frame()
            <= (#[trigger] events[j]).frame()
}

/// Index of the first event at or after `from` that is due at `frame` or
/// later, or the number of events if there is none.
pub open spec fn first_due_from(events: Seq<NoteEvent>, frame: nat, from: nat) -> nat
    decreases events.len() - from,
{
    if from >= events.len() {
        events.len()
    } else if events[from as int].frame() >= frame {
        from
    } else {
        first_due_from(events, frame, from + 1)
    }
}

/// No voice holds `note`.
pub open spec fn note_is_unheld(s: SynthState, note: u8) -> bool {
    forall|i: int| 0 <= i < s.voices.len() ==> (#[trigger] s.voices[i]).note != Some(note)
}

/// No event of the queue starts `note`.
pub open spec fn note_is_not_started(events: Seq<NoteEvent>, note: u8) -> bool {
    forall|i: int|
        0 <= i < events.len() ==> !((#[trigger] events[i]) matches NoteEvent::NoteOn {
            note: started,
            ..
        } && started == note)
}

/// How far two renders have come of which the second has one more event in
/// its queue, at index `at`: the second is level with the first before that
/// event and one ahead after it.
pub open spec fn level_with(first: nat, second: nat, at: nat) -> bool {
    (second == first && first <= at) || (second == first + 1 && first >= at)
}

/// The synthesiser after the first `n` of a series of note-ons, each a note
/// and its velocity.
pub open spec fn synth_note_ons(s: SynthState, notes: Seq<(u8, nat)>, n: nat) -> SynthState
    decreases n,
{
    if n == 0 {
        s
    } else {
        synth_note_on(synth_note_ons(s, notes, (n - 1) as nat), notes[n - 1].0, notes[n - 1].1)
    }
}

/// A polyphonic synthesiser: a pool of voices and the cursor for stealing.
pub struct SineSynth {
    voices: Vec<Voice>,
    next_voice: usize,
}

impl View for SineSynth {
    type V = SynthState;

    closed spec fn view(&self) -> SynthState {
        SynthState {
            voices: self.voices@.map_values(|v: Voice| v@),
            next_voice: self.next_voice as nat,
        }
    }
}

/// `first_free` finds a free voice with only sounding voices before it, or
/// finds none where every voice from `from` on sounds.
pub proof fn lemma_first_free(voices: Seq<VoiceState>, from: nat)
    requires
        from <= voices.len(),
    ensures
        from <= first_free(voices, from) <= voices.len(),
        first_free(voices, from) < voices.len() ==> !voices[first_free(voices, from) as int]
            .is_active(),
        forall|j: int| from <= j < first_free(voices, from) ==> (#[trigger] voices[j]).is_active(),
    decreases voices.len() - from,
{
    if from < voices.len() && voices[from as int].is_active() {
        lemma_first_free(voices, from + 1);
    }
}

/// Note events keep a well-formed synthesiser well formed and its number of
/// voices as it is.
pub proof fn lemma_dispatch_preserves_wf(s: SynthState, event: NoteEvent)
    requires
        s.wf(),
        event.wf(),
    ensures
        synth_dispatch(s, event).wf(),
        synth_dispatch(s, event).voices.len() == s.voices.len(),
{
    lemma_first_free(s.voices, 0);
    match event {
        NoteEvent::NoteOn { note, velocity, .. } => {
            let chosen = chosen_voice(s) as int;
            assert(s.voices[chosen].wf());
            lemma_mod_bound((s.next_voice + 1) as int, s.voices.len() as int);
        },
        NoteEvent::NoteOff { note, .. } => {
            let after = synth_note_off(s, note);
            assert forall|i: int| 0 <= i < after.voices.len() implies
                (#[trigger] after.voices[i]).wf()
            by {
                assert(s.voices[i].wf());
            }
        },
        NoteEvent::Other { .. } => {},
    }
}

/// A note-on into a full pool takes over exactly the voice under the cursor:
/// every other voice stays as it is, and the cursor moves on by one, round
/// robin.
pub proof fn lemma_note_on_full_pool_steals(s: SynthState, note: u8, velocity: nat)
    requires
        s.wf(),
        s.is_full(),
    ensures
        synth_note_on(s, note, velocity).voices.len() == s.voices.len(),
        synth_note_on(s, note, velocity).voices[s.next_voice as int] == voice_trigger(
            s.voices[s.next_voice as int],
            note,
            velocity,
        ),
        forall|i: int|
            0 <= i < s.voices.len() && i != s.next_voice ==> synth_note_on(
                s,
                note,
                velocity,
            ).voices[i] == s.voices[i],
        synth_note_on(s, note, velocity).next_voice == (s.next_voice + 1) % s.voices.len(),
        synth_note_on(s, note, velocity).is_full(),
{
    lemma_first_free(s.voices, 0);
    let free = first_free(s.voices, 0);
    if free < s.voices.len() {
        assert(s.voices[free as int].is_active());
    }
    let after = synth_note_on(s, note, velocity);
    assert forall|i: int| 0 <= i < after.voices.len() implies
        (#[trigger] after.voices[i]).is_active()
    by {
        assert(s.voices[i].is_active());
    }
}

/// A note-on into a pool with a free voice takes the first free voice and
/// leaves every other voice and the cursor as they are.
pub proof fn lemma_note_on_takes_first_free(s: SynthState, note: u8, velocity: nat, free: int)
    requires
        s.wf(),
        0 <= free < s.voices.len(),
        !s.voices[free].is_active(),
        forall|j: int| 0 <= j < free ==> (#[trigger] s.voices[j]).is_active(),
    ensures
        synth_note_on(s, note, velocity).voices == s.voices.update(
            free,
            voice_trigger(s.voices[free], note, velocity),
        ),
        synth_note_on(s, note, velocity).next_voice == s.next_voice,
{
    lemma_first_free(s.voices, 0);
    let found = first_free(s.voices, 0) as int;
    if found < free {
        assert(s.voices[found].is_active());
    }
    if found > free {
        assert(s.voices[free].is_active());
    }
}

/// A note-off releases every voice that holds the note, within the same
/// dispatch, and touches no voice that holds another note or none.
pub proof fn lemma_note_off_releases_matching(s: SynthState, note: u8, i: int)
    requires
        0 <= i < s.voices.len(),
    ensures
        synth_note_off(s, note).voices.len() == s.voices.len(),
        synth_note_off(s, note).next_voice == s.next_voice,
        s.voices[i].note == Some(note) ==> synth_note_off(s, note).voices[i] == voice_release(
            s.voices[i],
        ) && synth_note_off(s, note).voices[i].env.stage == crate::envelopes::EnvStage::Release,
        s.voices[i].note != Some(note) ==> synth_note_off(s, note).voices[i] == s.voices[i],
{
}

/// All events in the queue are well formed.
pub open spec fn events_wf(events: Seq<NoteEvent>) -> bool {
    forall|i: int| 0 <= i < events.len() ==> (#[trigger] events[i]).wf()
}

/// Draining the queue keeps the synthesiser well formed and takes events from
/// the front only.
pub proof fn lemma_drain_preserves_wf(s: SynthState, events: Seq<NoteEvent>, pos: nat, frame: nat)
    requires
        s.wf(),
        events_wf(events),
        pos <= events.len(),
    ensures
        synth_drain(s, events, pos, frame).synth.wf(),
        synth_drain(s, events, pos, frame).synth.voices.len() == s.voices.len(),
        pos <= synth_drain(s, events, pos, frame).consumed <= events.len(),
    decreases events.len() - pos,
{
    if pos < events.len() && events[pos as int].frame() == frame {
        lemma_dispatch_preserves_wf(s, events[pos as int]);
        lemma_drain_preserves_wf(synth_dispatch(s, events[pos as int]), events, pos + 1, frame);
    }
}

/// Advancing by a frame keeps the synthesiser well formed, and leaves a silent
/// one as it is.
pub proof fn lemma_advance_preserves_wf(s: SynthState)
    requires
        s.wf(),
    ensures
        synth_advance(s).wf(),
        synth_advance(s).voices.len() == s.voices.len(),
        s.is_silent() ==> synth_advance(s) == s,
{
    let after = synth_advance(s);
    assert forall|i: int| 0 <= i < after.voices.len() implies (#[trigger] after.voices[i]).wf() by {
        lemma_voice_sample_bounded(s.voices[i], 0);
    }
    if s.is_silent() {
        assert forall|i: int| 0 <= i < s.voices.len() implies after.voices[i] == s.voices[i] by {
            assert(!s.voices[i].is_active());
        }
        assert(after.voices =~= s.voices);
    }
}

/// A render keeps the synthesiser well formed.
pub proof fn lemma_render_preserves_wf(s: SynthState, events: Seq<NoteEvent>, frames: nat)
    requires
        s.wf(),
        events_wf(events),
    ensures
        render(s, events, frames).synth.wf(),
        render(s, events, frames).synth.voices.len() == s.voices.len(),
        render(s, events, frames).consumed <= events.len(),
    decreases frames,
{
    if frames > 0 {
        let before = render(s, events, (frames - 1) as nat);
        lemma_render_preserves_wf(s, events, (frames - 1) as nat);
        lemma_drain_preserves_wf(before.synth, events, before.consumed, (frames - 1) as nat);
        lemma_advance_preserves_wf(
            synth_drain(before.synth, events, before.consumed, (frames - 1) as nat).synth,
        );
    }
}

/// The mix of `n` voices stays within the range of a sample, and within `n`
/// times the gain.
pub proof fn lemma_mix_bounded(voices: Seq<VoiceState>, gain: nat, n: nat)
    requires
        n <= voices.len(),
        forall|i: int| 0 <= i < voices.len() ==> (#[trigger] voices[i]).wf(),
    ensures
        -SAMPLE_MAX <= mix(voices, gain, n) <= SAMPLE_MAX,
        -(n * gain) <= mix(voices, gain, n) <= n * gain,
    decreases n,
{
    if n > 0 {
        lemma_mix_bounded(voices, gain, (n - 1) as nat);
        lemma_voice_sample_bounded(voices[n - 1], gain);
        assert(n * gain == (n - 1) * gain + gain) by (nonlinear_arith);
    }
}

/// Every sample that a render puts out lies within the range of a sample,
/// and within the gain times the number of voices.
pub proof fn lemma_render_output_bounded(
    s: SynthState,
    events: Seq<NoteEvent>,
    gain: nat,
    frame: nat,
)
    requires
        s.wf(),
        events_wf(events),
    ensures
        -SAMPLE_MAX <= render_output(s, events, gain, frame) <= SAMPLE_MAX,
        -(s.voices.len() * gain) <= render_output(s, events, gain, frame) <= s.voices.len() * gain,
{
    let before = render(s, events, frame);
    lemma_render_preserves_wf(s, events, frame);
    lemma_drain_preserves_wf(before.synth, events, before.consumed, frame);
    let due = synth_drain(before.synth, events, before.consumed, frame);
    lemma_mix_bounded(due.synth.voices, gain, due.synth.voices.len());
}

/// Voices that do not sound mix to silence.
pub proof fn lemma_mix_of_silence(voices: Seq<VoiceState>, gain: nat, n: nat)
    requires
        n <= voices.len(),
        forall|i: int| 0 <= i < voices.len() ==> !(#[trigger] voices[i]).is_active(),
    ensures
        mix(voices, gain, n) == 0,
    decreases n,
{
    if n > 0 {
        lemma_mix_of_silence(voices, gain, (n - 1) as nat);
        assert(!voices[n - 1].is_active());
    }
}

/// `first_due_from` finds an event due at `frame` or later with only earlier
/// events between `from` and it, or finds none where all from `from` on are
/// earlier.
pub proof fn lemma_first_due_from(events: Seq<NoteEvent>, frame: nat, from: nat)
    requires
        from <= events.len(),
    ensures
        from <= first_due_from(events, frame, from) <= events.len(),
        first_due_from(events, frame, from) < events.len() ==> events[first_due_from(
            events,
            frame,
            from,
        ) as int].frame() >= frame,
        forall|i: int|
            from <= i < first_due_from(events, frame, from) ==> (#[trigger] events[i]).frame()
                < frame,
    decreases events.len() - from,
{
    if from < events.len() && events[from as int].frame() < frame {
        lemma_first_due_from(events, frame, from + 1);
    }
}

/// The search for the first event due at `frame` or later may skip events
/// that are due earlier.
pub proof fn lemma_first_due_skips_earlier(events: Seq<NoteEvent>, frame: nat, from: nat, to: nat)
    requires
        from <= to <= events.len(),
        forall|i: int| from <= i < to ==> (#[trigger] events[i]).frame() < frame,
    ensures
        first_due_from(events, frame, from) == first_due_from(events, frame, to),
    decreases to - from,
{
    if from < to {
        assert(events[from as int].frame() < frame);
        lemma_first_due_skips_earlier(events, frame, from + 1, to);
    }
}

/// Draining a queue in frame order at `frame`, from an event that is not due
/// before `frame`, takes exactly the events due at `frame`.
pub proof fn lemma_drain_takes_all_due(s: SynthState, events: Seq<NoteEvent>, pos: nat, frame: nat)
    requires
        events_sorted(events),
        pos <= events.len(),
        pos < events.len() ==> events[pos as int].frame() >= frame,
    ensures
        synth_drain(s, events, pos, frame).consumed == first_due_from(events, frame + 1, pos),
    decreases events.len() - pos,
{
    if pos < events.len() && events[pos as int].frame() == frame {
        if pos + 1 < events.len() {
            assert(events[pos as int].frame() <= events[pos as int + 1].frame());
        }
        lemma_drain_takes_all_due(synth_dispatch(s, events[pos as int]), events, pos + 1, frame);
    }
}

/// A render of `frames` frames takes from a queue in frame order exactly the
/// events due before frame `frames`: each of them was dispatched at its frame,
/// and none of the others has been.
pub proof fn lemma_render_takes_all_due(s: SynthState, events: Seq<NoteEvent>, frames: nat)
    requires
        events_sorted(events),
    ensures
        render(s, events, frames).consumed == first_due_from(events, frames, 0),
        render(s, events, frames).consumed <= events.len(),
        (forall|i: int| 0 <= i < events.len() ==> (#[trigger] events[i]).frame() < frames)
            ==> render(s, events, frames).consumed == events.len(),
    decreases frames,
{
    lemma_first_due_from(events, frames, 0);
    if frames > 0 {
        let frame = (frames - 1) as nat;
        let before = render(s, events, frame);
        lemma_render_takes_all_due(s, events, frame);
        lemma_first_due_from(events, frame, 0);
        lemma_drain_takes_all_due(before.synth, events, before.consumed, frame);
        assert forall|i: int| 0 <= i < before.consumed implies (#[trigger] events[i]).frame()
            < frames by {}
        lemma_first_due_skips_earlier(events, frames, 0, before.consumed);
    }
    let taken = first_due_from(events, frames, 0);
    if taken < events.len() {
        assert(events[taken as int].frame() >= frames);
    }
}

/// A note-off for a note that no voice holds changes nothing.
pub proof fn lemma_note_off_unheld_is_noop(s: SynthState, note: u8)
    requires
        note_is_unheld(s, note),
    ensures
        synth_note_off(s, note) == s,
{
    assert(synth_note_off(s, note).voices =~= s.voices);
}

/// An event that does not start `note` leaves it unheld, and so does a frame.
pub proof fn lemma_unheld_note_stays_unheld(s: SynthState, event: NoteEvent, note: u8)
    requires
        s.wf(),
        event.wf(),
        note_is_unheld(s, note),
        !(event matches NoteEvent::NoteOn { note: started, .. } && started == note),
    ensures
        note_is_unheld(synth_dispatch(s, event), note),
        note_is_unheld(synth_advance(s), note),
{
    lemma_first_free(s.voices, 0);
    let after = synth_dispatch(s, event);
    assert forall|i: int| 0 <= i < after.voices.len() implies
        (#[trigger] after.voices[i]).note != Some(note)
    by {
        assert(s.voices[i].note != Some(note));
    }
    let later = synth_advance(s);
    assert forall|i: int| 0 <= i < later.voices.len() implies
        (#[trigger] later.voices[i]).note != Some(note)
    by {
        assert(s.voices[i].note != Some(note));
    }
}

/// Draining two queues that differ by one note-off for a note that is never
/// held leads to the same state; the longer queue is then level with the
/// other.
proof fn lemma_drain_past_unheld_note_off(
    s: SynthState,
    events: Seq<NoteEvent>,
    at: nat,
    timing: u32,
    note: u8,
    pos: nat,
    pos2: nat,
    frame: nat,
)
    requires
        s.wf(),
        events_wf(events),
        at <= events.len(),
        events_sorted(events.insert(at as int, NoteEvent::NoteOff { timing, note })),
        note_is_unheld(s, note),
        note_is_not_started(events, note),
        pos <= events.len(),
        level_with(pos, pos2, at),
        pos2 <= events.len() ==> events.insert(
            at as int,
            NoteEvent::NoteOff { timing, note },
        )[pos2 as int].frame() >= frame,
    ensures
        ({
            let longer = events.insert(at as int, NoteEvent::NoteOff { timing, note });
            let first = synth_drain(s, events, pos, frame);
            let second = synth_drain(s, longer, pos2, frame);
            &&& second.synth == first.synth
            &&& level_with(first.consumed, second.consumed, at)
            &&& first.consumed <= events.len()
            &&& first.synth.wf()
            &&& note_is_unheld(first.synth, note)
            &&& second.consumed <= events.len() ==> longer[second.consumed as int].frame() > frame
        }),
    decreases (events.len() - pos) + (events.len() + 1 - pos2),
{
    let off = NoteEvent::NoteOff { timing, note };
    let longer = events.insert(at as int, off);
    assert(longer.len() == events.len() + 1);
    assert(forall|j: int| 0 <= j < at ==> longer[j] == events[j]);
    assert(longer[at as int] == off);
    assert(forall|j: int| at < j <= events.len() ==> longer[j] == events[j - 1]);
    if pos2 <= events.len() && pos2 + 1 <= events.len() {
        assert(longer[pos2 as int].frame() <= longer[pos2 as int + 1].frame());
    }
    if pos2 == pos && pos == at {
        if off.frame() == frame {
            lemma_note_off_unheld_is_noop(s, note);
            lemma_drain_past_unheld_note_off(s, events, at, timing, note, pos, pos2 + 1, frame);
        }
    } else if pos < events.len() && events[pos as int].frame() == frame {
        let event = events[pos as int];
        assert(event.wf());
        lemma_dispatch_preserves_wf(s, event);
        lemma_unheld_note_stays_unheld(s, event, note);
        lemma_drain_past_unheld_note_off(
            synth_dispatch(s, event),
            events,
            at,
            timing,
            note,
            pos + 1,
            pos2 + 1,
            frame,
        );
    }
}

/// Two renders whose queues differ by one note-off for a note that is never
/// held are in the same state after every frame.
proof fn lemma_render_past_unheld_note_off(
    s: SynthState,
    events: Seq<NoteEvent>,
    at: nat,
    timing: u32,
    note: u8,
    frames: nat,
)
    requires
        s.wf(),
        events_wf(events),
        at <= events.len(),
        events_sorted(events.insert(at as int, NoteEvent::NoteOff { timing, note })),
        note_is_unheld(s, note),
        note_is_not_started(events, note),
    ensures
        ({
            let longer = events.insert(at as int, NoteEvent::NoteOff { timing, note });
            let first = render(s, events, frames);
            let second = render(s, longer, frames);
            &&& second.synth == first.synth
            &&& level_with(first.consumed, second.consumed, at)
            &&& first.consumed <= events.len()
            &&& first.synth.wf()
            &&& note_is_unheld(first.synth, note)
            &&& second.consumed <= events.len() ==> longer[second.consumed as int].frame()
                >= frames
        }),
    decreases frames,
{
    if frames > 0 {
        let frame = (frames - 1) as nat;
        let longer = events.insert(at as int, NoteEvent::NoteOff { timing, note });
        let first = render(s, events, frame);
        let second = render(s, longer, frame);
        lemma_render_past_unheld_note_off(s, events, at, timing, note, frame);
        lemma_drain_past_unheld_note_off(
            first.synth,
            events,
            at,
            timing,
            note,
            first.consumed,
            second.consumed,
            frame,
        );
        let due = synth_drain(first.synth, events, first.consumed, frame);
        lemma_advance_preserves_wf(due.synth);
        lemma_unheld_note_stays_unheld(due.synth, NoteEvent::Other { timing: 0 }, note);
    }
}

/// A note-off for a note that is never held is a silent no-op over a whole
/// render: put anywhere into a queue, in frame order, that starts no such note,
/// it changes neither the state that the render leads to nor any sample that
/// it puts out.
pub proof fn lemma_unheld_note_off_is_silent(
    s: SynthState,
    events: Seq<NoteEvent>,
    at: nat,
    timing: u32,
    note: u8,
    gain: nat,
    frames: nat,
)
    requires
        s.wf(),
        events_wf(events),
        at <= events.len(),
        events_sorted(events.insert(at as int, NoteEvent::NoteOff { timing, note })),
        note_is_unheld(s, note),
        note_is_not_started(events, note),
    ensures
        render(s, events.insert(at as int, NoteEvent::NoteOff { timing, note }), frames).synth
            == render(s, events, frames).synth,
        render_output(
            s,
            events.insert(at as int, NoteEvent::NoteOff { timing, note }),
            gain,
            frames,
        ) == render_output(s, events, gain, frames),
{
    let longer = events.insert(at as int, NoteEvent::NoteOff { timing, note });
    let first = render(s, events, frames);
    let second = render(s, longer, frames);
    lemma_render_past_unheld_note_off(s, events, at, timing, note, frames);
    lemma_drain_past_unheld_note_off(
        first.synth,
        events,
        at,
        timing,
        note,
        first.consumed,
        second.consumed,
        frames,
    );
}

/// Silence in, silence out: a render with no events on a synthesiser with no
/// sounding voice puts out zero at every frame, whatever the gain, and leaves
/// the synthesiser as it was.
pub proof fn lemma_silent_render(s: SynthState, gain: nat, frames: nat)
    requires
        s.wf(),
        s.is_silent(),
    ensures
        render(s, Seq::<NoteEvent>::empty(), frames) == (Progress { synth: s, consumed: 0 }),
        render_output(s, Seq::<NoteEvent>::empty(), gain, frames) == 0,
    decreases frames,
{
    let events = Seq::<NoteEvent>::empty();
    if frames > 0 {
        lemma_silent_render(s, gain, (frames - 1) as nat);
    }
    lemma_advance_preserves_wf(s);
    lemma_mix_of_silence(s.voices, gain, s.voices.len());
}

/// Note-ons into a silent pool fill it in index order: the first `n` voices
/// get the first `n` notes, the others stay free, and the cursor stays where it
/// was.
pub proof fn lemma_note_ons_fill_pool(s: SynthState, notes: Seq<(u8, nat)>, n: nat)
    requires
        s.wf(),
        s.is_silent(),
        n <= notes.len(),
        n <= s.voices.len(),
        forall|i: int| 0 <= i < notes.len() ==> (#[trigger] notes[i]).1 <= ONE,
    ensures
        synth_note_ons(s, notes, n).wf(),
        synth_note_ons(s, notes, n).voices.len() == s.voices.len(),
        synth_note_ons(s, notes, n).next_voice == s.next_voice,
        forall|i: int|
            0 <= i < n ==> (#[trigger] synth_note_ons(s, notes, n).voices[i]) == voice_trigger(
                s.voices[i],
                notes[i].0,
                notes[i].1,
            ),
        forall|i: int|
            n <= i < s.voices.len() ==> (#[trigger] synth_note_ons(s, notes, n).voices[i])
                == s.voices[i],
        n == s.voices.len() ==> synth_note_ons(s, notes, n).is_full(),
    decreases n,
{
    if n > 0 {
        let before = synth_note_ons(s, notes, (n - 1) as nat);
        lemma_note_ons_fill_pool(s, notes, (n - 1) as nat);
        assert(notes[n - 1].1 <= ONE);
        assert(!before.voices[n - 1].is_active()) by {
            assert(before.voices[n - 1] == s.voices[n - 1]);
            assert(!s.voices[n - 1].is_active());
        }
        assert forall|j: int| 0 <= j < n - 1 implies (#[trigger] before.voices[j]).is_active() by {
            assert(before.voices[j] == voice_trigger(s.voices[j], notes[j].0, notes[j].1));
        }
        lemma_note_on_takes_first_free(before, notes[n - 1].0, notes[n - 1].1, n - 1);
        lemma_dispatch_preserves_wf(
            before,
            NoteEvent::NoteOn { timing: 0, note: notes[n - 1].0, velocity: notes[n - 1].1 as u64 },
        );
        let after = synth_note_ons(s, notes, n);
        if n == s.voices.len() {
            assert forall|i: int| 0 <= i < after.voices.len() implies
                (#[trigger] after.voices[i]).is_active()
            by {
                assert(after.voices[i] == voice_trigger(s.voices[i], notes[i].0, notes[i].1));
            }
        }
    }
}

/// As many note-ons as a silent pool has voices, followed by one more: the
/// last one finds no free voice and takes over the voice under the cursor, and
/// no other; the cursor moves on by one, round robin.
pub proof fn lemma_one_note_too_many(s: SynthState, notes: Seq<(u8, nat)>)
    requires
        s.wf(),
        s.is_silent(),
        notes.len() == s.voices.len() + 1,
        forall|i: int| 0 <= i < notes.len() ==> (#[trigger] notes[i]).1 <= ONE,
    ensures
        synth_note_ons(s, notes, notes.len()).voices.len() == s.voices.len(),
        synth_note_ons(s, notes, notes.len()).is_full(),
        synth_note_ons(s, notes, notes.len()).next_voice == (s.next_voice + 1) % s.voices.len(),
        forall|i: int|
            0 <= i < s.voices.len() ==> (#[trigger] synth_note_ons(s, notes, notes.len()).voices[i])
                == if i == s.next_voice {
                voice_trigger(
                    synth_note_ons(s, notes, s.voices.len()).voices[i],
                    notes[s.voices.len() as int].0,
                    notes[s.voices.len() as int].1,
                )
            } else {
                synth_note_ons(s, notes, s.voices.len()).voices[i]
            },
{
    let n = s.voices.len();
    lemma_note_ons_fill_pool(s, notes, n);
    let last = notes[n as int];
    lemma_note_on_full_pool_steals(synth_note_ons(s, notes, n), last.0, last.1);
}

impl Default for SineSynth {
    /// Sixteen free voices at a sample rate of 44.1 kHz.
    fn default() -> (synth: SineSynth)
        ensures
            synth@ == synth_fresh(MAX_VOICES as nat, DEFAULT_SAMPLE_RATE as nat),
            synth@.wf(),
            synth@.is_silent(),
    {
        SineSynth::new(MAX_VOICES, DEFAULT_SAMPLE_RATE)
    }
}

impl SineSynth {
    /// A synthesiser of `capacity` free voices.
    pub fn new(capacity: usize, sample_rate: u32) -> (synth: SineSynth)
        requires
            capacity > 0,
        ensures
            synth@ == synth_fresh(capacity as nat, sample_rate as nat),
            synth@.wf(),
            synth@.is_silent(),
    {
        let mut voices: Vec<Voice> = Vec::new();
        let mut i: usize = 0;
        while i < capacity
            invariant
                i <= capacity,
                voices.len() == i,
                forall|j: int|
                    0 <= j < i ==> (#[trigger] voices[j])@ == voice_fresh(sample_rate as nat),
            decreases capacity - i,
        {
            voices.push(Voice::new(sample_rate));
            i = i + 1;
        }
        let synth = SineSynth { voices, next_voice: 0 };
        assert(synth@.voices =~= synth_fresh(capacity as nat, sample_rate as nat).voices);
        synth
    }

    /// The number of voices.
    pub fn capacity(&self) -> (capacity: usize)
        ensures
            capacity == self@.voices.len(),
    {
        self.voices.len()
    }

    /// The cursor: the voice that the next steal takes over.
    pub fn next_voice(&self) -> (cursor: usize)
        ensures
            cursor == self@.next_voice,
    {
        self.next_voice
    }

    /// The voice at `index`.
    pub fn voice(&self, index: usize) -> (voice: &Voice)
        requires
            index < self@.voices.len(),
        ensures
            voice@ == self@.voices[index as int],
    {
        &self.voices[index]
    }

    /// Make every voice ready for another sample rate: each gets a fresh
    /// oscillator and a fresh envelope, and keeps its note and velocity.
    pub fn initialize(&mut self, sample_rate: u32) -> (ready: bool)
        ensures
            ready,
            final(self)@ == synth_retune(old(self)@, sample_rate as nat),
            old(self)@.wf() ==> final(self)@.wf(),
            final(self)@.is_silent(),
    {
        let mut i: usize = 0;
        while i < self.voices.len()
            invariant
                i <= self.voices.len(),
                self.voices.len() == old(self).voices.len(),
                self.next_voice == old(self).next_voice,
                forall|j: int|
                    0 <= j < i ==> (#[trigger] self.voices[j])@ == voice_retune(
                        old(self).voices[j]@,
                        sample_rate as nat,
                    ),
                forall|j: int| i <= j < self.voices.len() ==> self.voices[j] == old(self).voices[j],
            decreases self.voices.len() - i,
        {
            self.voices[i].set_sample_rate(sample_rate);
            i = i + 1;
        }
        assert(self@.voices =~= synth_retune(old(self)@, sample_rate as nat).voices);
        true
    }

    /// Set every voice's envelope: attack, decay and release times in
    /// microseconds and the sustain level, a ratio of at most 1. Notes in
    /// progress go on from their stage and level.
    pub fn set_envelope(&mut self, attack: u32, decay: u32, sustain: u64, release: u32)
        requires
            sustain <= ONE,
        ensures
            final(self)@ == synth_shape(
                old(self)@,
                attack as nat,
                decay as nat,
                sustain as nat,
                release as nat,
            ),
            old(self)@.wf() ==> final(self)@.wf(),
    {
        let mut i: usize = 0;
        while i < self.voices.len()
            invariant
                i <= self.voices.len(),
                sustain <= ONE,
                self.voices.len() == old(self).voices.len(),
                self.next_voice == old(self).next_voice,
                forall|j: int|
                    0 <= j < i ==> (#[trigger] self.voices[j])@ == voice_shape(
                        old(self).voices[j]@,
                        attack as nat,
                        decay as nat,
                        sustain as nat,
                        release as nat,
                    ),
                forall|j: int| i <= j < self.voices.len() ==> self.voices[j] == old(self).voices[j],
            decreases self.voices.len() - i,
        {
            self.voices[i].set_envelope(attack, decay, sustain, release);
            i = i + 1;
        }
        proof {
            let shaped = synth_shape(
                old(self)@,
                attack as nat,
                decay as nat,
                sustain as nat,
                release as nat,
            );
            assert(self@.voices =~= shaped.voices);
            if old(self)@.wf() {
                assert forall|j: int| 0 <= j < shaped.voices.len() implies
                    (#[trigger] shaped.voices[j]).wf()
                by {
                    assert(old(self)@.voices[j].wf());
                }
            }
        }
    }

    /// The first free voice, if any.
    pub fn find_free_voice(&self) -> (found: Option<usize>)
        ensures
            match found {
                Some(i) => i == first_free(self@.voices, 0) && i < self@.voices.len()
                    && !self@.voices[i as int].is_active() && forall|j: int|
                    0 <= j < i ==> (#[trigger] self@.voices[j]).is_active(),
                None => first_free(self@.voices, 0) == self@.voices.len() && self@.is_full(),
            },
    {
        proof {
            lemma_first_free(self@.voices, 0);
        }
        let mut i: usize = 0;
        while i < self.voices.len()
            invariant
                i <= self.voices.len(),
                self@.voices.len() == self.voices.len(),
                first_free(self@.voices, 0) == first_free(self@.voices, i as nat),
                forall|j: int| 0 <= j < i ==> (#[trigger] self@.voices[j]).is_active(),
            decreases self.voices.len() - i,
        {
            assert(self@.voices[i as int] == self.voices[i as int]@);
            if !self.voices[i].is_active() {
                return Some(i);
            }
            i = i + 1;
        }
        None
    }

    /// Start a note on the first free voice, or else on the voice under the
    /// cursor, which then moves on.
    pub fn note_on(&mut self, note: u8, velocity: u64)
        requires
            old(self)@.wf(),
            velocity <= ONE,
        ensures
            final(self)@ == synth_note_on(old(self)@, note, velocity as nat),
            final(self)@.wf(),
    {
        proof {
            lemma_dispatch_preserves_wf(
                self@,
                NoteEvent::NoteOn { timing: 0, note, velocity },
            );
        }
        assert(self@.voices.len() == self.voices.len());
        let index: usize = match self.find_free_voice() {
            Some(free) => free,
            None => {
                let stolen: usize = self.next_voice;
                self.next_voice = (self.next_voice + 1) % self.voices.len();
                stolen
            },
        };
        assert(self.voices[index as int]@ == old(self)@.voices[index as int]);
        assert(self.voices[index as int]@.wf());
        self.voices[index].trigger(note, velocity);
        assert(self@.voices =~= synth_note_on(old(self)@, note, velocity as nat).voices);
    }

    /// Release every voice that holds `note`.
    pub fn note_off(&mut self, note: u8)
        requires
            old(self)@.wf(),
        ensures
            final(self)@ == synth_note_off(old(self)@, note),
            final(self)@.wf(),
    {
        proof {
            lemma_dispatch_preserves_wf(self@, NoteEvent::NoteOff { timing: 0, note });
        }
        let mut i: usize = 0;
        while i < self.voices.len()
            invariant
                i <= self.voices.len(),
                self.voices.len() == old(self).voices.len(),
                self.next_voice == old(self).next_voice,
                old(self)@.wf(),
                forall|j: int|
                    0 <= j < i ==> (#[trigger] self.voices[j])@ == synth_note_off(
                        old(self)@,
                        note,
                    ).voices[j],
                forall|j: int| i <= j < self.voices.len() ==> self.voices[j] == old(self).voices[j],
            decreases self.voices.len() - i,
        {
            assert(self.voices[i as int]@ == old(self)@.voices[i as int]);
            assert(old(self)@.voices[i as int].wf());
            if self.voices[i].note() == Some(note) {
                self.voices[i].release();
            }
            i = i + 1;
        }
        assert(self@.voices =~= synth_note_off(old(self)@, note).voices);
    }

    /// Apply one event.
    pub fn dispatch(&mut self, event: &NoteEvent)
        requires
            old(self)@.wf(),
            event.wf(),
        ensures
            final(self)@ == synth_dispatch(old(self)@, *event),
            final(self)@.wf(),
    {
        match event {
            NoteEvent::NoteOn { note, velocity, .. } => self.note_on(*note, *velocity),
            NoteEvent::NoteOff { note, .. } => self.note_off(*note),
            NoteEvent::Other { .. } => {},
        }
    }

    /// Dispatch the events due at `frame`, from `pos` on, and return the
    /// position of the first event left in the queue.
    fn drain(&mut self, events: &[NoteEvent], pos: usize, frame: usize) -> (next: usize)
        requires
            old(self)@.wf(),
            events_wf(events@),
            pos <= events.len(),
        ensures
            (Progress { synth: final(self)@, consumed: next as nat }) == synth_drain(
                old(self)@,
                events@,
                pos as nat,
                frame as nat,
            ),
            final(self)@.wf(),
            next <= events.len(),
    {
        let mut next: usize = pos;
        while next < events.len() && events[next].timing() as usize == frame
            invariant
                self@.wf(),
                events_wf(events@),
                next <= events.len(),
                synth_drain(self@, events@, next as nat, frame as nat) == synth_drain(
                    old(self)@,
                    events@,
                    pos as nat,
                    frame as nat,
                ),
            decreases events.len() - next,
        {
            assert(events@[next as int].wf());
            self.dispatch(&events[next]);
            next = next + 1;
        }
        next
    }

    /// Render one frame: mix the voices and advance those that sound.
    fn mix_frame(&mut self, gain: u64) -> (sample: i64)
        requires
            old(self)@.wf(),
        ensures
            sample == mix(old(self)@.voices, gain as nat, old(self)@.voices.len()),
            final(self)@ == synth_advance(old(self)@),
            final(self)@.wf(),
    {
        proof {
            lemma_advance_preserves_wf(self@);
        }
        let mut sample: i64 = 0;
        let mut i: usize = 0;
        while i < self.voices.len()
            invariant
                i <= self.voices.len(),
                self.voices.len() == old(self).voices.len(),
                self.next_voice == old(self).next_voice,
                old(self)@.wf(),
                sample == mix(old(self)@.voices, gain as nat, i as nat),
                forall|j: int|
                    0 <= j < i ==> (#[trigger] self.voices[j])@ == voice_advance(
                        old(self)@.voices[j],
                    ),
                forall|j: int| i <= j < self.voices.len() ==> self.voices[j] == old(self).voices[j],
            decreases self.voices.len() - i,
        {
            assert(self.voices[i as int]@ == old(self)@.voices[i as int]);
            assert(old(self)@.voices[i as int].wf());
            let part: i64 = self.voices[i].render(gain);
            sample = add_clipped(sample, part);
            i = i + 1;
        }
        assert(self@.voices =~= synth_advance(old(self)@).voices);
        sample
    }

    /// Render `frames` frames into `buffer`, which holds `channels` samples
    /// per frame, frame after frame. At each frame the events due at it are
    /// dispatched in their order, then every sounding voice is sampled once and
    /// the mix is written to every channel of the frame. An event that is not
    /// due when it reaches the front of the queue stays there and holds back
    /// all that follow it. Returns the number of events dispatched.
    pub fn process(
        &mut self,
        events: &[NoteEvent],
        gain: u64,
        frames: usize,
        channels: usize,
        buffer: &mut Vec<i64>,
    ) -> (consumed: usize)
        requires
            old(self)@.wf(),
            events_wf(events@),
            old(buffer).len() == frames * channels,
        ensures
            final(self)@ == render(old(self)@, events@, frames as nat).synth,
            consumed == render(old(self)@, events@, frames as nat).consumed,
            final(self)@.wf(),
            final(buffer).len() == old(buffer).len(),
            forall|k: int|
                0 <= k < final(buffer).len() ==> #[trigger] final(buffer)[k] == render_output(
                    old(self)@,
                    events@,
                    gain as nat,
                    (k / channels as int) as nat,
                ),
            events.len() == 0 && old(self)@.is_silent() ==> final(self)@ == old(self)@ && forall|
                k: int,
            | 0 <= k < final(buffer).len() ==> #[trigger] final(buffer)[k] == 0,
            events_sorted(events@) ==> consumed == first_due_from(events@, frames as nat, 0),
    {
        let mut pos: usize = 0;
        let mut frame: usize = 0;
        let mut written: usize = 0;
        while frame < frames
            invariant
                frame <= frames,
                written == frame * channels,
                written <= buffer.len(),
                buffer.len() == frames * channels,
                events_wf(events@),
                self@.wf(),
                (Progress { synth: self@, consumed: pos as nat }) == render(
                    old(self)@,
                    events@,
                    frame as nat,
                ),
                pos <= events.len(),
                forall|k: int|
                    0 <= k < written ==> #[trigger] buffer[k] == render_output(
                        old(self)@,
                        events@,
                        gain as nat,
                        (k / channels as int) as nat,
                    ),
            decreases frames - frame,
        {
            pos = self.drain(events, pos, frame);
            let sample: i64 = self.mix_frame(gain);
            let mut channel: usize = 0;
            proof {
                assert((frame + 1) * channels <= frames * channels) by (nonlinear_arith)
                    requires
                        frame < frames,
                ;
                assert((frame + 1) * channels == frame * channels + channels) by (nonlinear_arith);
            }
            while channel < channels
                invariant
                    channel <= channels,
                    frame < frames,
                    written == frame * channels + channel,
                    frame * channels + channels <= frames * channels,
                    buffer.len() == frames * channels,
                    sample == render_output(old(self)@, events@, gain as nat, frame as nat),
                    forall|k: int|
                        0 <= k < written ==> #[trigger] buffer[k] == render_output(
                            old(self)@,
                            events@,
                            gain as nat,
                            (k / channels as int) as nat,
                        ),
                decreases channels - channel,
            {
                buffer.set(written, sample);
                proof {
                    lemma_fundamental_div_mod_converse(
                        written as int,
                        channels as int,
                        frame as int,
                        channel as int,
                    );
                }
                written = written + 1;
                channel = channel + 1;
            }
            frame = frame + 1;
        }
        proof {
            if events_sorted(events@) {
                lemma_render_takes_all_due(old(self)@, events@, frames as nat);
            }
            if events.len() == 0 && old(self)@.is_silent() {
                assert(events@ =~= Seq::<NoteEvent>::empty());
                lemma_silent_render(old(self)@, gain as nat, frames as nat);
                assert forall|k: int| 0 <= k < buffer.len() implies #[trigger] buffer[k] == 0 by {
                    lemma_silent_render(old(self)@, gain as nat, (k / channels as int) as nat);
                }
            }
        }
        pos
    }
}

} // verus!
