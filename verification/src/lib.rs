//! A polyphonic sine synthesiser engine in fixed-point arithmetic.
//!
//! Every ratio (phase, envelope level, velocity, gain, sample) is an integer
//! count of billionths, so that `utils::ONE` stands for 1.0. Frequencies are in
//! nanohertz, sample rates in hertz and envelope times in microseconds.

pub mod envelopes;
pub mod oscillators;
pub mod synth;
pub mod utils;
pub mod voice;
