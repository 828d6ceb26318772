//! Neuro-Fantasia: the verified core of a genetic-algorithm timbre matcher.
//!
//! - [`resources`]: the wavetable bank and how it is assembled, sorted by
//!   brightness.
//! - [`analysis`]: the frame layout of the spectrogram and the frames two
//!   spectrograms are compared over.
//! - [`synth`]: the parameter layout of a synthesizer patch.
//! - [`genetic`]: uniform crossover, tournament selection and the breeding of
//!   the next generation.

pub mod analysis;
pub mod genetic;
pub mod resources;
pub mod synth;
