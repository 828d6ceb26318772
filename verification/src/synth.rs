//! The parameter layout of a synthesizer patch.

use vstd::prelude::*;

verus! {

/// The genetic code of a synthesizer patch, generic over the representation
/// of a single gene.
///
/// Genes hold normalized values (mostly 0.0 to 1.0) that the synthesizer maps
/// to DSP parameters. The genes fall into groups that crossover treats as
/// units: the oscillator genes one by one, the envelope (attack, decay,
/// sustain, release), the filter (cutoff, resonance, filter type, envelope
/// amount), the LFO (rate, pitch amount, cutoff amount), the drive, and the
/// master volume.
#[derive(Clone, Copy, Debug)]
pub struct PatchGenome<G> {
    /// Index of wavetable 1 (mapped to the bank size).
    pub osc1_idx: G,
    /// Index of wavetable 2.
    pub osc2_idx: G,
    /// Detune amount between the oscillators.
    pub detune: G,
    /// Mix between oscillator 1 (0.0) and oscillator 2 (1.0).
    pub osc_mix: G,
    /// Mix between the oscillators (0.0) and noise (1.0).
    pub noise_mix: G,
    /// Envelope attack time.
    pub attack: G,
    /// Envelope decay time.
    pub decay: G,
    /// Envelope sustain level.
    pub sustain: G,
    /// Envelope release time.
    pub release: G,
    /// Filter cutoff (0.0..1.0 maps to 20 Hz..20 kHz).
    pub cutoff: G,
    /// Filter resonance.
    pub resonance: G,
    /// Filter type selection (below 0.33 lowpass, below 0.66 highpass, else bandpass).
    pub filter_type: G,
    /// Amount of envelope modulation on the cutoff.
    pub filter_env_amt: G,
    /// LFO rate in Hz.
    pub lfo_rate: G,
    /// LFO amount on pitch (vibrato).
    pub lfo_amt_pitch: G,
    /// LFO amount on cutoff (wah).
    pub lfo_amt_cutoff: G,
    /// Distortion drive.
    pub drive: G,
    /// Master volume.
    pub master_vol: G,
}

} // verus!
