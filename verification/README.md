# Neuro-Fantasia (verified core)

Neuro-Fantasia evolves synthesizer patches with a genetic algorithm until
they sound like a target recording. This crate holds the parts of it that
do not compute on floating-point samples, proved with Verus:

- `src/resources.rs`: the wavetable bank, how it is assembled from the files
  that loaded, sorted by brightness (with a fallback when none did), and
  index wrap-around.
- `src/analysis.rs`: how a signal is padded and cut into STFT frames, and over
  which frames two spectrograms are compared.
- `src/synth.rs`: the gene layout of a patch, generic over the gene type.
- `src/genetic.rs`: uniform crossover, tournament selection and the breeding
  of the next generation (elitism), and the trainer's save schedule.

`app/` holds the rest: wav I/O, the DSP graph, the FFT and loss arithmetic,
fitness evaluation and mutation, and the importer and trainer tools.
