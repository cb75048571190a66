# reim

A speech vocoder: it divides a mono signal into frames, finds pitch, voicing,
spectral envelope and aperiodicity of each, and puts a signal together from them
again. A pitch contour can be divided into notes, each with centre, drift, vibrato
and onset glide, edited note by note, and rendered.

`src/` holds the decisions and the bookkeeping, with contracts proved by Verus:

- `buffer`, `ring`, `rng`, `framing`, `config`: buffers, sample rings, the noise
  register, frame boundaries, sizes.
- `pitch`, `voicing`, `d4c`, `spectrum`: pitch candidates and the choice among them,
  the voiced/unvoiced decision, layout of bins, bands and windows.
- `synth`, `sounding`, `vocoder`, `stream`: clocks of pulses and noise, overlap-add,
  the streaming types, and what holds of them after any input.
- `heap`, `median`, `smooth`, `contour`, `vibrato`, `notes`, `glide`, `segment`: a contour and
  its division into notes.
- `render`, `edits`, `steady`, `roundtrip`: rendering under edits, what edits do to a
  note, what becomes of steady pitches, and what a rendering without edits gives back.
- `wav`, `num`, `natural`, `text`, `svg`, `eval`: files, numbers and their text,
  drawings, comparison of features.

Samples and spectra pass through as values of a type parameter. Pitches are in
nanocents above A4, frequencies in nanohertz. Where numbers of another type have to
be compared, their rank is given: an integer that orders as they do.

`app/` is the program around it: transforms, windows and spectra in floating point,
files, and the command line.

`tests/` runs the library on concrete values.
