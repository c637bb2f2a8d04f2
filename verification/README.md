# rustille

Turn pixels into Braille: one Unicode Braille character carries a 2×4 grid of
dots, so each character is eight logical pixels.

- `src/` is the verified library (Verus). It holds the Braille cell encoding,
  the one-bit-per-dot drawing canvas, pixel-buffer handling (compositing,
  validation, cropping), decoding through the `image` crate, colour escapes
  and the xterm-256 palette mapping, option names and parsing, the output-size
  decision and the packing of a thresholded dot plane into text, the
  command line's colour and sizing decisions, and the status codes of the C
  interface. Every function carries a contract; the laws that relate several
  functions are public proof functions (`lemma_*`).
- `app/` is the `rustille` command-line program: argument parsing, terminal
  and environment queries, file and standard-stream I/O, and the
  floating-point half of the pipeline (resampling, luminance, dithering and
  aspect-ratio arithmetic), which calls into the library for everything else.
- `tests/` exercises the library through its public API.
