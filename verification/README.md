# gifmonster

A GIF encoder for frame directories and videos. The library in `src/` is
written in Verus: its functions carry contracts that Verus proves, and the
properties that span several functions are stated as proof functions
(`lemma_*`). The exception is the few functions marked
`#[verifier::external_body]` that call the `gif` crate's encoder, the
`image` crate's resize and std's lowercasing (in `src/gif_stream.rs`,
`src/resize.rs`, `src/input.rs` and `src/options.rs`):
their contracts are trusted, not proved, and everything proved about GIF
output rests on them.

## Layout

- `src/config.rs` — encoder options, their validation, the frame delay.
- `src/types.rs` — RGBA frames, indexed frames, run statistics, progress.
- `src/quantize.rs` — quality settings, channel quantization, the color
  histogram, the palette of a frame whose colors fit the budget, mapping
  pixels to palette entries, the temporal smoothing window.
- `src/dither.rs` — ordered (Bayer) dithering, and the scan order and kernel
  of error diffusion.
- `src/encode.rs` — GIF color tables, transparency for unchanged pixels,
  cropping to the changed region, and the assembly of the whole file.
- `src/gif_stream.rs` — the `gif` crate's encoder writing into memory, and
  the byte layout of the blocks it writes.
- `src/input.rs` — which files of a directory are frames and in what order,
  and the steps of reading fixed-size frames from a stream.
- `src/resize.rs` — scaling a frame to the output size.
- `src/options.rs` — optional settings as a JavaScript caller passes them.
- `app/` — the command-line program and everything that works on files,
  processes, threads or floating-point colors (OKLab palettes, k-means,
  error diffusion, palette smoothing, the `f64` output-size computation).
- `tests/` — tests of the library.
