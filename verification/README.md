# ascii_engine

The core of a desktop image-to-ASCII converter, written in Verus.

`src/` is the verified library:

- `grid` – grayscale images, the split of an axis into regions or cells,
  per-region brightness histograms and per-cell brightness totals; the
  regions of any grid partition the image.
- `histogram` – merging histograms, percentile levels, the darkest/brightest
  range of a region.
- `neighborhood` – 3x3 neighbourhoods on row-major grids and their medians.
- `text` – characters per cell, rows joined into text, result assembly.
- `jobs` – versions of background operations, for cancelling stale work.
- `backends` – the compute and render backends offered, and the default.
- `sources` – screen source ids (written and parsed), camera descriptions.
- `codec` – base64 frames and `data:` URLs (exact standard base64, with
  its round trip proved), PNG encoding, decoding of image files and frames
  into grayscale images, header widths. The image crate is built with its
  PNG format only; a PNG file and the same bytes sent as a frame decode
  alike.
- `state` – the saved application state as a JSON document: parsing,
  pretty text, the first-start state, the history paths, keeping the
  history items whose files still exist, clearing the history.

`app/` holds the Tauri commands, file and device I/O, and the floating-point
stages of the rendering (brightness formulas, interpolation, smoothing),
which call into the library for every integer step.
