# vectorit-core

VectorIt turns raster images into vector paths and lets the user touch up the
color segmentation before the paths are traced. This crate is its verified
core, written in Verus. The functions in `src/` carry contracts that the
verifier proves, except a handful of small wrappers around outside calls
(the `image` decoders, encoders and thumbnailer, `base64`, `dirs`, `Path::exists` and
`String::push`), whose contracts are trusted and say so in their doc comments.

## Layout

- `src/` — the verified library.
  - `types.rs`, `model.rs`, `grid.rs`, `text.rs`: the data types, their
    mathematical views, pixel-grid helpers and message text.
  - `segmenter.rs`: 4-connected labelling of a quantized image into regions.
  - `editor.rs`: the segmentation editor (paint, merge, split, undo, reset,
    artifact search) and the laws that tie its operations together.
  - `commands.rs`: the editor commands built on it (fix an artifact, sample a
    color, zap a small region).
  - `tracer.rs`: marching-squares boundary tracing on pixel cracks.
  - `decoder.rs`: decoding PNG, JPEG, BMP, GIF and TIFF file bytes into
    RGBA pixels (through the `image` crate).
  - `pipeline.rs`, `detector.rs`, `resizer.rs`, `flatten.rs`, `config.rs`,
    `preview.rs`, `svgpath.rs`: the integer stages of the pipeline,
    settings, image previews and SVG path tokens.
  - `export/`: DXF color indices and knots, bitmap downsampling and encoding.
  - `desktop.rs`: the decisions behind drag-and-drop and the documents folder.
- `tests/` — tests run against the compiled library.
- `app/` — the application around the library: file and clipboard I/O, the
  floating-point stages (quantization, curve fitting, simplification,
  rasterization, SVG/EPS/PDF/DXF writing) and the command layer.
