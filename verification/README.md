# copilot

A retained-mode graphics toolkit for embedded and bare-metal targets, written
in Verus: every drawing routine, decoder and parser in the library carries a
contract, and Verus proves the code against it.

## What the contracts say

- **Drawing goes through `Surface`.** Each routine's contract states exactly
  which surface calls it makes, in order, and that every one of them lies
  inside the clip it was given. `MemorySurface`, the software rasteriser,
  states that its pixels are the replay of those calls over a zeroed buffer.
- **Decoders are total.** The QOI and GIF (LZW) decoders are proved to be
  free of panics on any input. Each one returns what its format specification
  says, or the error that names the first rule the bytes break.
- **The scene and rig formats** (JSON with comments and trailing commas)
  parse to exactly what their grammars describe, and a parsed rig names a
  scene for every display and mode.
- **Damage tracking** keeps at most a fixed number of rectangles, and merging
  never loses a pixel that was marked.

## Layout

- `src/`: the verified library. `geom`, `color` and `surface` hold the
  model; `render/` holds the drawing routines; `asset/` holds the image
  decoders; `font/`, `text`, `anim/`, `menu`, `rig` and `scene/` hold the rest.
- `tests/`: ordinary Rust tests against the compiled library.
- `app/`: the parts that work on floating point (antialiased shapes, charts,
  easing curves, bar gauges). They call into the library but are not verified.
