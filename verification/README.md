# aftershock

A software-rendered graphics library: pixels live in plain byte buffers (four bytes per
pixel, red, green, blue and alpha) and every drawing operation is an integer computation on
such a buffer.

- `src/` is the library, verified with Verus. Each drawing operation is stated as the
  sequence of pixels ("dabs") it sets and what setting them does to the buffer: `region`,
  `shapes` and `draw` for the `Buffer`, `rasterizer` for the `Rasterizer` and its drawing
  modes, `partitioned_buffer` and `partitioned_rasterizer` for drawing part by part and
  copying the parts back, `compose` for blitting and compositing, `font` for text, and
  `laws` for the properties that relate several operations.
- `tests/` runs the library on concrete values.
- `app/` holds what works with floating point, files and outside crates around the
  library: PNG loading and saving, TrueType fonts, matrix-transformed and UV-mapped
  drawing, the camera, sprite fonts and the 3D pipelines.
