# solar_sim

A solar-system viewer. The verified library (`src/`) holds the parts that
decide or compute on plain values; `app/` holds the window, OpenGL rendering,
file reading and the floating-point scene math around it.

Library modules:

- `qoi` — QOI image decoder: header checks, the chunk state machine (RGB,
  RGBA, index, diff, luma, run), output in 3, 4 or more bytes per pixel.
- `obj` — Wavefront OBJ text parser: lines and tokens, `v`/`vn`/`vt`
  records, face fields `p/t/n`, triangle fans and vertex de-duplication.
- `transform_stack` — a stack of accumulated transforms that keeps its base.
- `shape` — triangle list of a sphere's latitude/longitude grid.
- `input` — key and button states across frames; number-key camera requests
  and the followed body chosen by held number keys.
- `camera` — camera lock targets and lock requests.
- `shaders`, `uniforms` — current program record and uniform locations.
