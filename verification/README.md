# flame_core

The verified core of a terminal flame screensaver.

- `src/palette.rs` — the 36-entry heat ramp from black to white-hot, with
  proofs that every channel brightens along the ramp.
- `src/field.rs` — the fire as a grid of heat levels `0..=35`: feeding the
  source rows, plumes, heat rising and cooling one row at a time, and the
  discs left by exploding lava globs. Every operation keeps the grid's
  shape and its heat cap.
- `src/ascent.rs` — the upward pass over the whole field, with the proof
  that heat climbs exactly one row per pass.
- `src/render.rs` — terminal cells: fire glyphs and colours, sparks hidden
  by strong fire, globs, stars and their lens-flare streaks.
- `src/sparks.rs`, `src/stars.rs`, `src/logo.rs` — where sparks start, how
  much heat the logo feels, how many stars the sky holds and how the logo
  is centred.

`app/` is the screensaver itself: timing, system metrics, random draws and
everything positioned in floating point, calling the library for the
integer rules above.
