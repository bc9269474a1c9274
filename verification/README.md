# Dwemer Poolrooms: the verified core

Skeuomorphic controls and living water for egui, with the integer and
state-machine law beneath them proved by Verus.

## Layout

- `src/` is the verified library.
  - `chrome/`: configuration of the bronze controls (checkbox plaque side,
    corner close, monoglyph, mechanism gauges, rail detents) and the foundry's
    lattice and illuminant geometry.
  - `water/`: the water guard's poison scan and its readback sentinel, the
    forensic dump framing, field and blur geometry, the per-surface basin
    table, the splash, touch and grip banks, the repaint wake, and the idle
    machines' clocks.
- `tests/` exercises the library on concrete values.
- `app/` is the glue that stays outside verification: wgpu resources and
  readbacks, disk I/O for dumps, `f32` easing and waits, egui types, and the
  one process-wide source of surface identities.

Floating-point samples are handled as their IEEE-754 bit patterns, so that
the guard's thresholds and the grips' ordering are proved over integers.
