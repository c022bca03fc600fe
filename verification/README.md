# Aether Monitor

A system monitor for the macOS menu bar: small live charts of processor, memory,
network and temperature in the menu bar, and a popover with the same values in a
larger panel.

- `src/` is the library, verified with Verus. It turns readings of the sensors into
  frames, hands them from the worker to the views, lays the charts out, writes the
  tooltips and the panel's text, and decides how the rendering surface is set up,
  resized and used. Its contracts say exactly what each function returns;
  `src/laws.rs` states what holds across functions.
- `tests/` runs the library on concrete values, many of them against the native
  floating-point arithmetic of the machine.
- `app/` is the program around the library: AppKit, Metal, egui and the sensors.

The library has no floating-point types. Numbers are bit patterns (`Single`,
`Double`), and the arithmetic on them is integer arithmetic proved to round as
IEEE 754 asks. The one function that is left to the platform is the decimal
logarithm of the network activity: the program takes it and hands it in.

Outside crates that the library calls: `triple_buffer` for the hand-over of frames
and `parking_lot` for the lock around its reading end.
