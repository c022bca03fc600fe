//! The logic of Aether Monitor, a system monitor for the macOS menu bar.
//!
//! Once a second a worker turns readings of the sensors into a frame and hands it
//! through a triple buffer to two views: the one in the menu bar, which draws
//! small charts and shows tooltips, and the canvas of a popover, which renders a
//! panel. This crate holds what the worker and the views compute and decide. It
//! touches neither the screen nor the sensors: drawing comes out as lists of
//! operations, rendering as steps, and readings go in as plain values.
//!
//! * [`telemetry`]: frames, the pipe, and how readings become frames.
//! * [`geometry`], [`draw`]: where the charts stand and what they look like.
//! * [`text`]: how numbers are written.
//! * [`gpu`]: setting up the surface, its size, the panel and the order of the
//!   steps of rendering.
//! * [`ui`]: the two views.
//! * [`laws`]: what holds across functions; [`logarithm`]: what the laws on the
//!   network's activity take a decimal logarithm to be.
//!
//! All fractions are binary floating-point numbers, carried as bit patterns by
//! the types of [`float`]. [`value`] says what they mean and what each operation
//! gives: the representable number nearest to the exact result, the one with the
//! even pattern where two are equally near. [`rounding`] and [`round_bits`] hold
//! the theory and the code of rounding, [`number`] the operations, [`order`] how
//! they respect order, [`accuracy`] how near they come.

pub mod accuracy;
pub mod draw;
pub mod float;
pub mod geometry;
pub mod gpu;
pub mod laws;
pub mod logarithm;
pub mod number;
pub mod order;
pub mod round_bits;
pub mod rounding;
pub mod telemetry;
pub mod text;
pub mod ui;
pub mod value;
