//! A rain simulation over a landscape of rectangular blocks.
//!
//! The crate holds the rules of the animation and leaves the page to its
//! caller: it reads a landscape from text, keeps the state of a run, turns
//! frame timestamps into rain, and says which rectangles to fill on the canvas.
//!
//! Every quantity is a whole number of thousandths: heights in thousandths of
//! a block, rain in thousandths of an hour, canvas coordinates in thousandths
//! of a pixel, time in milliseconds.

pub mod canvas;
pub mod parse;
pub mod render;
pub mod run;
pub mod world;
