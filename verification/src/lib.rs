//! Frame-buffer assembly and plain-text pixel-map encoding for a small ray tracer.
//!
//! The crate holds the integer side of the renderer: where each pixel lives in the
//! flat RGB buffer, how the buffer is filled from a per-pixel shading function, how
//! its rows are reversed for output, and how it is written out as text.
pub mod decimal;
pub mod frame;
pub mod ppm;
