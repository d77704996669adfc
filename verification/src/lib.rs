//! A software rasterizer: lines, wireframe and filled (flat and
//! linearly-shaded) triangles drawn into an in-memory RGBA pixel buffer.
//!
//! All coordinate and attribute interpolation is done with exact rational
//! arithmetic (an integer numerator over a fixed positive denominator), so
//! every ramp produced by the interpolator has a provably constant step.

pub mod buffer;
pub mod frac;
pub mod frame;
pub mod interp;
pub mod line;
pub mod scene;
pub mod text;
pub mod triangle;

pub use buffer::Color;
pub use buffer::PixelBuffer;
pub use buffer::Point;
pub use frac::Frac;
