//! Escape-time evaluation of the Mandelbrot recurrence over a pixel grid.
//!
//! The library is generic over the orbit state: the caller supplies the
//! arithmetic (the viewport transform, the closed-form membership tests, the
//! radius test and one step of the recurrence) as closures, and the library
//! owns the iteration count, its cap, the short-circuit on known members of the
//! set and the row-major sweep, all with proved contracts.
pub mod area;
pub mod escape;
