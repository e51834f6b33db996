//! Rendering of the Mandelbrot set into a raster image.
//!
//! The crate holds the side of the renderer that counts and places: the
//! pixel grid and its line drawing, the colour wheel, the split of the
//! image's columns among workers, the buffer of iteration counts, the
//! escape-time count and the colouring pass.  The arithmetic of the complex
//! plane works on floating-point numbers and stays with the caller: the
//! engine takes it as a function from a pixel to its iteration count, the
//! escape-time count as the step of an orbit and the test that ends it.

pub mod buffer;
pub mod canvas;
pub mod config;
pub mod coord;
pub mod mandelbrot_color;
pub mod mandelbrot_kernel;
pub mod partition;
pub mod render;
