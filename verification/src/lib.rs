//! Lossless conversion among three raster image formats — QOI, PPM (binary
//! P6) and PNG — over a common in-memory RGBA raster.
//!
//! The heart of the crate is the QOI codec in [`qoi`]: a byte-oriented
//! compression state machine whose encoder and decoder are proved to
//! round-trip every raster bit-exactly.  [`ppm`] parses and emits binary
//! P6 files, and [`png`] carries PNG chunk framing plus thin adapters
//! around a third-party PNG codec.

pub mod error;
pub mod img;
pub mod png;
pub mod ppm;
pub mod qoi;
pub mod util;
