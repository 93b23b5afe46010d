//! Byte streams as pixel grids, reordered along the Hilbert curve.
//!
//! A run of bytes is grouped three at a time into colours and laid out row by
//! row on a grid of a given width. A square grid whose side is a power of two
//! can then be reordered so that pixels which were neighbours in the byte
//! stream become neighbours on the plane, and back again.

pub mod error;
pub mod pos;
pub mod bits;
pub mod curve;
pub mod curve_laws;
pub mod image;
pub mod image_laws;
