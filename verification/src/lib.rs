//! A baseline JPEG decoder whose parsing, entropy decoding and integer
//! reconstruction steps carry machine-checked contracts.

pub mod primitives;
pub mod image;
pub mod reader;
pub mod scan;
pub mod marker;
pub mod decoder;
pub mod ppm;
