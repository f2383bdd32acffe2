//! Anti-aliased dot rendering into an intensity mask, and compositing of that
//! mask over an RGBA pixel buffer.
pub mod falloff;
pub mod lemmas;
pub mod raster;
