//! Shared machinery every game draws on: the generator and the framebuffer.

pub mod frame;
pub mod rng;
