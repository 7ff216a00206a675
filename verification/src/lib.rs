//! A small arcade cabinet: a framebuffer, a generator and the rules of the
//! games that draw into it.

pub mod engine;
pub mod games;
