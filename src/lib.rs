//! An exact-time score model for a two-piano phasing composition: the
//! builder that expands segment instructions into timed notes, and the
//! temporal queries that playback, drawing and export run against it.

pub mod builder;
pub mod export;
pub mod grid;
pub mod laws;
pub mod music;
pub mod rational;
pub mod score;
pub mod timing;
