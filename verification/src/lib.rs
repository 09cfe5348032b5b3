//! Build-time generator for the static assets of a word-guessing game: a
//! counter-based pseudo-random generator, compact word-list encoders, and the
//! partitioning and selection rules that drive the daily challenges.

pub mod random;
pub mod words;
pub mod encoder;
pub mod lexique;
pub mod normalize;
pub mod builder;
