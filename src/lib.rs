//! Buddhabrot rendering: trajectory records and their log, the worker's
//! scratch buffer, the pixel accumulator and the rank normalization of the
//! colorizer.
pub mod record;
pub mod scratch;
pub mod grid;
pub mod rank;
pub mod config;
pub mod animation;
