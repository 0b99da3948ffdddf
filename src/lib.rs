//! Per-key minimum / mean / maximum over newline-separated `key;value` records,
//! computed chunk by chunk and merged.
//!
//! Every measurement is held as an integer number of tenths: `-12.3` is `-123`.
pub mod bytes;
pub mod chunk;
pub mod engine;
pub mod hasher;
pub mod map;
pub mod number;
pub mod record;
pub mod report;
pub mod scan;
