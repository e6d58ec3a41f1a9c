//! Landmark-based audio fingerprinting: peak pairs are packed into 32-bit
//! addresses, songs are indexed by address, and a recorded sample is scored
//! against every indexed song by counting time-coherent address hits.

pub mod database;
pub mod decoding;
pub mod fingerprint;
pub mod matching;
pub mod models;
pub mod peaks;
pub mod signal;
pub mod training;
