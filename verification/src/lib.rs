//! Frequency statistics over sliding windows of consecutive characters
//! ("n-grams") drawn from a decoded text stream.
//!
//! The crate decodes a byte stream into Unicode code points, feeds the
//! characters one at a time into an accumulator that maintains one frequency
//! table per window length, and ranks the resulting tables for reporting.

pub mod model;
pub mod decode;
pub mod table;
pub mod accum;
pub mod rank;
pub mod laws;
