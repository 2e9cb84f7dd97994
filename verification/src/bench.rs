//! Benchmark support: the corpus of JSON Lines batches, the checksum
//! computed over either parser's output (from visit events or by walking
//! nodes), visiting row ranges separately, and the comparison of two
//! engines' per-row checksums.

pub mod agree;
pub mod data;
pub mod node_walk;
pub mod ranges;
pub mod walk;
