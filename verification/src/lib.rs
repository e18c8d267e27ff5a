//! A minimal map/reduce word-count core: a coordinator turns input files into
//! map tasks, a worker tokenizes each file into `(word, "1")` pairs and
//! collapses the sorted, merged pairs into a word-frequency table.
//!
//! Every contract speaks of strings through their UTF-8 bytes, so the order
//! used throughout is plain lexicographic order on byte sequences, which is
//! exactly how Rust compares `str` values.

pub mod coordinator;
pub mod kernel;
pub mod model;
pub mod render;
pub mod text;
pub mod worker;
