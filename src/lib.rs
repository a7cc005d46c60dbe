//! In-memory knowledge graphs built from (subject, predicate, object)
//! triples: deduplication, node-frequency tables, node selection by count
//! and by name pattern, merging, and N3 line serialisation.

pub mod counts;
pub mod graph;
pub mod laws;
pub mod merge;
pub mod n3;
pub mod patterns;
pub mod query;
pub mod seqs;

pub use counts::NodeCount;
pub use graph::{Graph, Triple};
pub use patterns::{PatternError, PatternSet};
