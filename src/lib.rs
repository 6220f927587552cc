//! Turns (source, target) observations between named nodes into a
//! deterministic two-section graph document: a node-label table, a `#`
//! separator line, then one label pair per edge.

pub mod order;
pub mod tgf;
pub mod pair_store;
pub mod extract;
pub mod scan;
