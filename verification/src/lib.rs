//! Three-way merge of tree-structured documents.
//!
//! Two branches of a JSON-like document are merged against their common
//! ancestor. Independent edits are combined; where both branches edit the
//! same entry to different values, a deterministic tie-break (branch A wins)
//! produces an output anyway and the merge is flagged as conflicted.

pub mod order;
pub mod tree;
pub mod merge;
pub mod laws;
pub mod cli;
