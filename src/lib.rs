//! Parsing of heap profiler snapshot logs ("massif" output) into the
//! snapshots they record and the allocation trees behind them.

pub mod laws;
pub mod massif;
pub mod node;
pub mod text;
pub mod tree;

pub use massif::{parse_massif_content, MassifData, Snapshot};
pub use node::{parse_heap_node_line, HeapNode};
pub use tree::parse_heap_tree;
