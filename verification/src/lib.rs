//! A minimal acyclic word automaton ("word graph").
//!
//! Words are inserted one at a time, in non-decreasing lexicographic order,
//! into a graph whose nodes live in an arena and are referenced by index.
//! As each word is completed, the suffix that is not shared with the next
//! word is minimized: structurally equivalent nodes are merged, so common
//! suffixes of different words share one subgraph.  After finalization the
//! graph is immutable in structure and can be queried for exact membership
//! or for prefix existence, case-sensitively or not.

pub mod dawg;
pub mod laws;
pub mod node;
pub mod utils;
