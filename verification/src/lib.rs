//! Word-ladder search: a dictionary of words, single-character-substitution
//! adjacency, and a breadth-first shortest-path search with parent-link
//! path reconstruction.

pub mod graph;
pub mod links;
pub mod search;
pub mod words;

pub use graph::WordGraph;

pub use words::adjacent;
pub use words::is_adjacent;
