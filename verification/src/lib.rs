//! Structural diagnostics over directed dependency graphs: longest-chain
//! depth, strongly connected components, bounded enumeration of elementary
//! cycles and ranking of the edges whose removal breaks them.

pub mod algorithms;
pub mod counting;
pub mod graph;
pub mod walks;
