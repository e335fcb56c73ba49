//! The analyses that run on a `DiGraph`.

pub mod critical_path;
pub mod cycle_break;
pub mod cycle_search;
pub mod cycle_steps;
pub mod cycles;
pub mod scc;
pub mod scc_traversal;
