//! Views over port graphs.

pub mod filter;

pub use filter::FilteredGraph;
