//! Rendering of port graphs as text diagrams.

pub mod mermaid;
