//! Port graphs: nodes with ordered incoming and outgoing ports, and links
//! between ports, stored in flat vectors with compact entries.

pub mod index;
pub mod portgraph;
pub mod render;
pub mod unmanaged;
pub mod weights;

pub use index::{Direction, MaybeNodeIndex, MaybePortIndex, NodeIndex, PortIndex, PortOffset};
pub use portgraph::{LinkError, PortGraph};
pub use render::mermaid::MermaidLayout;
pub use unmanaged::UnmanagedDenseMap;
pub use weights::Weights;
pub mod view;

