//! Layout options for Mermaid rendering.

use vstd::prelude::*;

use super::MermaidBuilder;

verus! {

/// Mermaid graph layout options.
///
/// Defaults to `Elk`.
#[derive(Debug, Clone, Copy, PartialEq, Eq, Structural, Hash)]
pub enum MermaidLayout {
    /// The layout engine used by default in mermaid.
    ///
    /// It needs no configuration block in the mermaid definition, but has
    /// limited layout options.
    Dagre,
    /// Eclipse Layout Kernel, a more advanced layout engine with tighter
    /// node placement.
    Elk,
}

impl Default for MermaidLayout {
    fn default() -> (r: MermaidLayout)
        ensures
            r == MermaidLayout::Elk,
    {
        MermaidLayout::Elk
    }
}

impl MermaidLayout {
    /// Returns `true` if the layout needs an explicit configuration block in
    /// the mermaid definition.
    pub fn requires_config(&self) -> (r: bool)
        ensures
            r == (*self == MermaidLayout::Elk),
    {
        match self {
            MermaidLayout::Dagre => false,
            MermaidLayout::Elk => true,
        }
    }

    /// Writes the configuration lines of this layout.
    pub fn emit_config(&self, builder: &mut MermaidBuilder)
        ensures
            *self == MermaidLayout::Dagre ==> final(builder)@ == old(builder)@,
            *self == MermaidLayout::Elk ==> final(builder)@ == old(builder)@.push("layout: elk"@),
    {
        match self {
            MermaidLayout::Dagre => {},
            MermaidLayout::Elk => {
                builder.push_line("layout: elk");
            },
        }
    }
}

} // verus!
