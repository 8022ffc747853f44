//! Mermaid flowchart rendering.

pub mod layout;

pub use layout::MermaidLayout;

use vstd::prelude::*;

verus! {

/// Accumulates the lines of a mermaid definition.
#[derive(Debug)]
pub struct MermaidBuilder {
    lines: Vec<String>,
}

impl View for MermaidBuilder {
    type V = Seq<Seq<char>>;

    /// The lines written so far.
    closed spec fn view(&self) -> Seq<Seq<char>> {
        self.lines@.map_values(|l: String| l@)
    }
}

impl MermaidBuilder {
    /// Creates a builder with no lines.
    pub fn new() -> (r: MermaidBuilder)
        ensures
            r@.len() == 0,
    {
        let r = MermaidBuilder { lines: Vec::new() };
        proof {
            assert(r@ =~= Seq::<Seq<char>>::empty());
        }
        r
    }

    /// Appends a line.
    pub fn push_line(&mut self, line: &str)
        ensures
            final(self)@ == old(self)@.push(line@),
    {
        self.lines.push(String::from_str(line));
        proof {
            assert(self@ =~= old(self)@.push(line@));
        }
    }

    /// Returns the lines written so far.
    pub fn lines(&self) -> (r: &Vec<String>)
        ensures
            r@.map_values(|l: String| l@) == self@,
    {
        &self.lines
    }
}

} // verus!
