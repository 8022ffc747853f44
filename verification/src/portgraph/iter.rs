//! Iterator structures for a port graph.
//!
//! Each iterator offers `next` and `next_back` methods, together with `len`
//! or `size_hint`, in the manner of a double-ended iterator.

use vstd::prelude::*;

use std::ops::Range;

use super::node_entry::{range_is, NodeEntry, MAX_INCOMING};
use super::port_entry::PortEntry;
use super::{
    indices_where, lemma_indices_where_props, lemma_indices_where_skip, lemma_indices_where_snoc,
    lemma_indices_where_cut_top, lemma_indices_where_ends, node_slot_used, port_slot_used, PortGraph,
    PortGraphView,
};
use crate::index::{Direction, MaybePortIndex, NodeIndex, PortIndex, PortOffset, MAX_INDEX};

verus! {

/// The numbers `lo, lo + 1, ..., hi - 1`; empty when `hi <= lo`.
pub open spec fn range_seq(lo: int, hi: int) -> Seq<nat> {
    Seq::new(if hi >= lo { (hi - lo) as nat } else { 0 }, |i: int| (lo + i) as nat)
}

/// Iterator over the ports of a node.
#[derive(Debug)]
pub struct NodePorts {
    indices: Range<usize>,
}

impl View for NodePorts {
    type V = Seq<nat>;

    /// The port indices left, in order.
    closed spec fn view(&self) -> Seq<nat> {
        range_seq(self.indices.start as int, self.indices.end as int)
    }
}

impl NodePorts {
    #[verifier::type_invariant]
    spec fn inv(self) -> bool {
        self.indices.start <= self.indices.end <= MAX_INDEX + 1
    }

    /// Index of the first port left.
    pub closed spec fn start(self) -> nat {
        self.indices.start as nat
    }

    /// One past the index of the last port left.
    pub closed spec fn end(self) -> nat {
        self.indices.end as nat
    }

    /// The ports left are the indices from the start up to the end.
    pub proof fn lemma_view_is_range(it: NodePorts)
        ensures
            it@ == range_seq(it.start() as int, it.end() as int),
    {
    }

    /// An iterator over the ports in `range`.
    pub(crate) fn from_range(range: Range<usize>) -> (r: NodePorts)
        requires
            range.start <= range.end <= MAX_INDEX + 1,
        ensures
            r.start() == range.start,
            r.end() == range.end,
            r@ == range_seq(range.start as int, range.end as int),
    {
        NodePorts { indices: range }
    }

    /// Returns the ports left in the iterator as a range of indices.
    pub fn as_range(&self) -> (r: Range<usize>)
        ensures
            range_is(r, self.start(), self.end()),
    {
        self.indices.start..self.indices.end
    }

    /// Returns the next port.
    pub fn next(&mut self) -> (r: Option<PortIndex>)
        ensures
            old(self)@.len() > 0 ==> r is Some && r.unwrap()@ == old(self)@[0] && final(self)@
                == old(self)@.drop_first(),
            old(self)@.len() == 0 ==> r is None && final(self)@ == old(self)@,
            final(self).end() == old(self).end(),
            old(self).start() < old(self).end() ==> r is Some && r.unwrap()@ == old(self).start()
                && final(self).start() == old(self).start() + 1,
            old(self).start() >= old(self).end() ==> *final(self) == *old(self),
    {
        proof {
            use_type_invariant(&*self);
        }
        if self.indices.start < self.indices.end {
            let i = self.indices.start;
            self.indices = (i + 1)..self.indices.end;
            proof {
                assert(self@ =~= old(self)@.drop_first());
            }
            Some(PortIndex::new(i))
        } else {
            None
        }
    }

    /// Skips `n` ports and returns the one after them.
    pub fn nth(&mut self, n: usize) -> (r: Option<PortIndex>)
        ensures
            n < old(self)@.len() ==> r is Some && r.unwrap()@ == old(self)@[n as int] && final(self)@ == old(self)@.skip(n + 1),
            n >= old(self)@.len() ==> r is None && final(self)@.len() == 0,
            final(self).end() == old(self).end(),
            n < old(self)@.len() ==> final(self).start() == old(self).start() + n + 1,
            n >= old(self)@.len() ==> final(self).start() == old(self).end(),
    {
        proof {
            use_type_invariant(&*self);
        }
        let len = self.indices.end - self.indices.start;
        if n < len {
            let i = self.indices.start + n;
            self.indices = (i + 1)..self.indices.end;
            proof {
                assert(self@ =~= old(self)@.skip(n + 1));
            }
            Some(PortIndex::new(i))
        } else {
            self.indices = self.indices.end..self.indices.end;
            None
        }
    }

    /// Returns the last port.
    pub fn next_back(&mut self) -> (r: Option<PortIndex>)
        ensures
            old(self)@.len() > 0 ==> r is Some && r.unwrap()@ == old(self)@.last() && final(self)@
                == old(self)@.drop_last(),
            old(self)@.len() == 0 ==> r is None && final(self)@ == old(self)@,
            final(self).start() == old(self).start(),
            old(self).start() < old(self).end() ==> r is Some && r.unwrap()@ == old(self).end() - 1
                && final(self).end() == old(self).end() - 1,
            old(self).start() >= old(self).end() ==> *final(self) == *old(self),
    {
        proof {
            use_type_invariant(&*self);
        }
        if self.indices.start < self.indices.end {
            let i = self.indices.end - 1;
            self.indices = self.indices.start..i;
            proof {
                assert(self@ =~= old(self)@.drop_last());
            }
            Some(PortIndex::new(i))
        } else {
            None
        }
    }

    /// Returns the number of ports left.
    pub fn len(&self) -> (r: usize)
        ensures
            r == self@.len(),
            r == self.end() - self.start(),
    {
        proof {
            use_type_invariant(self);
        }
        self.indices.end - self.indices.start
    }

    /// Consumes the iterator and returns the number of ports left.
    pub fn count(self) -> (r: usize)
        ensures
            r == self@.len(),
    {
        self.len()
    }

    /// Returns the exact number of ports left, as lower and upper bounds.
    pub fn size_hint(&self) -> (r: (usize, Option<usize>))
        ensures
            r.0 == self@.len(),
            r.1 == Some(self@.len() as usize),
    {
        let n = self.len();
        (n, Some(n))
    }
}

impl Clone for NodePorts {
    fn clone(&self) -> (r: NodePorts)
        ensures
            r == *self,
    {
        proof {
            use_type_invariant(self);
        }
        NodePorts { indices: self.indices.start..self.indices.end }
    }
}

impl Default for NodePorts {
    fn default() -> (r: NodePorts)
        ensures
            r@.len() == 0,
            r.start() == 0,
            r.end() == 0,
    {
        NodePorts { indices: 0..0 }
    }
}

/// Iterator over the nodes of a graph, in increasing index order.
#[derive(Debug)]
pub struct Nodes<'a> {
    nodes: &'a [NodeEntry],
    front: usize,
    back: usize,
    len: usize,
}

impl<'a> View for Nodes<'a> {
    type V = Seq<nat>;

    /// The node indices left, in order.
    closed spec fn view(&self) -> Seq<nat> {
        indices_where(node_slot_used(self.nodes@), self.front as int, self.back as int)
    }
}

impl<'a> Nodes<'a> {
    #[verifier::type_invariant]
    spec fn inv(self) -> bool {
        &&& self.front <= self.back <= self.nodes@.len() <= MAX_INDEX + 1
        &&& self.len == self@.len()
    }

    /// An iterator over all the nodes among the given slots.
    pub(crate) fn new(nodes: &'a [NodeEntry], len: usize) -> (r: Nodes<'a>)
        requires
            nodes@.len() <= MAX_INDEX + 1,
            len == indices_where(node_slot_used(nodes@), 0, nodes@.len() as int).len(),
        ensures
            r@ == indices_where(node_slot_used(nodes@), 0, nodes@.len() as int),
    {
        Nodes { nodes, front: 0, back: nodes.len(), len }
    }

    /// Returns the next node.
    pub fn next(&mut self) -> (r: Option<NodeIndex>)
        ensures
            old(self)@.len() > 0 ==> r is Some && r.unwrap()@ == old(self)@[0] && final(self)@
                == old(self)@.drop_first(),
            old(self)@.len() == 0 ==> r is None && final(self)@ == old(self)@,
    {
        proof {
            use_type_invariant(&*self);
        }
        let ghost p = node_slot_used(self.nodes@);
        let mut i = self.front;
        while i < self.back
            invariant
                self.front <= i <= self.back <= self.nodes@.len(),
                p == node_slot_used(self.nodes@),
                self.nodes@.len() <= MAX_INDEX + 1,
                self@ == indices_where(p, i as int, self.back as int),
                *self == *old(self),
                self.len == self@.len(),
            decreases self.back - i,
        {
            if let NodeEntry::Node(_) = self.nodes[i] {
                proof {
                    assert(p(i as int));
                    lemma_indices_where_props(p, i + 1, self.back as int);
                }
                *self = Nodes { nodes: self.nodes, front: i + 1, back: self.back, len: self.len - 1 };
                return Some(NodeIndex::new(i));
            }
            i = i + 1;
        }
        *self = Nodes { nodes: self.nodes, front: self.back, back: self.back, len: self.len };
        None
    }

    /// Returns the last node.
    pub fn next_back(&mut self) -> (r: Option<NodeIndex>)
        ensures
            old(self)@.len() > 0 ==> r is Some && r.unwrap()@ == old(self)@.last() && final(self)@
                == old(self)@.drop_last(),
            old(self)@.len() == 0 ==> r is None && final(self)@ == old(self)@,
    {
        proof {
            use_type_invariant(&*self);
        }
        if self.len == 0 {
            return None;
        }
        let ghost p = node_slot_used(self.nodes@);
        let mut j = self.back;
        while j > self.front
            invariant
                self.front <= j <= self.back <= self.nodes@.len(),
                p == node_slot_used(self.nodes@),
                self.nodes@.len() <= MAX_INDEX + 1,
                self@ == indices_where(p, self.front as int, j as int),
                *self == *old(self),
                self.len == self@.len(),
            decreases j,
        {
            proof {
                lemma_indices_where_snoc(p, self.front as int, j as int);
            }
            if let NodeEntry::Node(_) = self.nodes[j - 1] {
                proof {
                    assert(p(j - 1));
                }
                *self = Nodes { nodes: self.nodes, front: self.front, back: j - 1, len: self.len - 1 };
                return Some(NodeIndex::new(j - 1));
            }
            j = j - 1;
        }
        *self = Nodes { nodes: self.nodes, front: self.front, back: self.front, len: self.len };
        None
    }

    /// Returns the number of nodes left.
    pub fn len(&self) -> (r: usize)
        ensures
            r == self@.len(),
    {
        proof {
            use_type_invariant(self);
        }
        self.len
    }

    /// Consumes the iterator and returns the number of nodes left.
    pub fn count(self) -> (r: usize)
        ensures
            r == self@.len(),
    {
        self.len()
    }

    /// Returns the exact number of nodes left, as lower and upper bounds.
    pub fn size_hint(&self) -> (r: (usize, Option<usize>))
        ensures
            r.0 == self@.len(),
            r.1 == Some(self@.len() as usize),
    {
        let n = self.len();
        (n, Some(n))
    }
}

impl<'a> Clone for Nodes<'a> {
    fn clone(&self) -> (r: Nodes<'a>)
        ensures
            r == *self,
    {
        proof {
            use_type_invariant(self);
        }
        Nodes { nodes: self.nodes, front: self.front, back: self.back, len: self.len }
    }
}

/// Iterator over the ports of a graph, in increasing index order.
#[derive(Debug)]
pub struct Ports<'a> {
    ports: &'a [PortEntry],
    front: usize,
    back: usize,
    len: usize,
}

impl<'a> View for Ports<'a> {
    type V = Seq<nat>;

    /// The port indices left, in order.
    closed spec fn view(&self) -> Seq<nat> {
        indices_where(port_slot_used(self.ports@), self.front as int, self.back as int)
    }
}

impl<'a> Ports<'a> {
    #[verifier::type_invariant]
    spec fn inv(self) -> bool {
        &&& self.front <= self.back <= self.ports@.len() <= MAX_INDEX + 1
        &&& self.len == self@.len()
    }

    /// An iterator over all the ports among the given slots.
    pub(crate) fn new(ports: &'a [PortEntry], len: usize) -> (r: Ports<'a>)
        requires
            ports@.len() <= MAX_INDEX + 1,
            len == indices_where(port_slot_used(ports@), 0, ports@.len() as int).len(),
        ensures
            r@ == indices_where(port_slot_used(ports@), 0, ports@.len() as int),
    {
        Ports { ports, front: 0, back: ports.len(), len }
    }

    /// Returns the next port.
    pub fn next(&mut self) -> (r: Option<PortIndex>)
        ensures
            old(self)@.len() > 0 ==> r is Some && r.unwrap()@ == old(self)@[0] && final(self)@
                == old(self)@.drop_first(),
            old(self)@.len() == 0 ==> r is None && final(self)@ == old(self)@,
    {
        proof {
            use_type_invariant(&*self);
        }
        let ghost p = port_slot_used(self.ports@);
        let mut i = self.front;
        while i < self.back
            invariant
                self.front <= i <= self.back <= self.ports@.len(),
                p == port_slot_used(self.ports@),
                self.ports@.len() <= MAX_INDEX + 1,
                self@ == indices_where(p, i as int, self.back as int),
                *self == *old(self),
                self.len == self@.len(),
            decreases self.back - i,
        {
            if self.ports[i].as_meta().is_some() {
                proof {
                    assert(p(i as int));
                    lemma_indices_where_props(p, i + 1, self.back as int);
                }
                *self = Ports { ports: self.ports, front: i + 1, back: self.back, len: self.len - 1 };
                return Some(PortIndex::new(i));
            }
            i = i + 1;
        }
        *self = Ports { ports: self.ports, front: self.back, back: self.back, len: self.len };
        None
    }

    /// Returns the last port.
    pub fn next_back(&mut self) -> (r: Option<PortIndex>)
        ensures
            old(self)@.len() > 0 ==> r is Some && r.unwrap()@ == old(self)@.last() && final(self)@
                == old(self)@.drop_last(),
            old(self)@.len() == 0 ==> r is None && final(self)@ == old(self)@,
    {
        proof {
            use_type_invariant(&*self);
        }
        let ghost p = port_slot_used(self.ports@);
        let mut j = self.back;
        while j > self.front
            invariant
                self.front <= j <= self.back <= self.ports@.len(),
                p == port_slot_used(self.ports@),
                self.ports@.len() <= MAX_INDEX + 1,
                self@ == indices_where(p, self.front as int, j as int),
                *self == *old(self),
                self.len == self@.len(),
            decreases j,
        {
            proof {
                lemma_indices_where_snoc(p, self.front as int, j as int);
            }
            if !self.ports[j - 1].is_free() {
                proof {
                    assert(p(j - 1));
                }
                *self = Ports { ports: self.ports, front: self.front, back: j - 1, len: self.len - 1 };
                return Some(PortIndex::new(j - 1));
            }
            j = j - 1;
        }
        *self = Ports { ports: self.ports, front: self.front, back: self.front, len: self.len };
        None
    }

    /// Returns the number of ports left.
    pub fn len(&self) -> (r: usize)
        ensures
            r == self@.len(),
    {
        proof {
            use_type_invariant(self);
        }
        self.len
    }

    /// Consumes the iterator and returns the number of ports left.
    pub fn count(self) -> (r: usize)
        ensures
            r == self@.len(),
    {
        self.len()
    }

    /// Returns the exact number of ports left, as lower and upper bounds.
    pub fn size_hint(&self) -> (r: (usize, Option<usize>))
        ensures
            r.0 == self@.len(),
            r.1 == Some(self@.len() as usize),
    {
        let n = self.len();
        (n, Some(n))
    }
}

impl<'a> Clone for Ports<'a> {
    fn clone(&self) -> (r: Ports<'a>)
        ensures
            r == *self,
    {
        proof {
            use_type_invariant(self);
        }
        Ports { ports: self.ports, front: self.front, back: self.back, len: self.len }
    }
}

/// The offsets `lo..hi` in a direction, in order.
pub open spec fn offset_seq(dir: Direction, lo: int, hi: int) -> Seq<(Direction, nat)> {
    range_seq(lo, hi).map_values(|i: nat| (dir, i))
}

/// Iterator over the port offsets of a node: the incoming ones, then the
/// outgoing ones.
#[derive(Debug)]
pub struct NodePortOffsets {
    incoming: Range<usize>,
    outgoing: Range<usize>,
}

impl View for NodePortOffsets {
    type V = Seq<(Direction, nat)>;

    /// The offsets left, in order.
    closed spec fn view(&self) -> Seq<(Direction, nat)> {
        offset_seq(Direction::Incoming, self.incoming.start as int, self.incoming.end as int)
            + offset_seq(Direction::Outgoing, self.outgoing.start as int, self.outgoing.end as int)
    }
}

impl NodePortOffsets {
    #[verifier::type_invariant]
    spec fn inv(self) -> bool {
        &&& self.incoming.start <= self.incoming.end <= u16::MAX + 1
        &&& self.outgoing.start <= self.outgoing.end <= u16::MAX + 1
    }

    /// The offsets left in a direction, as a range.
    pub closed spec fn range_of(self, dir: Direction) -> Range<usize> {
        match dir {
            Direction::Incoming => self.incoming,
            Direction::Outgoing => self.outgoing,
        }
    }

    /// The offsets left are those of the incoming range, then those of the
    /// outgoing range.
    pub proof fn lemma_view_is_ranges(it: NodePortOffsets)
        ensures
            it@ == offset_seq(
                Direction::Incoming,
                it.range_of(Direction::Incoming).start as int,
                it.range_of(Direction::Incoming).end as int,
            ) + offset_seq(
                Direction::Outgoing,
                it.range_of(Direction::Outgoing).start as int,
                it.range_of(Direction::Outgoing).end as int,
            ),
    {
    }

    /// An iterator over incoming offsets `0..incoming`, then outgoing
    /// offsets `0..outgoing`.
    pub(crate) fn new(incoming: usize, outgoing: usize) -> (r: NodePortOffsets)
        requires
            incoming <= u16::MAX + 1,
            outgoing <= u16::MAX + 1,
        ensures
            range_is(r.range_of(Direction::Incoming), 0, incoming as nat),
            range_is(r.range_of(Direction::Outgoing), 0, outgoing as nat),
            r@ == offset_seq(Direction::Incoming, 0, incoming as int) + offset_seq(
                Direction::Outgoing,
                0,
                outgoing as int,
            ),
    {
        NodePortOffsets { incoming: 0..incoming, outgoing: 0..outgoing }
    }

    /// Returns the offsets left in a direction, as a range.
    pub fn as_range(&self, dir: Direction) -> (r: &Range<usize>)
        ensures
            *r == self.range_of(dir),
    {
        match dir {
            Direction::Incoming => &self.incoming,
            Direction::Outgoing => &self.outgoing,
        }
    }

    /// Returns the next offset.
    pub fn next(&mut self) -> (r: Option<PortOffset>)
        ensures
            old(self)@.len() > 0 ==> r is Some && r.unwrap()@ == old(self)@[0] && final(self)@
                == old(self)@.drop_first(),
            old(self)@.len() == 0 ==> r is None && final(self)@ == old(self)@,
            ({
                let inc = old(self).range_of(Direction::Incoming);
                let out = old(self).range_of(Direction::Outgoing);
                &&& inc.start < inc.end ==> {
                    &&& r is Some && r.unwrap()@ == (Direction::Incoming, inc.start as nat)
                    &&& range_is(final(self).range_of(Direction::Incoming), (inc.start + 1) as nat, inc.end as nat)
                    &&& final(self).range_of(Direction::Outgoing) == out
                }
                &&& inc.start >= inc.end && out.start < out.end ==> {
                    &&& r is Some && r.unwrap()@ == (Direction::Outgoing, out.start as nat)
                    &&& final(self).range_of(Direction::Incoming) == inc
                    &&& range_is(final(self).range_of(Direction::Outgoing), (out.start + 1) as nat, out.end as nat)
                }
                &&& inc.start >= inc.end && out.start >= out.end ==> r is None && *final(self)
                    == *old(self)
            }),
    {
        proof {
            use_type_invariant(&*self);
        }
        let ghost a = offset_seq(Direction::Incoming, self.incoming.start as int, self.incoming.end as int);
        let ghost b = offset_seq(Direction::Outgoing, self.outgoing.start as int, self.outgoing.end as int);
        if self.incoming.start < self.incoming.end {
            let i = self.incoming.start;
            self.incoming = (i + 1)..self.incoming.end;
            proof {
                assert(self@ =~= old(self)@.drop_first());
            }
            return Some(PortOffset::new_incoming(i));
        }
        if self.outgoing.start < self.outgoing.end {
            let i = self.outgoing.start;
            self.outgoing = (i + 1)..self.outgoing.end;
            proof {
                assert(a.len() == 0);
                assert(self@ =~= old(self)@.drop_first());
            }
            return Some(PortOffset::new_outgoing(i));
        }
        proof {
            assert(old(self)@ =~= Seq::<(Direction, nat)>::empty());
        }
        None
    }

    /// Returns the last offset.
    pub fn next_back(&mut self) -> (r: Option<PortOffset>)
        ensures
            old(self)@.len() > 0 ==> r is Some && r.unwrap()@ == old(self)@.last() && final(self)@
                == old(self)@.drop_last(),
            old(self)@.len() == 0 ==> r is None && final(self)@ == old(self)@,
            ({
                let inc = old(self).range_of(Direction::Incoming);
                let out = old(self).range_of(Direction::Outgoing);
                &&& out.start < out.end ==> {
                    &&& r is Some && r.unwrap()@ == (Direction::Outgoing, (out.end - 1) as nat)
                    &&& final(self).range_of(Direction::Incoming) == inc
                    &&& range_is(final(self).range_of(Direction::Outgoing), out.start as nat, (out.end - 1) as nat)
                }
                &&& out.start >= out.end && inc.start < inc.end ==> {
                    &&& r is Some && r.unwrap()@ == (Direction::Incoming, (inc.end - 1) as nat)
                    &&& range_is(final(self).range_of(Direction::Incoming), inc.start as nat, (inc.end - 1) as nat)
                    &&& final(self).range_of(Direction::Outgoing) == out
                }
                &&& out.start >= out.end && inc.start >= inc.end ==> r is None && *final(self)
                    == *old(self)
            }),
    {
        proof {
            use_type_invariant(&*self);
        }
        let ghost a = offset_seq(Direction::Incoming, self.incoming.start as int, self.incoming.end as int);
        let ghost b = offset_seq(Direction::Outgoing, self.outgoing.start as int, self.outgoing.end as int);
        if self.outgoing.start < self.outgoing.end {
            let i = self.outgoing.end - 1;
            self.outgoing = self.outgoing.start..i;
            proof {
                assert(self@ =~= old(self)@.drop_last());
            }
            return Some(PortOffset::new_outgoing(i));
        }
        if self.incoming.start < self.incoming.end {
            let i = self.incoming.end - 1;
            self.incoming = self.incoming.start..i;
            proof {
                assert(b.len() == 0);
                assert(self@ =~= old(self)@.drop_last());
            }
            return Some(PortOffset::new_incoming(i));
        }
        proof {
            assert(old(self)@ =~= Seq::<(Direction, nat)>::empty());
        }
        None
    }

    /// Returns the number of offsets left.
    pub fn len(&self) -> (r: usize)
        ensures
            r == self@.len(),
            r == (self.range_of(Direction::Incoming).end - self.range_of(Direction::Incoming).start)
                + (self.range_of(Direction::Outgoing).end - self.range_of(Direction::Outgoing).start),
    {
        proof {
            use_type_invariant(self);
        }
        (self.incoming.end - self.incoming.start) + (self.outgoing.end - self.outgoing.start)
    }

    /// Consumes the iterator and returns the number of offsets left.
    pub fn count(self) -> (r: usize)
        ensures
            r == self@.len(),
    {
        self.len()
    }

    /// Returns the exact number of offsets left, as lower and upper bounds.
    pub fn size_hint(&self) -> (r: (usize, Option<usize>))
        ensures
            r.0 == self@.len(),
            r.1 == Some(self@.len() as usize),
    {
        let n = self.len();
        (n, Some(n))
    }
}

impl Clone for NodePortOffsets {
    fn clone(&self) -> (r: NodePortOffsets)
        ensures
            r == *self,
    {
        proof {
            use_type_invariant(self);
        }
        NodePortOffsets {
            incoming: self.incoming.start..self.incoming.end,
            outgoing: self.outgoing.start..self.outgoing.end,
        }
    }
}

impl Default for NodePortOffsets {
    fn default() -> (r: NodePortOffsets)
        ensures
            r@.len() == 0,
    {
        NodePortOffsets { incoming: 0..0, outgoing: 0..0 }
    }
}

/// The pair at position `k` of a run of link slots whose first slot belongs
/// to port `first`: the port and the port it is linked to, if any.
pub open spec fn link_pair(first: nat, links: Seq<MaybePortIndex>, k: int) -> Option<(nat, nat)> {
    if 0 <= k < links.len() {
        match links[k]@ {
            Some(t) => Some(((first + k) as nat, t)),
            None => None,
        }
    } else {
        None
    }
}

/// Positions whose pair exists and whose target lies outside `lo..hi`.
pub open spec fn forward_pred(first: nat, links: Seq<MaybePortIndex>, lo: nat, hi: nat) -> spec_fn(
    int,
) -> bool {
    |k: int|
        link_pair(first, links, k) is Some && !(lo <= link_pair(first, links, k).unwrap().1 < hi)
}

/// Iterator over the links of some ports of a node. Yields each linked port
/// with the port it is linked to.
///
/// Links whose target lies in the ignored range are skipped in both
/// directions, so that a link between two ports of the same node is reported
/// once.
#[derive(Debug)]
pub struct NodeLinks<'a> {
    first_port: usize,
    links: &'a [MaybePortIndex],
    front: usize,
    back: usize,
    ignore_target_ports: Range<usize>,
}

impl<'a> NodeLinks<'a> {
    #[verifier::type_invariant]
    spec fn inv(self) -> bool {
        &&& self.front <= self.back <= self.links@.len()
        &&& self.first_port + self.back <= MAX_INDEX + 1
    }

    /// The port of the first link slot.
    pub closed spec fn first_port(self) -> nat {
        self.first_port as nat
    }

    /// The link slots, one per port from the first port on.
    pub closed spec fn slots(self) -> Seq<MaybePortIndex> {
        self.links@
    }

    /// Position of the first slot left.
    pub closed spec fn front(self) -> nat {
        self.front as nat
    }

    /// One past the position of the last slot left.
    pub closed spec fn back(self) -> nat {
        self.back as nat
    }

    /// Start of the range of ignored targets.
    pub closed spec fn ignore_lo(self) -> nat {
        self.ignore_target_ports.start as nat
    }

    /// End of the range of ignored targets.
    pub closed spec fn ignore_hi(self) -> nat {
        self.ignore_target_ports.end as nat
    }

    /// The pair at position `k`.
    pub open spec fn pair_at(self, k: int) -> Option<(nat, nat)> {
        link_pair(self.first_port(), self.slots(), k)
    }

    /// Positions of the pairs left, in order.
    pub open spec fn forward_positions(self) -> Seq<nat> {
        indices_where(
            forward_pred(self.first_port(), self.slots(), self.ignore_lo(), self.ignore_hi()),
            self.front() as int,
            self.back() as int,
        )
    }

    /// The pairs left, in order.
    pub open spec fn forward_items(self) -> Seq<(nat, nat)> {
        self.forward_positions().map_values(|k: nat| self.pair_at(k as int).unwrap())
    }

    /// Both iterators read the same slots with the same ignored range.
    pub open spec fn same_source(self, other: NodeLinks) -> bool {
        &&& self.first_port() == other.first_port()
        &&& self.slots() == other.slots()
        &&& self.ignore_lo() == other.ignore_lo()
        &&& self.ignore_hi() == other.ignore_hi()
    }

    /// `next` is this iterator after one forward step.
    pub open spec fn stepped_forward(self, next: NodeLinks) -> bool {
        &&& self.same_source(next)
        &&& next.back() == self.back()
        &&& next.front() == if self.forward_positions().len() > 0 {
            self.forward_positions()[0] + 1
        } else {
            self.back()
        }
    }

    /// `next` is this iterator after one backward step.
    pub open spec fn stepped_backward(self, next: NodeLinks) -> bool {
        &&& self.same_source(next)
        &&& next.front() == self.front()
        &&& next.back() == if self.forward_positions().len() > 0 {
            self.forward_positions().last()
        } else {
            self.front()
        }
    }

    /// Creates an iterator pairing the ports of `ports` with the link slots
    /// `links`, as far as both go. Links to targets in
    /// `ignore_target_ports` are skipped.
    pub fn new(ports: NodePorts, links: &'a [MaybePortIndex], ignore_target_ports: Range<usize>) -> (r:
        NodeLinks<'a>)
        ensures
            r.first_port() == ports.start(),
            r.slots() == links@,
            r.front() == 0,
            r.back() == if ports@.len() <= links@.len() {
                ports@.len()
            } else {
                links@.len()
            },
            r.ignore_lo() == ignore_target_ports.start,
            r.ignore_hi() == ignore_target_ports.end,
    {
        proof {
            use_type_invariant(&ports);
        }
        let n = ports.len();
        let back = if n <= links.len() {
            n
        } else {
            links.len()
        };
        NodeLinks { first_port: ports.indices.start, links, front: 0, back, ignore_target_ports }
    }

    /// Returns the next linked port, with the port it is linked to, skipping
    /// links to ignored targets.
    pub fn next(&mut self) -> (r: Option<(PortIndex, PortIndex)>)
        ensures
            old(self).stepped_forward(*final(self)),
            old(self).forward_positions().len() > 0 ==> r is Some && (r.unwrap().0@, r.unwrap().1@)
                == old(self).forward_items()[0],
            old(self).forward_positions().len() == 0 ==> r is None,
            final(self).forward_positions() == if old(self).forward_positions().len() > 0 {
                old(self).forward_positions().drop_first()
            } else {
                Seq::empty()
            },
            old(self).front() <= final(self).front() <= final(self).back(),
    {
        proof {
            use_type_invariant(&*self);
        }
        let ghost p = forward_pred(self.first_port(), self.slots(), self.ignore_lo(), self.ignore_hi());
        let mut i = self.front;
        while i < self.back
            invariant
                self.front <= i <= self.back <= self.links@.len(),
                self.first_port + self.back <= MAX_INDEX + 1,
                *self == *old(self),
                p == forward_pred(self.first_port(), self.slots(), self.ignore_lo(), self.ignore_hi()),
                indices_where(p, i as int, self.back as int) == old(self).forward_positions(),
            decreases self.back - i,
        {
            match self.links[i].to_option() {
                Some(link) => {
                    let t = link.index();
                    if !(self.ignore_target_ports.start <= t && t < self.ignore_target_ports.end) {
                        proof {
                            assert(p(i as int));
                            lemma_indices_where_props(p, i + 1, self.back as int);
                        }
                        let port = PortIndex::new(self.first_port + i);
                        *self = NodeLinks {
                            first_port: self.first_port,
                            links: self.links,
                            front: i + 1,
                            back: self.back,
                            ignore_target_ports: self.ignore_target_ports.start..self.ignore_target_ports.end,
                        };
                        return Some((port, link));
                    }
                },
                None => {},
            }
            i = i + 1;
        }
        *self = NodeLinks {
            first_port: self.first_port,
            links: self.links,
            front: self.back,
            back: self.back,
            ignore_target_ports: self.ignore_target_ports.start..self.ignore_target_ports.end,
        };
        None
    }

    /// Returns the last linked port, with the port it is linked to, skipping
    /// links to ignored targets.
    pub fn next_back(&mut self) -> (r: Option<(PortIndex, PortIndex)>)
        ensures
            old(self).stepped_backward(*final(self)),
            old(self).forward_positions().len() > 0 ==> r is Some && Some(
                (r.unwrap().0@, r.unwrap().1@),
            ) == old(self).pair_at(old(self).forward_positions().last() as int) && (
                r.unwrap().0@,
                r.unwrap().1@,
            ) == old(self).forward_items().last(),
            old(self).forward_positions().len() == 0 ==> r is None,
            final(self).forward_positions() == if old(self).forward_positions().len() > 0 {
                old(self).forward_positions().drop_last()
            } else {
                Seq::empty()
            },
            old(self).front() <= final(self).front() <= final(self).back() <= old(self).back(),
    {
        proof {
            use_type_invariant(&*self);
        }
        let ghost p = forward_pred(self.first_port(), self.slots(), self.ignore_lo(), self.ignore_hi());
        let mut j = self.back;
        while j > self.front
            invariant
                self.front <= j <= self.back <= self.links@.len(),
                self.first_port + self.back <= MAX_INDEX + 1,
                *self == *old(self),
                p == forward_pred(self.first_port(), self.slots(), self.ignore_lo(), self.ignore_hi()),
                indices_where(p, self.front as int, j as int) == old(self).forward_positions(),
            decreases j,
        {
            proof {
                lemma_indices_where_snoc(p, self.front as int, j as int);
            }
            match self.links[j - 1].to_option() {
                Some(link) => {
                    let t = link.index();
                    if !(self.ignore_target_ports.start <= t && t < self.ignore_target_ports.end) {
                        proof {
                            assert(p(j - 1));
                        }
                        let port = PortIndex::new(self.first_port + (j - 1));
                        *self = NodeLinks {
                            first_port: self.first_port,
                            links: self.links,
                            front: self.front,
                            back: j - 1,
                            ignore_target_ports: self.ignore_target_ports.start..self.ignore_target_ports.end,
                        };
                        return Some((port, link));
                    }
                },
                None => {},
            }
            j = j - 1;
        }
        *self = NodeLinks {
            first_port: self.first_port,
            links: self.links,
            front: self.front,
            back: self.front,
            ignore_target_ports: self.ignore_target_ports.start..self.ignore_target_ports.end,
        };
        None
    }

    /// Returns bounds on the number of links left: at least none, and at
    /// most the number of slots left.
    pub fn size_hint(&self) -> (r: (usize, Option<usize>))
        ensures
            r.0 == 0,
            r.1 == Some((self.back() - self.front()) as usize),
    {
        proof {
            use_type_invariant(self);
        }
        (0, Some(self.back - self.front))
    }
}

impl<'a> Clone for NodeLinks<'a> {
    fn clone(&self) -> (r: NodeLinks<'a>)
        ensures
            r == *self,
    {
        proof {
            use_type_invariant(self);
        }
        NodeLinks {
            first_port: self.first_port,
            links: self.links,
            front: self.front,
            back: self.back,
            ignore_target_ports: self.ignore_target_ports.start..self.ignore_target_ports.end,
        }
    }
}

/// A forward step drops the first item left, and a step on an exhausted
/// iterator leaves none.
pub proof fn lemma_forward_items_step(a: NodeLinks, b: NodeLinks)
    requires
        a.same_source(b),
        b.forward_positions() == if a.forward_positions().len() > 0 {
            a.forward_positions().drop_first()
        } else {
            Seq::empty()
        },
    ensures
        b.forward_items() == if a.forward_items().len() > 0 {
            a.forward_items().drop_first()
        } else {
            a.forward_items()
        },
{
    if a.forward_positions().len() > 0 {
        assert(b.forward_items() =~= a.forward_items().drop_first());
    } else {
        assert(b.forward_items() =~= a.forward_items());
    }
}

/// What a links iterator has left, from the front or from the back, are
/// exactly the slots left that hold a link whose target is not ignored, in
/// increasing position order; each item pairs the slot's port with its
/// target.
pub proof fn lemma_forward_positions(l: NodeLinks)
    ensures
        forall|i: int|
            0 <= i < l.forward_positions().len() ==> {
                let k = #[trigger] l.forward_positions()[i] as int;
                &&& l.front() <= k < l.back()
                &&& l.slots()[k]@ is Some
                &&& !(l.ignore_lo() <= l.slots()[k]@.unwrap() < l.ignore_hi())
                &&& l.forward_items()[i] == ((l.first_port() + k) as nat, l.slots()[k]@.unwrap())
            },
        forall|i: int, j: int|
            0 <= i < j < l.forward_positions().len() ==> #[trigger] l.forward_positions()[i]
                < #[trigger] l.forward_positions()[j],
        forall|k: int|
            l.front() <= k < l.back() && k < l.slots().len() && #[trigger] l.slots()[k]@ is Some && !(
            l.ignore_lo() <= l.slots()[k]@.unwrap() < l.ignore_hi())
                ==> l.forward_positions().contains(k as nat),
{
    let pr = forward_pred(l.first_port(), l.slots(), l.ignore_lo(), l.ignore_hi());
    crate::portgraph::lemma_indices_where_props(pr, l.front() as int, l.back() as int);
    assert forall|i: int| 0 <= i < l.forward_positions().len() implies {
        let k = #[trigger] l.forward_positions()[i] as int;
        &&& l.front() <= k < l.back()
        &&& l.slots()[k]@ is Some
        &&& !(l.ignore_lo() <= l.slots()[k]@.unwrap() < l.ignore_hi())
        &&& l.forward_items()[i] == ((l.first_port() + k) as nat, l.slots()[k]@.unwrap())
    } by {
        assert(pr(l.forward_positions()[i] as int));
    }
    assert forall|k: int|
        l.front() <= k < l.back() && k < l.slots().len() && #[trigger] l.slots()[k]@ is Some && !(
        l.ignore_lo() <= l.slots()[k]@.unwrap() < l.ignore_hi()) implies l.forward_positions().contains(
        k as nat,
    ) by {
        assert(pr(k));
    }
}

/// A backward step drops the last item left, and a step on an exhausted
/// iterator leaves none: going backward yields the forward items in reverse.
pub proof fn lemma_backward_items_step(a: NodeLinks, b: NodeLinks)
    requires
        a.same_source(b),
        b.forward_positions() == if a.forward_positions().len() > 0 {
            a.forward_positions().drop_last()
        } else {
            Seq::empty()
        },
    ensures
        b.forward_items() == if a.forward_items().len() > 0 {
            a.forward_items().drop_last()
        } else {
            a.forward_items()
        },
{
    if a.forward_positions().len() > 0 {
        assert(b.forward_items() =~= a.forward_items().drop_last());
    } else {
        assert(b.forward_items() =~= a.forward_items());
    }
}

/// Every link left in `links` targets a port of graph `g`.
pub open spec fn targets_in(links: NodeLinks, g: PortGraphView) -> bool {
    forall|k: int|
        links.front() <= k < links.back() && #[trigger] links.pair_at(k) is Some ==> g.contains_port(
            links.pair_at(k).unwrap().1,
        )
}

/// Iterator over the neighbours of a node: the nodes of the ports its links
/// lead to. A node appears once per link to it.
#[derive(Debug)]
pub struct Neighbours<'a> {
    graph: &'a PortGraph,
    linked_ports: NodeLinks<'a>,
}

impl<'a> Neighbours<'a> {
    #[verifier::type_invariant]
    spec fn inv(self) -> bool {
        targets_in(self.linked_ports, self.graph@)
    }

    /// The graph the neighbours are taken from.
    pub closed spec fn graph_view(self) -> PortGraphView {
        self.graph@
    }

    /// The links left.
    pub closed spec fn links(self) -> NodeLinks<'a> {
        self.linked_ports
    }

    /// Creates an iterator over the nodes at the other end of `links`. Each
    /// link left must lead to a port of `graph`.
    pub fn from_node_links(graph: &'a PortGraph, links: NodeLinks<'a>) -> (r: Neighbours<'a>)
        requires
            targets_in(links, graph@),
        ensures
            r.graph_view() == graph@,
            r.links() == links,
    {
        Neighbours { graph, linked_ports: links }
    }

    /// Returns the node of the target of the next link.
    pub fn next(&mut self) -> (r: Option<NodeIndex>)
        ensures
            final(self).graph_view() == old(self).graph_view(),
            old(self).links().stepped_forward(final(self).links()),
            old(self).links().forward_positions().len() > 0 ==> r is Some && Some(r.unwrap()@)
                == old(self).graph_view().port_node(old(self).links().forward_items()[0].1),
            old(self).links().forward_positions().len() == 0 ==> r is None,
    {
        proof {
            use_type_invariant(&*self);
            let l = self.linked_ports;
            if l.forward_positions().len() > 0 {
                lemma_indices_where_props(
                    forward_pred(l.first_port(), l.slots(), l.ignore_lo(), l.ignore_hi()),
                    l.front() as int,
                    l.back() as int,
                );
                let k = l.forward_positions()[0] as int;
                assert(l.pair_at(k) is Some);
            }
        }
        let mut links = self.linked_ports.clone();
        let item = links.next();
        proof {
            let l0 = self.linked_ports;
            assert forall|k: int|
                links.front() <= k < links.back() && #[trigger] links.pair_at(k) is Some implies self.graph@.contains_port(
                links.pair_at(k).unwrap().1,
            ) by {
                assert(links.pair_at(k) == l0.pair_at(k));
            }
        }
        *self = Neighbours { graph: self.graph, linked_ports: links };
        match item {
            Some((_, port)) => Some(self.graph.port_node(port).unwrap()),
            None => None,
        }
    }

    /// Returns the node of the target of the last link.
    pub fn next_back(&mut self) -> (r: Option<NodeIndex>)
        ensures
            final(self).graph_view() == old(self).graph_view(),
            old(self).links().stepped_backward(final(self).links()),
            old(self).links().forward_positions().len() > 0 ==> r is Some && Some(r.unwrap()@)
                == old(self).graph_view().port_node(
                old(self).links().pair_at(old(self).links().forward_positions().last() as int).unwrap().1,
            ),
            old(self).links().forward_positions().len() == 0 ==> r is None,
    {
        proof {
            use_type_invariant(&*self);
            let l = self.linked_ports;
            if l.forward_positions().len() > 0 {
                lemma_indices_where_props(
                    forward_pred(l.first_port(), l.slots(), l.ignore_lo(), l.ignore_hi()),
                    l.front() as int,
                    l.back() as int,
                );
                let k = l.forward_positions().last() as int;
                assert(l.forward_positions()[l.forward_positions().len() - 1] == k);
                assert(l.pair_at(k) is Some);
            }
        }
        let mut links = self.linked_ports.clone();
        let item = links.next_back();
        proof {
            let l0 = self.linked_ports;
            assert forall|k: int|
                links.front() <= k < links.back() && #[trigger] links.pair_at(k) is Some implies self.graph@.contains_port(
                links.pair_at(k).unwrap().1,
            ) by {
                assert(links.pair_at(k) == l0.pair_at(k));
            }
        }
        *self = Neighbours { graph: self.graph, linked_ports: links };
        match item {
            Some((_, port)) => Some(self.graph.port_node(port).unwrap()),
            None => None,
        }
    }

    /// Returns bounds on the number of neighbours left.
    pub fn size_hint(&self) -> (r: (usize, Option<usize>))
        ensures
            r.0 == 0,
            r.1 == Some((self.links().back() - self.links().front()) as usize),
    {
        self.linked_ports.size_hint()
    }
}

/// Positions whose pair is yielded and leads to a port of node `target` in
/// `g`.
pub open spec fn connection_pred(
    g: PortGraphView,
    target: nat,
    first: nat,
    links: Seq<MaybePortIndex>,
    lo: nat,
    hi: nat,
) -> spec_fn(int) -> bool {
    |k: int|
        forward_pred(first, links, lo, hi)(k) && g.port_node(link_pair(first, links, k).unwrap().1)
            == Some(target)
}

/// Iterator over the links from some ports of a node to ports of a target
/// node.
#[derive(Debug)]
pub struct NodeConnections<'a> {
    graph: &'a PortGraph,
    target: NodeIndex,
    port_links: NodeLinks<'a>,
}

impl<'a> NodeConnections<'a> {
    /// The graph the links are taken from.
    pub closed spec fn graph_view(self) -> PortGraphView {
        self.graph@
    }

    /// The target node.
    pub closed spec fn target(self) -> nat {
        self.target@
    }

    /// The links left.
    pub closed spec fn links(self) -> NodeLinks<'a> {
        self.port_links
    }

    /// Positions of the links left that lead to the target.
    pub open spec fn connection_positions(self) -> Seq<nat> {
        let l = self.links();
        indices_where(
            connection_pred(
                self.graph_view(),
                self.target(),
                l.first_port(),
                l.slots(),
                l.ignore_lo(),
                l.ignore_hi(),
            ),
            l.front() as int,
            l.back() as int,
        )
    }

    /// The links left that lead to the target, in order.
    pub open spec fn connection_items_left(self) -> Seq<(nat, nat)> {
        self.connection_positions().map_values(|k: nat| self.links().pair_at(k as int).unwrap())
    }

    /// Creates an iterator over those of `links` that lead to a port of
    /// `target`.
    pub fn new(graph: &'a PortGraph, target: NodeIndex, links: NodeLinks<'a>) -> (r: NodeConnections<'a>)
        ensures
            r.graph_view() == graph@,
            r.target() == target@,
            r.links() == links,
    {
        NodeConnections { graph, target, port_links: links }
    }

    /// Returns the next link to the target.
    pub fn next(&mut self) -> (r: Option<(PortIndex, PortIndex)>)
        ensures
            final(self).graph_view() == old(self).graph_view(),
            final(self).target() == old(self).target(),
            final(self).links().same_source(old(self).links()),
            final(self).links().back() == old(self).links().back(),
            old(self).connection_positions().len() > 0 ==> {
                let k = old(self).connection_positions()[0];
                &&& r is Some
                &&& Some((r.unwrap().0@, r.unwrap().1@)) == old(self).links().pair_at(k as int)
                &&& final(self).links().front() == k + 1
            },
            old(self).connection_positions().len() == 0 ==> r is None && final(self).links().front()
                == old(self).links().back(),
            final(self).connection_positions() == if old(self).connection_positions().len() > 0 {
                old(self).connection_positions().drop_first()
            } else {
                Seq::empty()
            },
    {
        let ghost g = self.graph@;
        let ghost t = self.target@;
        proof {
            use_type_invariant(&self.port_links);
        }
        loop
            invariant
                self.graph@ == g,
                self.target@ == t,
                self.graph == old(self).graph,
                self.target == old(self).target,
                self.port_links.same_source(old(self).port_links),
                self.port_links.back() == old(self).port_links.back(),
                old(self).port_links.front() <= self.port_links.front() <= self.port_links.back(),
                self.connection_positions() == old(self).connection_positions(),
            decreases self.port_links.back() - self.port_links.front(),
        {
            let ghost l0 = self.port_links;
            let ghost fp = forward_pred(l0.first_port(), l0.slots(), l0.ignore_lo(), l0.ignore_hi());
            let ghost cp = connection_pred(
                g,
                t,
                l0.first_port(),
                l0.slots(),
                l0.ignore_lo(),
                l0.ignore_hi(),
            );
            proof {
                lemma_indices_where_ends(fp, l0.front() as int, l0.back() as int);
                lemma_indices_where_props(fp, l0.front() as int, l0.back() as int);
            }
            match self.port_links.next() {
                None => {
                    proof {
                        assert forall|j: int| l0.front() <= j < l0.back() implies !#[trigger] cp(j) by {
                            assert(!fp(j));
                        }
                        lemma_indices_where_skip(cp, l0.front() as int, l0.back() as int, l0.back() as int);
                    }
                    return None;
                },
                Some((src, tgt)) => {
                    let ghost k = l0.forward_positions()[0] as int;
                    proof {
                        assert forall|j: int| l0.front() <= j < k implies !#[trigger] cp(j) by {
                            assert(!fp(j));
                        }
                        lemma_indices_where_skip(cp, l0.front() as int, k, l0.back() as int);
                    }
                    let node = self.graph.port_node(tgt);
                    let hit = match node {
                        Some(n) => n == self.target,
                        None => false,
                    };
                    proof {
                        if node is Some {
                            NodeIndex::lemma_view_eq(node.unwrap(), self.target);
                        }
                        assert(fp(k));
                        assert(hit == cp(k));
                    }
                    if hit {
                        proof {
                            assert(indices_where(cp, k, l0.back() as int) == seq![k as nat]
                                + indices_where(cp, k + 1, l0.back() as int));
                        }
                        return Some((src, tgt));
                    }
                },
            }
        }
    }

    /// Returns the last link to the target.
    pub fn next_back(&mut self) -> (r: Option<(PortIndex, PortIndex)>)
        ensures
            final(self).graph_view() == old(self).graph_view(),
            final(self).target() == old(self).target(),
            final(self).links().same_source(old(self).links()),
            final(self).links().front() == old(self).links().front(),
            old(self).connection_positions().len() > 0 ==> {
                let k = old(self).connection_positions().last();
                &&& r is Some
                &&& Some((r.unwrap().0@, r.unwrap().1@)) == old(self).links().pair_at(k as int)
                &&& final(self).links().back() == k
            },
            old(self).connection_positions().len() == 0 ==> r is None && final(self).links().back()
                == old(self).links().front(),
            final(self).connection_positions() == if old(self).connection_positions().len() > 0 {
                old(self).connection_positions().drop_last()
            } else {
                Seq::empty()
            },
    {
        let ghost g = self.graph@;
        let ghost t = self.target@;
        proof {
            use_type_invariant(&self.port_links);
        }
        loop
            invariant
                self.graph@ == g,
                self.target@ == t,
                self.graph == old(self).graph,
                self.target == old(self).target,
                self.port_links.same_source(old(self).port_links),
                self.port_links.front() == old(self).port_links.front(),
                self.port_links.front() <= self.port_links.back() <= old(self).port_links.back(),
                self.connection_positions() == old(self).connection_positions(),
            decreases self.port_links.back() - self.port_links.front(),
        {
            let ghost l0 = self.port_links;
            let ghost fp = forward_pred(l0.first_port(), l0.slots(), l0.ignore_lo(), l0.ignore_hi());
            let ghost cp = connection_pred(g, t, l0.first_port(), l0.slots(), l0.ignore_lo(), l0.ignore_hi());
            proof {
                lemma_indices_where_ends(fp, l0.front() as int, l0.back() as int);
                lemma_indices_where_props(fp, l0.front() as int, l0.back() as int);
            }
            match self.port_links.next_back() {
                None => {
                    proof {
                        assert forall|j: int| l0.front() <= j < l0.back() implies !#[trigger] cp(j) by {
                            assert(!fp(j));
                        }
                        lemma_indices_where_skip(cp, l0.front() as int, l0.back() as int, l0.back() as int);
                    }
                    return None;
                },
                Some((src, tgt)) => {
                    let ghost k = l0.forward_positions().last() as int;
                    proof {
                        let n = l0.forward_positions().len();
                        assert(l0.forward_positions()[n - 1] == k);
                        lemma_indices_where_cut_top(cp, l0.front() as int, k, l0.back() as int);
                        assert forall|j: int| k < j < l0.back() implies !#[trigger] cp(j) by {
                            assert(!fp(j));
                        }
                    }
                    let node = self.graph.port_node(tgt);
                    let hit = match node {
                        Some(n) => n == self.target,
                        None => false,
                    };
                    proof {
                        if node is Some {
                            NodeIndex::lemma_view_eq(node.unwrap(), self.target);
                        }
                        assert(fp(k));
                        assert(hit == cp(k));
                        lemma_indices_where_snoc(cp, l0.front() as int, k + 1);
                    }
                    if hit {
                        return Some((src, tgt));
                    }
                },
            }
        }
    }

    /// Returns bounds on the number of links left.
    pub fn size_hint(&self) -> (r: (usize, Option<usize>))
        ensures
            r.0 == 0,
            r.1 == Some((self.links().back() - self.links().front()) as usize),
    {
        self.port_links.size_hint()
    }
}

/// What a connections iterator has left, from the front or from the back,
/// are exactly the links left in its slots whose target is not ignored and
/// is a port of the target node, in increasing position order.
pub proof fn lemma_connection_positions(c: NodeConnections)
    ensures
        forall|i: int|
            0 <= i < c.connection_positions().len() ==> {
                let k = #[trigger] c.connection_positions()[i] as int;
                &&& c.links().front() <= k < c.links().back()
                &&& c.links().pair_at(k) is Some
                &&& c.graph_view().port_node(c.links().pair_at(k).unwrap().1) == Some(c.target())
                &&& !(c.links().ignore_lo() <= c.links().pair_at(k).unwrap().1 < c.links().ignore_hi())
            },
        forall|i: int, j: int|
            0 <= i < j < c.connection_positions().len() ==> #[trigger] c.connection_positions()[i]
                < #[trigger] c.connection_positions()[j],
        forall|k: int|
            c.links().front() <= k < c.links().back() && #[trigger] c.links().pair_at(k) is Some
                && c.graph_view().port_node(c.links().pair_at(k).unwrap().1) == Some(c.target()) && !(
            c.links().ignore_lo() <= c.links().pair_at(k).unwrap().1 < c.links().ignore_hi())
                ==> c.connection_positions().contains(k as nat),
{
    let l = c.links();
    let pr = connection_pred(
        c.graph_view(),
        c.target(),
        l.first_port(),
        l.slots(),
        l.ignore_lo(),
        l.ignore_hi(),
    );
    crate::portgraph::lemma_indices_where_props(pr, l.front() as int, l.back() as int);
    assert forall|i: int| 0 <= i < c.connection_positions().len() implies {
        let k = #[trigger] c.connection_positions()[i] as int;
        &&& l.front() <= k < l.back()
        &&& l.pair_at(k) is Some
        &&& c.graph_view().port_node(l.pair_at(k).unwrap().1) == Some(c.target())
        &&& !(l.ignore_lo() <= l.pair_at(k).unwrap().1 < l.ignore_hi())
    } by {
        assert(pr(c.connection_positions()[i] as int));
    }
    assert forall|k: int|
        l.front() <= k < l.back() && #[trigger] l.pair_at(k) is Some && c.graph_view().port_node(
            l.pair_at(k).unwrap().1,
        ) == Some(c.target()) && !(l.ignore_lo() <= l.pair_at(k).unwrap().1 < l.ignore_hi())
        implies c.connection_positions().contains(k as nat) by {
        assert(pr(k));
    }
}

/// `links` runs over the link slots of ports `lo..hi` of `g`, from the
/// start.
pub open spec fn reads_ports(links: NodeLinks, g: PortGraphView, lo: nat, hi: nat) -> bool {
    &&& links.first_port() == lo
    &&& links.front() == 0
    &&& links.back() == hi - lo
    &&& lo <= hi <= g.links.len()
    &&& links.slots() == g.links.subrange(lo as int, hi as int)
}

/// Both ends of every link in the slots of `links` up to its back are
/// ports of `g`.
pub open spec fn endpoints_in(links: NodeLinks, g: PortGraphView) -> bool {
    forall|k: int|
        0 <= k < links.back() && #[trigger] links.pair_at(k) is Some ==> g.contains_port(
            links.pair_at(k).unwrap().0,
        ) && g.contains_port(links.pair_at(k).unwrap().1)
}

/// Links read from a well-formed graph join ports of that graph.
pub proof fn lemma_reads_ports_targets(links: NodeLinks, g: PortGraphView, lo: nat, hi: nat)
    requires
        g.wf(),
        reads_ports(links, g, lo, hi),
    ensures
        targets_in(links, g),
        endpoints_in(links, g),
{
    assert forall|k: int|
        0 <= k < links.back() && #[trigger] links.pair_at(k) is Some implies g.contains_port(
        links.pair_at(k).unwrap().0,
    ) && g.contains_port(links.pair_at(k).unwrap().1) by {
        let p = (lo + k) as nat;
        assert(links.slots()[k] == g.links[p as int]);
        assert(g.link(p) is Some);
        assert(g.link_ok(p));
    }
    assert forall|k: int|
        links.front() <= k < links.back() && #[trigger] links.pair_at(k) is Some implies g.contains_port(
        links.pair_at(k).unwrap().1,
    ) by {
        let p = (lo + k) as nat;
        assert(links.slots()[k] == g.links[p as int]);
        assert(g.link(p) is Some);
        assert(g.link_ok(p));
    }
}

/// The pairs that forward iteration yields from the link slots of ports
/// `lo..hi` of `g`, skipping targets in `ilo..ihi`.
pub open spec fn link_items(g: PortGraphView, lo: nat, hi: nat, ilo: nat, ihi: nat) -> Seq<(nat, nat)> {
    let slots = g.links.subrange(lo as int, hi as int);
    indices_where(forward_pred(lo, slots, ilo, ihi), 0, hi - lo).map_values(
        |k: nat| link_pair(lo, slots, k as int).unwrap(),
    )
}

/// The pairs that forward iteration over the links of `node` in `dir`
/// yields.
pub open spec fn node_link_items(g: PortGraphView, node: nat, dir: Direction) -> Seq<(nat, nat)> {
    if g.contains_node(node) {
        link_items(g, g.node_meta(node).dir_start(dir), g.node_meta(node).dir_end(dir), 0, 0)
    } else {
        Seq::empty()
    }
}

/// The pairs that forward iteration over all the links of `node` yields.
pub open spec fn node_all_link_items(g: PortGraphView, node: nat) -> Seq<(nat, nat)> {
    if g.contains_node(node) {
        let m = g.node_meta(node);
        link_items(
            g,
            m.first_port,
            m.first_port + m.port_count(),
            m.dir_start(Direction::Outgoing),
            m.dir_end(Direction::Outgoing),
        )
    } else {
        Seq::empty()
    }
}

/// The links from the outgoing ports of `from` to ports of node `to`, in
/// order.
pub open spec fn connection_items(g: PortGraphView, from: nat, to: nat) -> Seq<(nat, nat)> {
    if g.contains_node(from) {
        let lo = g.node_meta(from).dir_start(Direction::Outgoing);
        let hi = g.node_meta(from).dir_end(Direction::Outgoing);
        let slots = g.links.subrange(lo as int, hi as int);
        indices_where(connection_pred(g, to, lo, slots, 0, 0), 0, hi - lo).map_values(
            |k: nat| link_pair(lo, slots, k as int).unwrap(),
        )
    } else {
        Seq::empty()
    }
}

/// Ports `lo..hi` of `g` that have a link.
pub open spec fn linked_port_pred(g: PortGraphView) -> spec_fn(int) -> bool {
    |p: int| g.link(p as nat) is Some
}

/// Going forward with nothing ignored, the links of ports `lo..hi` are
/// those ports that have a link, in increasing order, each paired with the
/// port it is linked to.
pub proof fn lemma_link_items(g: PortGraphView, lo: nat, hi: nat)
    requires
        lo <= hi <= g.links.len(),
    ensures
        link_items(g, lo, hi, 0, 0) == indices_where(linked_port_pred(g), lo as int, hi as int).map_values(
            |p: nat| (p, g.link(p).unwrap()),
        ),
{
    let slots = g.links.subrange(lo as int, hi as int);
    let q = forward_pred(lo, slots, 0, 0);
    let pr = linked_port_pred(g);
    assert forall|k: int| 0 <= k < hi - lo implies #[trigger] q(k) == pr(lo + k) by {
        assert(slots[k] == g.links[lo + k]);
    }
    crate::portgraph::lemma_indices_where_shift(pr, q, lo as int, 0, (hi - lo) as int);
    let ks = indices_where(q, 0, (hi - lo) as int);
    crate::portgraph::lemma_indices_where_props(q, 0, (hi - lo) as int);
    assert forall|i: int| 0 <= i < ks.len() implies link_pair(lo, slots, ks[i] as int).unwrap() == (
        (ks[i] + lo) as nat,
        g.link((ks[i] + lo) as nat).unwrap(),
    ) by {
        assert(slots[ks[i] as int] == g.links[(lo + ks[i]) as int]);
    }
    assert(link_items(g, lo, hi, 0, 0) =~= indices_where(pr, lo as int, hi as int).map_values(
        |p: nat| (p, g.link(p).unwrap()),
    ));
}

/// The links read from ports `lo..hi` that skip targets in `ilo..ihi` are
/// exactly the ports of `lo..hi` that have a link to a port outside
/// `ilo..ihi`, each with that port, in increasing port order.
pub proof fn lemma_link_items_exact(g: PortGraphView, lo: nat, hi: nat, ilo: nat, ihi: nat)
    requires
        lo <= hi <= g.links.len(),
    ensures
        forall|i: int|
            0 <= i < link_items(g, lo, hi, ilo, ihi).len() ==> {
                let (p, q) = #[trigger] link_items(g, lo, hi, ilo, ihi)[i];
                &&& lo <= p < hi
                &&& g.link(p) == Some(q)
                &&& !(ilo <= q < ihi)
            },
        forall|i: int, j: int|
            0 <= i < j < link_items(g, lo, hi, ilo, ihi).len() ==> (#[trigger] link_items(
                g,
                lo,
                hi,
                ilo,
                ihi,
            )[i]).0 < (#[trigger] link_items(g, lo, hi, ilo, ihi)[j]).0,
        forall|p: nat|
            lo <= p < hi && #[trigger] g.link(p) is Some && !(ilo <= g.link(p).unwrap() < ihi) ==> exists|
                i: int,
            |
                0 <= i < link_items(g, lo, hi, ilo, ihi).len() && #[trigger] link_items(
                    g,
                    lo,
                    hi,
                    ilo,
                    ihi,
                )[i] == (p, g.link(p).unwrap()),
{
    let slots = g.links.subrange(lo as int, hi as int);
    let pr = forward_pred(lo, slots, ilo, ihi);
    let ks = indices_where(pr, 0, hi - lo);
    let items = link_items(g, lo, hi, ilo, ihi);
    crate::portgraph::lemma_indices_where_props(pr, 0, hi - lo);
    assert forall|i: int| 0 <= i < items.len() implies {
        let (p, q) = #[trigger] items[i];
        &&& lo <= p < hi
        &&& g.link(p) == Some(q)
        &&& !(ilo <= q < ihi)
    } by {
        let k = ks[i] as int;
        assert(pr(k));
        assert(slots[k] == g.links[lo + k]);
    }
    assert forall|i: int, j: int| 0 <= i < j < items.len() implies (#[trigger] items[i]).0 < (
    #[trigger] items[j]).0 by {
        assert(ks[i] < ks[j]);
        assert(pr(ks[i] as int) && pr(ks[j] as int));
    }
    assert forall|p: nat|
        lo <= p < hi && #[trigger] g.link(p) is Some && !(ilo <= g.link(p).unwrap() < ihi) implies exists|
        i: int,
    | 0 <= i < items.len() && #[trigger] items[i] == (p, g.link(p).unwrap()) by {
        let k = p - lo;
        assert(slots[k] == g.links[p as int]);
        assert(pr(k));
        assert(ks.contains(k as nat));
        let i = choose|i: int| 0 <= i < ks.len() && ks[i] == k as nat;
        assert(items[i] == (p, g.link(p).unwrap()));
    }
}

/// The links of a node in a direction are exactly its ports in that
/// direction that have a link, each with the port it is linked to, in
/// increasing port order; a link between two ports of the node is included.
/// A missing node has none.
pub proof fn lemma_node_link_items(g: PortGraphView, n: nat, d: Direction)
    requires
        g.wf(),
    ensures
        !g.contains_node(n) ==> node_link_items(g, n, d).len() == 0,
        forall|i: int|
            0 <= i < node_link_items(g, n, d).len() ==> {
                let (p, q) = #[trigger] node_link_items(g, n, d)[i];
                &&& g.contains_node(n)
                &&& g.node_meta(n).dir_start(d) <= p < g.node_meta(n).dir_end(d)
                &&& g.link(p) == Some(q)
            },
        forall|i: int, j: int|
            0 <= i < j < node_link_items(g, n, d).len() ==> (#[trigger] node_link_items(g, n, d)[i]).0
                < (#[trigger] node_link_items(g, n, d)[j]).0,
        forall|p: nat|
            g.contains_node(n) && g.node_meta(n).dir_start(d) <= p < g.node_meta(n).dir_end(d)
                && #[trigger] g.link(p) is Some ==> exists|i: int|
                0 <= i < node_link_items(g, n, d).len() && #[trigger] node_link_items(g, n, d)[i] == (
                    p,
                    g.link(p).unwrap(),
                ),
{
    if g.contains_node(n) {
        let m = g.node_meta(n);
        assert(g.node_ok(n));
        lemma_link_items_exact(g, m.dir_start(d), m.dir_end(d), 0, 0);
    }
}

/// The links of all the ports of a node are exactly its ports that have a
/// link to a port other than one of the node's own outgoing ports, each
/// with that port, in increasing port order. So a link between two ports of
/// the node appears once, from its incoming end's partner, the outgoing
/// port. A missing node has none.
pub proof fn lemma_node_all_link_items(g: PortGraphView, n: nat)
    requires
        g.wf(),
    ensures
        !g.contains_node(n) ==> node_all_link_items(g, n).len() == 0,
        forall|i: int|
            0 <= i < node_all_link_items(g, n).len() ==> {
                let (p, q) = #[trigger] node_all_link_items(g, n)[i];
                let m = g.node_meta(n);
                &&& g.contains_node(n)
                &&& m.first_port <= p < m.first_port + m.port_count()
                &&& g.link(p) == Some(q)
                &&& !(m.dir_start(Direction::Outgoing) <= q < m.dir_end(Direction::Outgoing))
            },
        forall|i: int, j: int|
            0 <= i < j < node_all_link_items(g, n).len() ==> (#[trigger] node_all_link_items(g, n)[i]).0
                < (#[trigger] node_all_link_items(g, n)[j]).0,
        forall|p: nat|
            g.contains_node(n) && g.node_meta(n).first_port <= p < g.node_meta(n).first_port
                + g.node_meta(n).port_count() && #[trigger] g.link(p) is Some && !(g.node_meta(
                n,
            ).dir_start(Direction::Outgoing) <= g.link(p).unwrap() < g.node_meta(n).dir_end(
                Direction::Outgoing,
            )) ==> exists|i: int|
                0 <= i < node_all_link_items(g, n).len() && #[trigger] node_all_link_items(g, n)[i]
                    == (p, g.link(p).unwrap()),
{
    if g.contains_node(n) {
        let m = g.node_meta(n);
        assert(g.node_ok(n));
        lemma_link_items_exact(
            g,
            m.first_port,
            m.first_port + m.port_count(),
            m.dir_start(Direction::Outgoing),
            m.dir_end(Direction::Outgoing),
        );
    }
}

/// The connections from `from` to `to` are exactly the outgoing ports of
/// `from` that are linked to a port of node `to`, each with that port, in
/// increasing port order. A missing `from` has none.
pub proof fn lemma_connection_items(g: PortGraphView, from: nat, to: nat)
    requires
        g.wf(),
    ensures
        !g.contains_node(from) ==> connection_items(g, from, to).len() == 0,
        forall|i: int|
            0 <= i < connection_items(g, from, to).len() ==> {
                let (p, q) = #[trigger] connection_items(g, from, to)[i];
                &&& g.contains_node(from)
                &&& g.node_meta(from).dir_start(Direction::Outgoing) <= p < g.node_meta(from).dir_end(
                    Direction::Outgoing,
                )
                &&& g.link(p) == Some(q)
                &&& g.port_node(q) == Some(to)
            },
        forall|i: int, j: int|
            0 <= i < j < connection_items(g, from, to).len() ==> (#[trigger] connection_items(
                g,
                from,
                to,
            )[i]).0 < (#[trigger] connection_items(g, from, to)[j]).0,
        forall|p: nat|
            g.contains_node(from) && g.node_meta(from).dir_start(Direction::Outgoing) <= p < g.node_meta(
                from,
            ).dir_end(Direction::Outgoing) && #[trigger] g.link(p) is Some && g.port_node(
                g.link(p).unwrap(),
            ) == Some(to) ==> exists|i: int|
                0 <= i < connection_items(g, from, to).len() && #[trigger] connection_items(
                    g,
                    from,
                    to,
                )[i] == (p, g.link(p).unwrap()),
{
    if g.contains_node(from) {
        let m = g.node_meta(from);
        assert(g.node_ok(from));
        let lo = m.dir_start(Direction::Outgoing);
        let hi = m.dir_end(Direction::Outgoing);
        let slots = g.links.subrange(lo as int, hi as int);
        let pr = connection_pred(g, to, lo, slots, 0, 0);
        let ks = indices_where(pr, 0, hi - lo);
        let items = connection_items(g, from, to);
        crate::portgraph::lemma_indices_where_props(pr, 0, hi - lo);
        assert forall|i: int| 0 <= i < items.len() implies {
            let (p, q) = #[trigger] items[i];
            &&& g.contains_node(from)
            &&& lo <= p < hi
            &&& g.link(p) == Some(q)
            &&& g.port_node(q) == Some(to)
        } by {
            let k = ks[i] as int;
            assert(pr(k));
            assert(slots[k] == g.links[lo + k]);
        }
        assert forall|i: int, j: int| 0 <= i < j < items.len() implies (#[trigger] items[i]).0 < (
        #[trigger] items[j]).0 by {
            assert(ks[i] < ks[j]);
            assert(pr(ks[i] as int) && pr(ks[j] as int));
        }
        assert forall|p: nat|
            lo <= p < hi && #[trigger] g.link(p) is Some && g.port_node(g.link(p).unwrap()) == Some(
                to,
            ) implies exists|i: int| 0 <= i < items.len() && #[trigger] items[i] == (p, g.link(p).unwrap()) by {
            let k = p - lo;
            assert(slots[k] == g.links[p as int]);
            assert(pr(k));
            assert(ks.contains(k as nat));
            let i = choose|i: int| 0 <= i < ks.len() && ks[i] == k as nat;
            assert(items[i] == (p, g.link(p).unwrap()));
        }
    }
}

/// Going forward over all the ports of a node, no link leads back to one of
/// the node's own outgoing ports: a self-link is seen once, from its
/// outgoing end's partner.
pub proof fn lemma_all_links_skip_own_outputs(g: PortGraphView, n: nat)
    ensures
        forall|i: int|
            0 <= i < node_all_link_items(g, n).len() ==> !g.node_meta(n).has_port(
                (#[trigger] node_all_link_items(g, n)[i]).1,
                Direction::Outgoing,
            ),
{
    if g.contains_node(n) {
        let m = g.node_meta(n);
        let lo = m.first_port;
        let hi = m.first_port + m.port_count();
        let slots = g.links.subrange(lo as int, hi as int);
        let fp = forward_pred(lo, slots, m.dir_start(Direction::Outgoing), m.dir_end(Direction::Outgoing));
        crate::portgraph::lemma_indices_where_props(fp, 0, (hi - lo) as int);
    }
}

/// An iterator that reads the link slots of ports `lo..hi` from the start
/// yields the pairs of [`link_items`].
pub proof fn lemma_reads_ports_items(links: NodeLinks, g: PortGraphView, lo: nat, hi: nat)
    requires
        reads_ports(links, g, lo, hi),
    ensures
        links.forward_items() == link_items(g, lo, hi, links.ignore_lo(), links.ignore_hi()),
{
    assert(links.forward_items() =~= link_items(g, lo, hi, links.ignore_lo(), links.ignore_hi()));
}

/// Iterator methods of [`PortGraph`].
impl PortGraph {
    /// Iterates over the ports of `node` in the given `direction`; empty if
    /// the node does not exist.
    pub fn _ports(&self, node: NodeIndex, direction: Direction) -> (r: NodePorts)
        ensures
            r.start() == if self@.contains_node(node@) {
                self@.node_meta(node@).dir_start(direction)
            } else {
                0
            },
            r.end() == if self@.contains_node(node@) {
                self@.node_meta(node@).dir_end(direction)
            } else {
                0
            },
            r@ == if self@.contains_node(node@) {
                range_seq(
                    self@.node_meta(node@).dir_start(direction) as int,
                    self@.node_meta(node@).dir_end(direction) as int,
                )
            } else {
                Seq::empty()
            },
    {
        proof {
            use_type_invariant(self);
        }
        match self.node_meta_valid(node) {
            Some(node_meta) => {
                proof {
                    assert(self@.node_ok(node@));
                }
                NodePorts::from_range(node_meta.ports(direction))
            },
            None => {
                let r = NodePorts::default();
                proof {
                    assert(r@ =~= Seq::<nat>::empty());
                }
                r
            },
        }
    }

    /// Iterates over the incoming ports of `node`.
    pub fn _inputs(&self, node: NodeIndex) -> (r: NodePorts)
        ensures
            r.start() == if self@.contains_node(node@) {
                self@.node_meta(node@).dir_start(Direction::Incoming)
            } else {
                0
            },
            r.end() == if self@.contains_node(node@) {
                self@.node_meta(node@).dir_end(Direction::Incoming)
            } else {
                0
            },
            r@ == if self@.contains_node(node@) {
                range_seq(
                    self@.node_meta(node@).dir_start(Direction::Incoming) as int,
                    self@.node_meta(node@).dir_end(Direction::Incoming) as int,
                )
            } else {
                Seq::empty()
            },
    {
        self._ports(node, Direction::Incoming)
    }

    /// Iterates over the outgoing ports of `node`.
    pub fn _outputs(&self, node: NodeIndex) -> (r: NodePorts)
        ensures
            r.start() == if self@.contains_node(node@) {
                self@.node_meta(node@).dir_start(Direction::Outgoing)
            } else {
                0
            },
            r.end() == if self@.contains_node(node@) {
                self@.node_meta(node@).dir_end(Direction::Outgoing)
            } else {
                0
            },
            r@ == if self@.contains_node(node@) {
                range_seq(
                    self@.node_meta(node@).dir_start(Direction::Outgoing) as int,
                    self@.node_meta(node@).dir_end(Direction::Outgoing) as int,
                )
            } else {
                Seq::empty()
            },
    {
        self._ports(node, Direction::Outgoing)
    }

    /// Iterates over the incoming and then the outgoing ports of `node`.
    pub fn _all_ports(&self, node: NodeIndex) -> (r: NodePorts)
        ensures
            r.start() == if self@.contains_node(node@) {
                self@.node_meta(node@).first_port
            } else {
                0
            },
            r.end() == if self@.contains_node(node@) {
                self@.node_meta(node@).first_port + self@.node_meta(node@).port_count()
            } else {
                0
            },
            r@ == if self@.contains_node(node@) {
                range_seq(
                    self@.node_meta(node@).first_port as int,
                    (self@.node_meta(node@).first_port + self@.node_meta(node@).port_count()) as int,
                )
            } else {
                Seq::empty()
            },
    {
        proof {
            use_type_invariant(self);
        }
        match self.node_meta_valid(node) {
            Some(node_meta) => {
                proof {
                    assert(self@.node_ok(node@));
                }
                NodePorts::from_range(node_meta.all_ports())
            },
            None => {
                let r = NodePorts::default();
                proof {
                    assert(r@ =~= Seq::<nat>::empty());
                }
                r
            },
        }
    }

    /// Iterates over the offsets of the ports of `node` in the given
    /// `direction`; empty if the node does not exist.
    pub fn _port_offsets(&self, node: NodeIndex, direction: Direction) -> (r: NodePortOffsets)
        ensures
            range_is(
                r.range_of(direction),
                0,
                if self@.contains_node(node@) {
                    self@.node_meta(node@).num_ports(direction)
                } else {
                    0
                },
            ),
            range_is(
                r.range_of(
                    match direction {
                        Direction::Incoming => Direction::Outgoing,
                        Direction::Outgoing => Direction::Incoming,
                    },
                ),
                0,
                0,
            ),
            r@ == offset_seq(
                direction,
                0,
                if self@.contains_node(node@) {
                    self@.node_meta(node@).num_ports(direction) as int
                } else {
                    0
                },
            ),
    {
        let r = match direction {
            Direction::Incoming => NodePortOffsets::new(self.num_inputs(node), 0),
            Direction::Outgoing => NodePortOffsets::new(0, self.num_outputs(node)),
        };
        proof {
            assert(offset_seq(Direction::Incoming, 0, 0) =~= Seq::<(Direction, nat)>::empty());
            assert(offset_seq(Direction::Outgoing, 0, 0) =~= Seq::<(Direction, nat)>::empty());
            assert(r@ =~= offset_seq(
                direction,
                0,
                if self@.contains_node(node@) {
                    self@.node_meta(node@).num_ports(direction) as int
                } else {
                    0
                },
            ));
        }
        r
    }

    /// Iterates over the offsets of the incoming and then the outgoing ports
    /// of `node`.
    pub fn _all_port_offsets(&self, node: NodeIndex) -> (r: NodePortOffsets)
        ensures
            range_is(
                r.range_of(Direction::Incoming),
                0,
                if self@.contains_node(node@) {
                    self@.node_meta(node@).incoming
                } else {
                    0
                },
            ),
            range_is(
                r.range_of(Direction::Outgoing),
                0,
                if self@.contains_node(node@) {
                    self@.node_meta(node@).outgoing
                } else {
                    0
                },
            ),
            r@ == offset_seq(
                Direction::Incoming,
                0,
                if self@.contains_node(node@) {
                    self@.node_meta(node@).incoming as int
                } else {
                    0
                },
            ) + offset_seq(
                Direction::Outgoing,
                0,
                if self@.contains_node(node@) {
                    self@.node_meta(node@).outgoing as int
                } else {
                    0
                },
            ),
    {
        NodePortOffsets::new(self.num_inputs(node), self.num_outputs(node))
    }

    /// Iterates over the nodes of the graph, in increasing index order.
    pub fn _nodes_iter(&self) -> (r: Nodes<'_>)
        ensures
            r@ == self@.node_indices(),
    {
        proof {
            use_type_invariant(self);
        }
        Nodes::new(self.node_entries(), self.node_count())
    }

    /// Iterates over the ports of the graph, in increasing index order.
    pub fn _ports_iter(&self) -> (r: Ports<'_>)
        ensures
            r@ == self@.port_indices(),
    {
        proof {
            use_type_invariant(self);
        }
        Ports::new(self.port_entries(), self.port_count())
    }
    /// Iterates over the links of the ports of `node` in `direction`:
    /// each linked port with the port it is linked to.
    pub fn _links(&self, node: NodeIndex, direction: Direction) -> (r: NodeLinks<'_>)
        ensures
            self@.contains_node(node@) ==> reads_ports(
                r,
                self@,
                self@.node_meta(node@).dir_start(direction),
                self@.node_meta(node@).dir_end(direction),
            ),
            !self@.contains_node(node@) ==> reads_ports(r, self@, 0, 0),
            r.ignore_lo() == 0,
            r.ignore_hi() == 0,
    {
        proof {
            use_type_invariant(self);
        }
        match self.node_meta_valid(node) {
            None => NodeLinks::new(
                self._ports(node, direction),
                vstd::slice::slice_subrange(self.link_entries(), 0, 0),
                0..0,
            ),
            Some(node_meta) => {
                proof {
                    assert(self@.node_ok(node@));
                }
                let indices = node_meta.ports(direction);
                NodeLinks::new(
                    self._ports(node, direction),
                    vstd::slice::slice_subrange(self.link_entries(), indices.start, indices.end),
                    0..0,
                )
            },
        }
    }

    /// Iterates over the links of all the ports of `node`. Links to the
    /// node's own outgoing ports are skipped going forward, so that each
    /// self-link is seen once.
    pub fn _all_links(&self, node: NodeIndex) -> (r: NodeLinks<'_>)
        ensures
            self@.contains_node(node@) ==> {
                let m = self@.node_meta(node@);
                &&& reads_ports(r, self@, m.first_port, m.first_port + m.port_count())
                &&& r.ignore_lo() == m.dir_start(Direction::Outgoing)
                &&& r.ignore_hi() == m.dir_end(Direction::Outgoing)
            },
            !self@.contains_node(node@) ==> reads_ports(r, self@, 0, 0) && r.ignore_lo() == 0
                && r.ignore_hi() == 0,
    {
        proof {
            use_type_invariant(self);
        }
        match self.node_meta_valid(node) {
            None => NodeLinks::new(
                self._all_ports(node),
                vstd::slice::slice_subrange(self.link_entries(), 0, 0),
                0..0,
            ),
            Some(node_meta) => {
                proof {
                    assert(self@.node_ok(node@));
                }
                let indices = node_meta.all_ports();
                NodeLinks::new(
                    self._all_ports(node),
                    vstd::slice::slice_subrange(self.link_entries(), indices.start, indices.end),
                    node_meta.outgoing_ports(),
                )
            },
        }
    }

    /// Iterates over the neighbours of `node` in `direction`: the node at
    /// the other end of each link. A node appears once per link.
    pub fn _neighbours(&self, node: NodeIndex, direction: Direction) -> (r: Neighbours<'_>)
        ensures
            r.graph_view() == self@,
            self@.contains_node(node@) ==> reads_ports(
                r.links(),
                self@,
                self@.node_meta(node@).dir_start(direction),
                self@.node_meta(node@).dir_end(direction),
            ),
            !self@.contains_node(node@) ==> reads_ports(r.links(), self@, 0, 0),
            r.links().ignore_lo() == 0,
            r.links().ignore_hi() == 0,
    {
        proof {
            use_type_invariant(self);
        }
        let links = self._links(node, direction);
        proof {
            if self@.contains_node(node@) {
                lemma_reads_ports_targets(
                    links,
                    self@,
                    self@.node_meta(node@).dir_start(direction),
                    self@.node_meta(node@).dir_end(direction),
                );
            } else {
                lemma_reads_ports_targets(links, self@, 0, 0);
            }
        }
        Neighbours::from_node_links(self, links)
    }

    /// Iterates over the neighbours of `node` through all its ports, seeing
    /// each self-link once going forward.
    pub fn _all_neighbours(&self, node: NodeIndex) -> (r: Neighbours<'_>)
        ensures
            r.graph_view() == self@,
            self@.contains_node(node@) ==> {
                let m = self@.node_meta(node@);
                &&& reads_ports(r.links(), self@, m.first_port, m.first_port + m.port_count())
                &&& r.links().ignore_lo() == m.dir_start(Direction::Outgoing)
                &&& r.links().ignore_hi() == m.dir_end(Direction::Outgoing)
            },
            !self@.contains_node(node@) ==> reads_ports(r.links(), self@, 0, 0)
                && r.links().ignore_lo() == 0 && r.links().ignore_hi() == 0,
    {
        proof {
            use_type_invariant(self);
        }
        let links = self._all_links(node);
        proof {
            if self@.contains_node(node@) {
                let m = self@.node_meta(node@);
                lemma_reads_ports_targets(links, self@, m.first_port, m.first_port + m.port_count());
            } else {
                lemma_reads_ports_targets(links, self@, 0, 0);
            }
        }
        Neighbours::from_node_links(self, links)
    }

    /// Iterates over the links from the outgoing ports of `from` to ports of
    /// `to`.
    pub fn _get_connections(&self, from: NodeIndex, to: NodeIndex) -> (r: NodeConnections<'_>)
        ensures
            r.connection_items_left() == connection_items(self@, from@, to@),
            r.graph_view() == self@,
            r.target() == to@,
            self@.contains_node(from@) ==> reads_ports(
                r.links(),
                self@,
                self@.node_meta(from@).dir_start(Direction::Outgoing),
                self@.node_meta(from@).dir_end(Direction::Outgoing),
            ),
            !self@.contains_node(from@) ==> reads_ports(r.links(), self@, 0, 0),
            r.links().ignore_lo() == 0,
            r.links().ignore_hi() == 0,
    {
        let r = NodeConnections::new(self, to, self._links(from, Direction::Outgoing));
        proof {
            assert(r.connection_items_left() =~= connection_items(self@, from@, to@));
        }
        r
    }
}

} // verus!
