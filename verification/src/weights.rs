//! A graph component that holds node and port weights.
//!
//! It wraps two [`UnmanagedDenseMap`] containers. It does not keep track of
//! which keys are valid, and returns the default value for keys that were
//! never set. It is meant to be used alongside a port graph.

use vstd::prelude::*;

use std::ops::{Index, IndexMut};

use crate::index::{NodeIndex, PortIndex};
use crate::unmanaged::UnmanagedDenseMap;

verus! {

/// Graph component that holds node and port weights.
#[derive(Debug)]
pub struct Weights<N, P> {
    /// Node weights.
    pub nodes: UnmanagedDenseMap<NodeIndex, N>,
    /// Port weights.
    pub ports: UnmanagedDenseMap<PortIndex, P>,
}

impl<N: Clone + Default, P: Clone + Default> Weights<N, P> {
    /// Creates empty weights, where every node and every port has the
    /// default weight.
    ///
    /// This does not allocate any memory until a value is modified.
    pub fn new() -> (r: Self)
        ensures
            r.nodes.stored_len() == 0,
            r.ports.stored_len() == 0,
            call_ensures(N::default, (), r.nodes.default_value()),
            call_ensures(P::default, (), r.ports.default_value()),
            forall|i: nat| #[trigger] r.nodes.value_at(i) == r.nodes.default_value(),
            forall|i: nat| #[trigger] r.ports.value_at(i) == r.ports.default_value(),
    {
        Weights { nodes: UnmanagedDenseMap::new(), ports: UnmanagedDenseMap::new() }
    }

    /// Creates empty weights with room for the given numbers of node and
    /// port weights.
    pub fn with_capacity(nodes: usize, ports: usize) -> (r: Self)
        ensures
            r.nodes.stored_len() == 0,
            r.ports.stored_len() == 0,
            call_ensures(N::default, (), r.nodes.default_value()),
            call_ensures(P::default, (), r.ports.default_value()),
            forall|i: nat| #[trigger] r.nodes.value_at(i) == r.nodes.default_value(),
            forall|i: nat| #[trigger] r.ports.value_at(i) == r.ports.default_value(),
    {
        Weights {
            nodes: UnmanagedDenseMap::with_capacity(nodes),
            ports: UnmanagedDenseMap::with_capacity(ports),
        }
    }
}

impl<N: Clone + Default, P: Clone + Default> Default for Weights<N, P> {
    fn default() -> (r: Self)
        ensures
            r.nodes.stored_len() == 0,
            r.ports.stored_len() == 0,
            call_ensures(N::default, (), r.nodes.default_value()),
            call_ensures(P::default, (), r.ports.default_value()),
    {
        Weights { nodes: UnmanagedDenseMap::new(), ports: UnmanagedDenseMap::new() }
    }
}

impl<N: Clone, P: Clone> Index<NodeIndex> for Weights<N, P> {
    type Output = N;

    /// Returns the weight of a node; the default for nodes never set.
    fn index(&self, key: NodeIndex) -> (r: &N)
        ensures
            *r == self.nodes.value_at(key@),
    {
        self.nodes.get(key)
    }
}

/// Every node index may be read: nodes never set have the default weight.
impl<N: Clone, P: Clone> vstd::std_specs::core::IndexSpecImpl<NodeIndex> for Weights<N, P> {
    open spec fn index_req(&self, index: &NodeIndex) -> bool {
        true
    }
}

impl<N: Clone, P: Clone> IndexMut<NodeIndex> for Weights<N, P> {
    /// Returns the weight of a node for modification, first storing default
    /// weights up to the node's index if needed.
    fn index_mut(&mut self, key: NodeIndex) -> (r: &mut N)
        ensures
            key@ < old(self).nodes.stored_len() ==> *r == old(self).nodes.value_at(key@),
            key@ >= old(self).nodes.stored_len() ==> cloned::<N>(old(self).nodes.default_value(), *r),
            final(self).nodes.value_at(key@) == *final(r),
            final(self).nodes.default_value() == old(self).nodes.default_value(),
            final(self).ports == old(self).ports,
            forall|j: nat|
                j != key@ ==> #[trigger] final(self).nodes.value_at(j) == old(self).nodes.value_at(j) || (
                old(self).nodes.stored_len() <= j < final(self).nodes.stored_len() && cloned::<N>(
                    old(self).nodes.default_value(),
                    final(self).nodes.value_at(j),
                )),
    {
        self.nodes.get_mut(key)
    }
}

impl<N: Clone, P: Clone> Index<PortIndex> for Weights<N, P> {
    type Output = P;

    /// Returns the weight of a port; the default for ports never set.
    fn index(&self, key: PortIndex) -> (r: &P)
        ensures
            *r == self.ports.value_at(key@),
    {
        self.ports.get(key)
    }
}

/// Every port index may be read: ports never set have the default weight.
impl<N: Clone, P: Clone> vstd::std_specs::core::IndexSpecImpl<PortIndex> for Weights<N, P> {
    open spec fn index_req(&self, index: &PortIndex) -> bool {
        true
    }
}

impl<N: Clone, P: Clone> IndexMut<PortIndex> for Weights<N, P> {
    /// Returns the weight of a port for modification, first storing default
    /// weights up to the port's index if needed.
    fn index_mut(&mut self, key: PortIndex) -> (r: &mut P)
        ensures
            key@ < old(self).ports.stored_len() ==> *r == old(self).ports.value_at(key@),
            key@ >= old(self).ports.stored_len() ==> cloned::<P>(old(self).ports.default_value(), *r),
            final(self).ports.value_at(key@) == *final(r),
            final(self).ports.default_value() == old(self).ports.default_value(),
            final(self).nodes == old(self).nodes,
            forall|j: nat|
                j != key@ ==> #[trigger] final(self).ports.value_at(j) == old(self).ports.value_at(j) || (
                old(self).ports.stored_len() <= j < final(self).ports.stored_len() && cloned::<P>(
                    old(self).ports.default_value(),
                    final(self).ports.value_at(j),
                )),
    {
        self.ports.get_mut(key)
    }
}

} // verus!
