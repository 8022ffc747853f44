//! The port graph and its storage entries.

pub mod iter;
pub mod node_entry;
pub mod port_entry;

pub use iter::{NodeConnections, NodeLinks, NodePortOffsets, NodePorts, Neighbours, Nodes, Ports};
pub use node_entry::{FreeNodeEntry, NodeEntry, NodeMeta, NodeMetaError};
pub use port_entry::{PortEntry, PortMeta};

use vstd::prelude::*;

use crate::index::{Direction, MaybeNodeIndex, MaybePortIndex, NodeIndex, PortIndex, MAX_INDEX};
use node_entry::{NodeMetaView, MAX_INCOMING, MAX_OUTGOING};
use port_entry::PortEntryView;

verus! {

/// The indices in `lo..hi` at which `p` holds, in increasing order.
pub open spec fn indices_where(p: spec_fn(int) -> bool, lo: int, hi: int) -> Seq<nat>
    decreases hi - lo,
{
    if lo >= hi {
        Seq::empty()
    } else if p(lo) {
        seq![lo as nat] + indices_where(p, lo + 1, hi)
    } else {
        indices_where(p, lo + 1, hi)
    }
}

/// Taking one more index at the top adds it at the end, if it qualifies.
pub proof fn lemma_indices_where_snoc(p: spec_fn(int) -> bool, lo: int, hi: int)
    requires
        lo < hi,
    ensures
        indices_where(p, lo, hi) == if p(hi - 1) {
            indices_where(p, lo, hi - 1).push((hi - 1) as nat)
        } else {
            indices_where(p, lo, hi - 1)
        },
    decreases hi - lo,
{
    if lo + 1 < hi {
        lemma_indices_where_snoc(p, lo + 1, hi);
        if p(lo) {
            assert(seq![lo as nat] + indices_where(p, lo + 1, hi - 1).push((hi - 1) as nat) =~= (
            seq![lo as nat] + indices_where(p, lo + 1, hi - 1)).push((hi - 1) as nat));
        }
    } else {
        assert(indices_where(p, lo + 1, hi) =~= Seq::<nat>::empty());
        assert(indices_where(p, lo, hi - 1) =~= Seq::<nat>::empty());
        if p(lo) {
            assert(seq![lo as nat] + Seq::<nat>::empty() =~= Seq::<nat>::empty().push(lo as nat));
        }
    }
}

/// Two predicates that agree on `lo..hi` select the same indices there.
pub proof fn lemma_indices_where_ext(p: spec_fn(int) -> bool, q: spec_fn(int) -> bool, lo: int, hi: int)
    requires
        forall|i: int| lo <= i < hi ==> #[trigger] p(i) == q(i),
    ensures
        indices_where(p, lo, hi) == indices_where(q, lo, hi),
    decreases hi - lo,
{
    if lo < hi {
        lemma_indices_where_ext(p, q, lo + 1, hi);
    }
}

/// The selected indices are exactly the qualifying ones in `lo..hi`, in
/// strictly increasing order, and there are at most `hi - lo` of them.
pub proof fn lemma_indices_where_props(p: spec_fn(int) -> bool, lo: int, hi: int)
    requires
        0 <= lo,
    ensures
        indices_where(p, lo, hi).len() <= if lo <= hi {
            hi - lo
        } else {
            0
        },
        forall|k: int|
            0 <= k < indices_where(p, lo, hi).len() ==> lo <= #[trigger] indices_where(p, lo, hi)[k]
                < hi && p(indices_where(p, lo, hi)[k] as int),
        forall|k: int, l: int|
            0 <= k < l < indices_where(p, lo, hi).len() ==> #[trigger] indices_where(p, lo, hi)[k]
                < #[trigger] indices_where(p, lo, hi)[l],
        forall|i: int| lo <= i < hi && #[trigger] p(i) ==> indices_where(p, lo, hi).contains(i as nat),
    decreases hi - lo,
{
    if lo < hi {
        lemma_indices_where_props(p, lo + 1, hi);
        let rest = indices_where(p, lo + 1, hi);
        let s = indices_where(p, lo, hi);
        if p(lo) {
            assert(s == seq![lo as nat] + rest);
            assert forall|k: int| 0 <= k < s.len() implies lo <= #[trigger] s[k] < hi && p(
                s[k] as int,
            ) by {
                if k == 0 {
                    assert(s[k] == lo as nat);
                } else {
                    assert(s[k] == rest[k - 1]);
                    assert(lo + 1 <= rest[k - 1] < hi && p(rest[k - 1] as int));
                }
            }
            assert forall|k: int, l: int| 0 <= k < l < s.len() implies #[trigger] s[k]
                < #[trigger] s[l] by {
                assert(s[l] == rest[l - 1]);
                assert(lo + 1 <= rest[l - 1]);
                if k > 0 {
                    assert(s[k] == rest[k - 1]);
                    assert(rest[k - 1] < rest[l - 1]);
                } else {
                    assert(s[k] == lo as nat);
                }
            }
            assert forall|i: int| lo <= i < hi && #[trigger] p(i) implies s.contains(i as nat) by {
                if i == lo {
                    assert(s[0] == lo as nat);
                } else {
                    assert(rest.contains(i as nat));
                    let k = choose|k: int| 0 <= k < rest.len() && rest[k] == i as nat;
                    assert(s[k + 1] == i as nat);
                }
            }
        }
    }
}

/// Skipping indices that do not qualify leaves the selection unchanged.
pub proof fn lemma_indices_where_skip(p: spec_fn(int) -> bool, lo: int, mid: int, hi: int)
    requires
        lo <= mid <= hi,
        forall|i: int| lo <= i < mid ==> !#[trigger] p(i),
    ensures
        indices_where(p, lo, hi) == indices_where(p, mid, hi),
    decreases mid - lo,
{
    if lo < mid {
        lemma_indices_where_skip(p, lo + 1, mid, hi);
    }
}

/// Nothing before the first selected index qualifies, and nothing after
/// the last one does.
pub proof fn lemma_indices_where_ends(p: spec_fn(int) -> bool, lo: int, hi: int)
    requires
        0 <= lo,
    ensures
        indices_where(p, lo, hi).len() == 0 ==> forall|j: int| lo <= j < hi ==> !#[trigger] p(j),
        indices_where(p, lo, hi).len() > 0 ==> forall|j: int|
            lo <= j < indices_where(p, lo, hi)[0] ==> !#[trigger] p(j),
        indices_where(p, lo, hi).len() > 0 ==> forall|j: int|
            indices_where(p, lo, hi).last() < j < hi ==> !#[trigger] p(j),
    decreases hi - lo,
{
    if lo < hi {
        lemma_indices_where_ends(p, lo + 1, hi);
        let rest = indices_where(p, lo + 1, hi);
        if p(lo) {
            let s = indices_where(p, lo, hi);
            assert(s == seq![lo as nat] + rest);
            if rest.len() > 0 {
                assert(s.last() == rest.last());
            }
        }
    }
}

/// Indices at the top that do not qualify can be dropped from the range.
pub proof fn lemma_indices_where_cut_top(p: spec_fn(int) -> bool, lo: int, mid: int, hi: int)
    requires
        lo <= mid <= hi,
        forall|i: int| mid < i < hi ==> !#[trigger] p(i),
    ensures
        indices_where(p, lo, hi) == indices_where(p, lo, if mid < hi { mid + 1 } else { hi }),
    decreases hi - mid,
{
    if mid + 1 < hi {
        lemma_indices_where_snoc(p, lo, hi);
        lemma_indices_where_cut_top(p, lo, mid, hi - 1);
    }
}

/// Selecting with a predicate shifted by `lo` gives the selection from
/// `lo` on, shifted back.
pub proof fn lemma_indices_where_shift(p: spec_fn(int) -> bool, q: spec_fn(int) -> bool, lo: int, a: int, n: int)
    requires
        0 <= lo,
        0 <= a,
        forall|k: int| a <= k < n ==> #[trigger] q(k) == p(lo + k),
    ensures
        indices_where(q, a, n).map_values(|k: nat| (k + lo) as nat) == indices_where(p, lo + a, lo + n),
    decreases n - a,
{
    if a < n {
        lemma_indices_where_shift(p, q, lo, a + 1, n);
        let rest = indices_where(q, a + 1, n);
        assert(q(a) == p(lo + a));
        if q(a) {
            assert((seq![a as nat] + rest).map_values(|k: nat| (k + lo) as nat) =~= seq![(lo + a) as nat]
                + rest.map_values(|k: nat| (k + lo) as nat));
        }
    } else {
        assert(indices_where(q, a, n).map_values(|k: nat| (k + lo) as nat) =~= Seq::<nat>::empty());
    }
}

/// Turning one qualifying index into a non-qualifying one removes exactly
/// one index from the selection.
pub proof fn lemma_indices_where_flip(p: spec_fn(int) -> bool, q: spec_fn(int) -> bool, lo: int, hi: int, i: int)
    requires
        lo <= i < hi,
        p(i),
        !q(i),
        forall|k: int| lo <= k < hi && k != i ==> #[trigger] p(k) == q(k),
    ensures
        indices_where(p, lo, hi).len() == indices_where(q, lo, hi).len() + 1,
    decreases hi - lo,
{
    if lo < i {
        lemma_indices_where_flip(p, q, lo + 1, hi, i);
        assert(p(lo) == q(lo));
    } else {
        lemma_indices_where_ext(p, q, lo + 1, hi);
    }
}

/// Appending a port slot adds its index to the used ones when it holds a port.
pub proof fn lemma_port_indices_push(s: Seq<PortEntry>, e: PortEntry)
    ensures
        indices_where(port_slot_used(s.push(e)), 0, (s.len() + 1) as int) == if e@ is Some {
            indices_where(port_slot_used(s), 0, s.len() as int).push(s.len())
        } else {
            indices_where(port_slot_used(s), 0, s.len() as int)
        },
{
    let t = s.push(e);
    lemma_indices_where_snoc(port_slot_used(t), 0, (s.len() + 1) as int);
    assert forall|i: int| 0 <= i < s.len() implies #[trigger] port_slot_used(t)(i) == port_slot_used(
        s,
    )(i) by {
        assert(t[i] == s[i]);
    }
    lemma_indices_where_ext(port_slot_used(t), port_slot_used(s), 0, s.len() as int);
}

/// Appending a node slot adds its index to the used ones when it holds a node.
pub proof fn lemma_node_indices_push(s: Seq<NodeEntry>, e: NodeEntry)
    ensures
        indices_where(node_slot_used(s.push(e)), 0, (s.len() + 1) as int) == if e is Node {
            indices_where(node_slot_used(s), 0, s.len() as int).push(s.len())
        } else {
            indices_where(node_slot_used(s), 0, s.len() as int)
        },
{
    let t = s.push(e);
    lemma_indices_where_snoc(node_slot_used(t), 0, (s.len() + 1) as int);
    assert forall|i: int| 0 <= i < s.len() implies #[trigger] node_slot_used(t)(i) == node_slot_used(
        s,
    )(i) by {
        assert(t[i] == s[i]);
    }
    lemma_indices_where_ext(node_slot_used(t), node_slot_used(s), 0, s.len() as int);
}

/// The error [`PortGraph::link_ports`] reports for linking `port_a` with
/// `port_b` in `g`, if any: an unknown port, two ports of the same
/// direction, or a port already linked, checked in that order.
pub open spec fn link_error(g: PortGraphView, port_a: PortIndex, port_b: PortIndex) -> Option<LinkError> {
    if !g.contains_port(port_a@) {
        Some(LinkError::UnknownPort { port: port_a })
    } else if !g.contains_port(port_b@) {
        Some(LinkError::UnknownPort { port: port_b })
    } else if g.port_entry(port_a@).unwrap().1 == g.port_entry(port_b@).unwrap().1 {
        Some(
            LinkError::IncompatibleDirections {
                port_a,
                port_b,
                dir: g.port_entry(port_a@).unwrap().1,
            },
        )
    } else if g.link(port_a@) is Some {
        Some(LinkError::AlreadyLinked { port: port_a })
    } else if g.link(port_b@) is Some {
        Some(LinkError::AlreadyLinked { port: port_b })
    } else {
        None
    }
}

/// `g1` is `g0` with ports `a` and `b` linked to each other, and nothing
/// else changed.
pub open spec fn links_added(g0: PortGraphView, g1: PortGraphView, a: nat, b: nat) -> bool {
    &&& g1.nodes == g0.nodes
    &&& g1.ports == g0.ports
    &&& g1.links.len() == g0.links.len()
    &&& g1.link(a) == Some(b)
    &&& g1.link(b) == Some(a)
    &&& forall|p: nat| p != a && p != b ==> #[trigger] g1.link(p) == g0.link(p)
}

/// `g1` is `g0` with the links of ports `a` and `b` removed, and nothing
/// else changed.
pub open spec fn links_removed(g0: PortGraphView, g1: PortGraphView, a: nat, b: nat) -> bool {
    &&& g1.nodes == g0.nodes
    &&& g1.ports == g0.ports
    &&& g1.links.len() == g0.links.len()
    &&& g1.link(a) is None
    &&& g1.link(b) is None
    &&& forall|p: nat| p != a && p != b ==> #[trigger] g1.link(p) == g0.link(p)
}

/// Linking two free ports and then unlinking one of them gives back the
/// links the graph had before.
pub proof fn lemma_link_then_unlink(g0: PortGraphView, g1: PortGraphView, g2: PortGraphView, a: nat, b: nat)
    requires
        g0.link(a) is None,
        g0.link(b) is None,
        links_added(g0, g1, a, b),
        links_removed(g1, g2, a, b),
    ensures
        g2.nodes == g0.nodes,
        g2.ports == g0.ports,
        forall|p: nat| #[trigger] g2.link(p) == g0.link(p),
{
    assert forall|p: nat| #[trigger] g2.link(p) == g0.link(p) by {
        if p != a && p != b {
            assert(g2.link(p) == g1.link(p));
        }
    }
}

/// In a well-formed graph, links are symmetric, and a linked port and its
/// partner both exist.
pub proof fn lemma_links_symmetric(g: PortGraphView, p: nat)
    requires
        g.wf(),
        g.link(p) is Some,
    ensures
        g.contains_port(p),
        g.contains_port(g.link(p).unwrap()),
        g.link(g.link(p).unwrap()) == Some(p),
{
    assert(g.link_ok(p));
}

/// In a well-formed graph, port `q` belongs to node `n` with direction `d`
/// exactly when it lies in the range of `n`'s ports of that direction.
pub proof fn lemma_port_owner(g: PortGraphView, n: nat, q: nat, d: Direction)
    requires
        g.wf(),
    ensures
        g.contains_node(n) && g.node_meta(n).has_port(q, d) <==> g.port_entry(q) == Some((n, d)),
{
    if g.contains_node(n) && g.node_meta(n).has_port(q, d) {
        assert(g.node_ok(n));
        assert(g.port_entry(q) == Some((n, port_dir_in(g.node_meta(n), q))));
    }
    if g.port_entry(q) == Some((n, d)) {
        assert(g.contains_port(q));
        assert(g.port_ok(q));
    }
}

/// The node indices of a graph are exactly the indices of its nodes, in
/// strictly increasing order; likewise for ports.
pub proof fn lemma_indices_exact(g: PortGraphView)
    ensures
        forall|n: nat| g.node_indices().contains(n) <==> g.contains_node(n),
        forall|i: int, j: int|
            0 <= i < j < g.node_indices().len() ==> #[trigger] g.node_indices()[i]
                < #[trigger] g.node_indices()[j],
        forall|p: nat| g.port_indices().contains(p) <==> g.contains_port(p),
        forall|i: int, j: int|
            0 <= i < j < g.port_indices().len() ==> #[trigger] g.port_indices()[i]
                < #[trigger] g.port_indices()[j],
{
    let ns = g.node_indices();
    let ps = g.port_indices();
    lemma_indices_where_props(node_slot_used(g.nodes), 0, g.nodes.len() as int);
    lemma_indices_where_props(port_slot_used(g.ports), 0, g.ports.len() as int);
    assert forall|n: nat| ns.contains(n) <==> g.contains_node(n) by {
        if ns.contains(n) {
            let k = choose|k: int| 0 <= k < ns.len() && ns[k] == n;
            assert(node_slot_used(g.nodes)(ns[k] as int));
        }
        if g.contains_node(n) {
            assert(node_slot_used(g.nodes)(n as int));
        }
    }
    assert forall|p: nat| ps.contains(p) <==> g.contains_port(p) by {
        if ps.contains(p) {
            let k = choose|k: int| 0 <= k < ps.len() && ps[k] == p;
            assert(port_slot_used(g.ports)(ps[k] as int));
        }
        if g.contains_port(p) {
            assert(port_slot_used(g.ports)(p as int));
        }
    }
}

/// `g1` is `g0` without node `n`: its slot is free, its ports are free,
/// the links of its ports are gone at both ends, and nothing else changed
/// but the free list.
pub open spec fn node_removed(g0: PortGraphView, g1: PortGraphView, n: nat) -> bool {
    let m = g0.node_meta(n);
    let lo = m.first_port;
    let hi = m.first_port + m.port_count();
    &&& g1.nodes.len() == g0.nodes.len()
    &&& g1.nodes[n as int] is Free
    &&& forall|k: int|
        0 <= k < g0.nodes.len() && k != n ==> (#[trigger] g1.nodes[k] is Node <==> g0.nodes[k] is Node)
    &&& forall|k: int|
        0 <= k < g0.nodes.len() && k != n && g0.nodes[k] is Node ==> #[trigger] g1.nodes[k] == g0.nodes[k]
    &&& g1.ports.len() == g0.ports.len()
    &&& g1.links.len() == g0.links.len()
    &&& forall|q: nat|
        q < g1.ports.len() ==> #[trigger] g1.port_entry(q) == if lo <= q < hi {
            None
        } else {
            g0.port_entry(q)
        }
    &&& forall|q: nat|
        #[trigger] g1.link(q) == if lo <= q < hi {
            None
        } else if g0.link(q) is Some && lo <= g0.link(q).unwrap() < hi {
            None
        } else {
            g0.link(q)
        }
}

/// Error raised when linking two ports fails.
#[derive(Debug, Clone, Copy, PartialEq, Eq, Structural)]
pub enum LinkError {
    /// The port is already linked.
    AlreadyLinked { port: PortIndex },
    /// The port does not exist.
    UnknownPort { port: PortIndex },
    /// The ports have the same direction.
    IncompatibleDirections { port_a: PortIndex, port_b: PortIndex, dir: Direction },
}

/// The contents of a port graph.
pub struct PortGraphView {
    /// Node slots, each free or holding a node.
    pub nodes: Seq<NodeEntry>,
    /// Port slots, each free or holding a port.
    pub ports: Seq<PortEntry>,
    /// For each port slot, the port it is linked to, if any.
    pub links: Seq<MaybePortIndex>,
}

/// Node slots that hold a node.
pub open spec fn node_slot_used(nodes: Seq<NodeEntry>) -> spec_fn(int) -> bool {
    |i: int| nodes[i] is Node
}

/// Port slots that hold a port.
pub open spec fn port_slot_used(ports: Seq<PortEntry>) -> spec_fn(int) -> bool {
    |i: int| ports[i]@ is Some
}

/// The direction of port `q` of a node: its incoming ports come first.
pub open spec fn port_dir_in(meta: NodeMetaView, q: nat) -> Direction {
    if q < meta.first_port + meta.incoming {
        Direction::Incoming
    } else {
        Direction::Outgoing
    }
}

impl PortGraphView {
    /// There is a node at index `n`.
    pub open spec fn contains_node(self, n: nat) -> bool {
        n < self.nodes.len() && self.nodes[n as int] is Node
    }

    /// The meta data of the node at index `n`.
    pub open spec fn node_meta(self, n: nat) -> NodeMetaView {
        match self.nodes[n as int] {
            NodeEntry::Node(m) => m@,
            NodeEntry::Free(_) => NodeMetaView { first_port: 0, incoming: 0, outgoing: 0, capacity: 0 },
        }
    }

    /// The entry of port slot `p`; `None` for free or missing slots.
    pub open spec fn port_entry(self, p: nat) -> PortEntryView {
        if p < self.ports.len() {
            self.ports[p as int]@
        } else {
            None
        }
    }

    /// There is a port at index `p`.
    pub open spec fn contains_port(self, p: nat) -> bool {
        self.port_entry(p) is Some
    }

    /// The node of port `p`.
    pub open spec fn port_node(self, p: nat) -> Option<nat> {
        match self.port_entry(p) {
            Some((n, _)) => Some(n),
            None => None,
        }
    }

    /// The port linked to port `p`.
    pub open spec fn link(self, p: nat) -> Option<nat> {
        if p < self.links.len() {
            self.links[p as int]@
        } else {
            None
        }
    }

    /// Indices of the nodes, in increasing order.
    pub open spec fn node_indices(self) -> Seq<nat> {
        indices_where(node_slot_used(self.nodes), 0, self.nodes.len() as int)
    }

    /// Indices of the ports, in increasing order.
    pub open spec fn port_indices(self) -> Seq<nat> {
        indices_where(port_slot_used(self.ports), 0, self.ports.len() as int)
    }

    /// The ports of node `n` are allocated and hold the node and the right
    /// directions.
    pub open spec fn node_ok(self, n: nat) -> bool {
        let meta = self.node_meta(n);
        &&& meta.port_count() <= meta.capacity
        &&& meta.first_port + meta.capacity <= self.ports.len()
        &&& forall|q: nat|
            meta.first_port <= q < meta.first_port + meta.port_count() ==> #[trigger] self.port_entry(q)
                == Some((n, port_dir_in(meta, q)))
    }

    /// Port `p` belongs to an existing node, within its ports of the same
    /// direction.
    pub open spec fn port_ok(self, p: nat) -> bool {
        let (n, d) = self.port_entry(p).unwrap();
        self.contains_node(n) && self.node_meta(n).has_port(p, d)
    }

    /// A link at `p` joins two existing ports, in both directions.
    pub open spec fn link_ok(self, p: nat) -> bool {
        let q = self.link(p).unwrap();
        self.contains_port(p) && self.contains_port(q) && self.link(q) == Some(p)
    }

    /// Well-formedness of a port graph.
    pub open spec fn wf(self) -> bool {
        &&& self.links.len() == self.ports.len()
        &&& self.nodes.len() <= MAX_INDEX + 1
        &&& self.ports.len() <= MAX_INDEX + 1
        &&& forall|n: nat| #[trigger] self.contains_node(n) ==> self.node_ok(n)
        &&& forall|p: nat| #[trigger] self.contains_port(p) ==> self.port_ok(p)
        &&& forall|p: nat| #[trigger] self.link(p) is Some ==> self.link_ok(p)
    }
}

/// The neighbours in the free list that a node slot records, if it is free.
pub open spec fn free_links(e: NodeEntry) -> Option<(Option<nat>, Option<nat>)> {
    match e {
        NodeEntry::Free(f) => Some((f.prev@, f.next@)),
        NodeEntry::Node(_) => None,
    }
}

/// `list` lists the free slots of `nodes`, each once, starting at `head`,
/// and each free slot records its neighbours in the list: the free slots
/// form a doubly-linked list.
pub open spec fn free_list_ok(nodes: Seq<NodeEntry>, head: Option<nat>, list: Seq<nat>) -> bool {
    &&& list.no_duplicates()
    &&& forall|i: int| 0 <= i < list.len() ==> #[trigger] list[i] < nodes.len()
    &&& forall|k: int| 0 <= k < nodes.len() ==> (#[trigger] nodes[k] is Free <==> list.contains(k as nat))
    &&& head == if list.len() > 0 {
        Some(list[0])
    } else {
        None::<nat>
    }
    &&& forall|i: int|
        0 <= i < list.len() ==> #[trigger] free_links(nodes[list[i] as int]) == Some(
            (
                if i > 0 {
                    Some(list[i - 1])
                } else {
                    None::<nat>
                },
                if i + 1 < list.len() {
                    Some(list[i + 1])
                } else {
                    None::<nat>
                },
            ),
        )
}

/// The free list of a run of slots is determined by its first slot.
proof fn lemma_free_list_unique(nodes: Seq<NodeEntry>, head: Option<nat>, l1: Seq<nat>, l2: Seq<nat>)
    requires
        free_list_ok(nodes, head, l1),
        free_list_ok(nodes, head, l2),
    ensures
        l1 == l2,
{
    if l1.len() > l2.len() {
        lemma_free_list_prefix(nodes, head, l1, l2, l1.len() - 1);
    }
    if l2.len() > l1.len() {
        lemma_free_list_prefix(nodes, head, l2, l1, l2.len() - 1);
    }
    assert forall|i: int| 0 <= i < l1.len() implies #[trigger] l1[i] == l2[i] by {
        lemma_free_list_prefix(nodes, head, l1, l2, i);
    }
    assert(l1 =~= l2);
}

/// Two free lists of the same slots agree up to any position of the first.
proof fn lemma_free_list_prefix(nodes: Seq<NodeEntry>, head: Option<nat>, l1: Seq<nat>, l2: Seq<nat>, i: int)
    requires
        free_list_ok(nodes, head, l1),
        free_list_ok(nodes, head, l2),
        0 <= i < l1.len(),
    ensures
        i < l2.len() && l1[i] == l2[i],
    decreases i,
{
    if i > 0 {
        lemma_free_list_prefix(nodes, head, l1, l2, i - 1);
        let k = l1[i - 1];
        assert(free_links(nodes[k as int]) == Some(
            (
                if i - 1 > 0 {
                    Some(l1[i - 2])
                } else {
                    None::<nat>
                },
                Some(l1[i]),
            ),
        ));
        assert(free_links(nodes[l2[i - 1] as int]) == Some(
            (
                if i - 1 > 0 {
                    Some(l2[i - 2])
                } else {
                    None::<nat>
                },
                if i < l2.len() {
                    Some(l2[i])
                } else {
                    None::<nat>
                },
            ),
        ));
    }
}

/// Appending a slot that holds a node keeps the free list.
proof fn lemma_free_list_append(nodes: Seq<NodeEntry>, head: Option<nat>, list: Seq<nat>, e: NodeEntry)
    requires
        free_list_ok(nodes, head, list),
        e is Node,
    ensures
        free_list_ok(nodes.push(e), head, list),
{
    let nodes2 = nodes.push(e);
    assert forall|k: int| 0 <= k < nodes2.len() implies (#[trigger] nodes2[k] is Free <==> list.contains(
        k as nat,
    )) by {
        if k == nodes.len() {
            if list.contains(k as nat) {
                let i = choose|i: int| 0 <= i < list.len() && list[i] == k as nat;
                assert(list[i] < nodes.len());
            }
        } else {
            assert(nodes2[k] == nodes[k]);
        }
    }
    assert forall|i: int| 0 <= i < list.len() implies #[trigger] free_links(nodes2[list[i] as int])
        == free_links(nodes[list[i] as int]) by {
        assert(list[i] < nodes.len());
    }
}

/// Taking the first slot of the free list for an entry that is not free,
/// and clearing the back link of the slot after it, leaves a free list of
/// the remaining slots.
proof fn lemma_free_list_pop(
    nodes: Seq<NodeEntry>,
    nodes2: Seq<NodeEntry>,
    head: Option<nat>,
    list: Seq<nat>,
    new_head: Option<nat>,
)
    requires
        free_list_ok(nodes, head, list),
        list.len() > 0,
        nodes2.len() == nodes.len(),
        nodes2[list[0] as int] is Node,
        list.len() > 1 ==> free_links(nodes2[list[1] as int]) == Some(
            (
                None::<nat>,
                if 2 < list.len() {
                    Some(list[2])
                } else {
                    None::<nat>
                },
            ),
        ),
        forall|k: int|
            0 <= k < nodes.len() && k != list[0] && (list.len() > 1 ==> k != list[1]) ==> #[trigger] nodes2[k]
                == nodes[k],
        new_head == if list.len() > 1 {
            Some(list[1])
        } else {
            None::<nat>
        },
    ensures
        free_list_ok(nodes2, new_head, list.drop_first()),
{
    let l2 = list.drop_first();
    assert forall|i: int, j: int| 0 <= i < l2.len() && 0 <= j < l2.len() && i != j implies l2[i] != l2[j] by {
        assert(l2[i] == list[i + 1] && l2[j] == list[j + 1]);
    }
    assert forall|i: int| 0 <= i < l2.len() implies #[trigger] l2[i] < nodes2.len() by {
        assert(l2[i] == list[i + 1]);
    }
    assert forall|k: int| 0 <= k < nodes2.len() implies (#[trigger] nodes2[k] is Free <==> l2.contains(
        k as nat,
    )) by {
        if k == list[0] {
            if l2.contains(k as nat) {
                let i = choose|i: int| 0 <= i < l2.len() && l2[i] == k as nat;
                assert(list[i + 1] == list[0]);
            }
        } else if list.len() > 1 && k == list[1] {
            assert(l2[0] == k as nat);
        } else {
            assert(nodes2[k] == nodes[k]);
            if list.contains(k as nat) {
                let i = choose|i: int| 0 <= i < list.len() && list[i] == k as nat;
                assert(i != 0);
                assert(l2[i - 1] == k as nat);
            }
            if l2.contains(k as nat) {
                let i = choose|i: int| 0 <= i < l2.len() && l2[i] == k as nat;
                assert(list[i + 1] == k as nat);
            }
        }
    }
    assert forall|i: int| 0 <= i < l2.len() implies #[trigger] free_links(nodes2[l2[i] as int]) == Some(
        (
            if i > 0 {
                Some(l2[i - 1])
            } else {
                None::<nat>
            },
            if i + 1 < l2.len() {
                Some(l2[i + 1])
            } else {
                None::<nat>
            },
        ),
    ) by {
        assert(l2[i] == list[i + 1]);
        if i > 0 {
            assert(list[i + 1] != list[0] && list[i + 1] != list[1]);
            assert(list[i + 1] < nodes.len());
            assert(nodes2[list[i + 1] as int] == nodes[list[i + 1] as int]);
            assert(free_links(nodes[list[i + 1] as int]) == Some(
                (
                    Some(list[i]),
                    if i + 2 < list.len() {
                        Some(list[i + 2])
                    } else {
                        None::<nat>
                    },
                ),
            ));
        }
    }
}

/// Putting a slot that held a node at the front of the free list, with the
/// old first slot pointing back to it, gives a free list.
proof fn lemma_free_list_push(
    nodes: Seq<NodeEntry>,
    nodes2: Seq<NodeEntry>,
    head: Option<nat>,
    list: Seq<nat>,
    n: nat,
)
    requires
        free_list_ok(nodes, head, list),
        n < nodes.len(),
        nodes[n as int] is Node,
        nodes2.len() == nodes.len(),
        free_links(nodes2[n as int]) == Some((None::<nat>, head)),
        list.len() > 0 ==> free_links(nodes2[list[0] as int]) == Some(
            (
                Some(n),
                if 1 < list.len() {
                    Some(list[1])
                } else {
                    None::<nat>
                },
            ),
        ),
        forall|k: int|
            0 <= k < nodes.len() && k != n && (list.len() > 0 ==> k != list[0]) ==> #[trigger] nodes2[k]
                == nodes[k],
    ensures
        free_list_ok(nodes2, Some(n), seq![n] + list),
{
    let l2 = seq![n] + list;
    assert(!list.contains(n)) by {
        if list.contains(n) {
            let i = choose|i: int| 0 <= i < list.len() && list[i] == n;
            assert(list[i] < nodes.len());
        }
    }
    assert forall|i: int, j: int| 0 <= i < l2.len() && 0 <= j < l2.len() && i != j implies l2[i] != l2[j] by {
        if i == 0 {
            assert(l2[j] == list[j - 1]);
        } else if j == 0 {
            assert(l2[i] == list[i - 1]);
        } else {
            assert(l2[i] == list[i - 1] && l2[j] == list[j - 1]);
        }
    }
    assert forall|i: int| 0 <= i < l2.len() implies #[trigger] l2[i] < nodes2.len() by {
        if i > 0 {
            assert(l2[i] == list[i - 1]);
        }
    }
    assert forall|k: int| 0 <= k < nodes2.len() implies (#[trigger] nodes2[k] is Free <==> l2.contains(
        k as nat,
    )) by {
        if k == n {
            assert(l2[0] == n);
        } else if list.len() > 0 && k == list[0] {
            assert(l2[1] == k as nat);
        } else {
            assert(nodes2[k] == nodes[k]);
            if list.contains(k as nat) {
                let i = choose|i: int| 0 <= i < list.len() && list[i] == k as nat;
                assert(l2[i + 1] == k as nat);
            }
            if l2.contains(k as nat) {
                let i = choose|i: int| 0 <= i < l2.len() && l2[i] == k as nat;
                assert(i != 0);
                assert(list[i - 1] == k as nat);
            }
        }
    }
    assert forall|i: int| 0 <= i < l2.len() implies #[trigger] free_links(nodes2[l2[i] as int]) == Some(
        (
            if i > 0 {
                Some(l2[i - 1])
            } else {
                None::<nat>
            },
            if i + 1 < l2.len() {
                Some(l2[i + 1])
            } else {
                None::<nat>
            },
        ),
    ) by {
        if i == 0 {
            if list.len() > 0 {
                assert(l2[1] == list[0]);
            }
        } else if i == 1 {
            assert(l2[1] == list[0]);
            if list.len() > 1 {
                assert(l2[2] == list[1]);
            }
        } else {
            assert(l2[i] == list[i - 1]);
            assert(l2[i - 1] == list[i - 2]);
            assert(list[i - 1] != list[0]);
            assert(list[i - 1] != n);
            assert(list[i - 1] < nodes.len());
            assert(nodes2[list[i - 1] as int] == nodes[list[i - 1] as int]);
            if i + 1 < l2.len() {
                assert(l2[i + 1] == list[i]);
            }
        }
    }
}

/// A graph whose nodes have ordered incoming and outgoing ports, and whose
/// links join pairs of ports.
#[derive(Debug)]
pub struct PortGraph {
    node_meta: Vec<NodeEntry>,
    port_link: Vec<MaybePortIndex>,
    port_meta: Vec<PortEntry>,
    node_count: usize,
    port_count: usize,
    free_head: MaybeNodeIndex,
}

impl View for PortGraph {
    type V = PortGraphView;

    closed spec fn view(&self) -> PortGraphView {
        PortGraphView { nodes: self.node_meta@, ports: self.port_meta@, links: self.port_link@ }
    }
}

impl PortGraph {
    /// The stored node and port counts are those of the contents.
    pub closed spec fn counts_match(self) -> bool {
        &&& self.node_count == self@.node_indices().len()
        &&& self.port_count == self@.port_indices().len()
    }

    /// The free node slots, in the order of the free list: the slot the
    /// next node is placed in comes first.
    pub closed spec fn free_slots(self) -> Seq<nat> {
        choose|list: Seq<nat>| free_list_ok(self.node_meta@, self.free_head@, list)
    }

    /// Well-formedness, which every port graph maintains.
    #[verifier::type_invariant]
    pub open spec fn well_formed(self) -> bool {
        &&& self@.wf()
        &&& self.counts_match()
        &&& self.has_free_list()
    }

    /// The free node slots form a doubly-linked list starting at the head.
    pub closed spec fn has_free_list(self) -> bool {
        exists|list: Seq<nat>| free_list_ok(self.node_meta@, self.free_head@, list)
    }

    /// A free list of the graph's slots is one.
    proof fn lemma_has_free_list(self, list: Seq<nat>)
        requires
            free_list_ok(self.node_meta@, self.free_head@, list),
        ensures
            self.has_free_list(),
    {
    }

    /// The free slots are those of any free list of the graph's slots.
    proof fn lemma_free_slots(self, list: Seq<nat>)
        requires
            free_list_ok(self@.nodes, self.free_head@, list),
        ensures
            self.free_slots() == list,
    {
        lemma_free_list_unique(self@.nodes, self.free_head@, self.free_slots(), list);
    }

    /// The node slots.
    pub(crate) fn node_entries(&self) -> (r: &[NodeEntry])
        ensures
            r@ == self@.nodes,
    {
        self.node_meta.as_slice()
    }

    /// The port slots.
    pub(crate) fn port_entries(&self) -> (r: &[PortEntry])
        ensures
            r@ == self@.ports,
    {
        self.port_meta.as_slice()
    }

    /// The link slots.
    pub(crate) fn link_entries(&self) -> (r: &[MaybePortIndex])
        ensures
            r@ == self@.links,
    {
        self.port_link.as_slice()
    }

    /// Creates an empty graph.
    pub fn new() -> (r: PortGraph)
        ensures
            r@.nodes.len() == 0,
            r@.ports.len() == 0,
            r@.links.len() == 0,
            r.free_slots() == Seq::<nat>::empty(),
    {
        let node_meta: Vec<NodeEntry> = Vec::new();
        let port_link: Vec<MaybePortIndex> = Vec::new();
        let port_meta: Vec<PortEntry> = Vec::new();
        let free_head = MaybeNodeIndex::new_none();
        proof {
            let ng = PortGraph { node_meta, port_link, port_meta, node_count: 0, port_count: 0, free_head };
            assert(free_list_ok(node_meta@, free_head@, Seq::empty()));
            ng.lemma_has_free_list(Seq::empty());
        }
        let r = PortGraph { node_meta, port_link, port_meta, node_count: 0, port_count: 0, free_head };
        proof {
            r.lemma_free_slots(Seq::empty());
        }
        r
    }

    /// Adds a node with the given numbers of incoming and outgoing ports.
    ///
    /// The node takes the first slot of the free list if there is one, and a
    /// new slot otherwise. Its ports take fresh indices after all existing
    /// ports, and start unlinked.
    pub fn add_node(&mut self, incoming: usize, outgoing: usize) -> (r: NodeIndex)
        requires
            incoming <= MAX_INCOMING,
            outgoing <= MAX_OUTGOING,
            incoming + outgoing <= u16::MAX,
            old(self)@.nodes.len() <= MAX_INDEX,
            old(self)@.ports.len() + incoming + outgoing <= MAX_INDEX + 1,
        ensures
            r@ == if old(self).free_slots().len() > 0 {
                old(self).free_slots()[0]
            } else {
                old(self)@.nodes.len()
            },
            !old(self)@.contains_node(r@),
            final(self)@.nodes.len() == if old(self).free_slots().len() > 0 {
                old(self)@.nodes.len()
            } else {
                old(self)@.nodes.len() + 1
            },
            final(self).free_slots() == if old(self).free_slots().len() > 0 {
                old(self).free_slots().drop_first()
            } else {
                old(self).free_slots()
            },
            forall|k: nat|
                k < old(self)@.nodes.len() && k != r@ ==> #[trigger] final(self)@.contains_node(k)
                    == old(self)@.contains_node(k),
            forall|k: nat|
                #[trigger] old(self)@.contains_node(k) ==> final(self)@.nodes[k as int]
                    == old(self)@.nodes[k as int],
            final(self)@.contains_node(r@),
            final(self)@.node_meta(r@) == (NodeMetaView {
                first_port: if incoming + outgoing > 0 {
                    old(self)@.ports.len()
                } else {
                    0
                },
                incoming: incoming as nat,
                outgoing: outgoing as nat,
                capacity: (incoming + outgoing) as nat,
            }),
            final(self)@.ports.len() == old(self)@.ports.len() + incoming + outgoing,
            final(self)@.ports.subrange(0, old(self)@.ports.len() as int) == old(self)@.ports,
            final(self)@.links.subrange(0, old(self)@.links.len() as int) == old(self)@.links,
            forall|p: nat|
                old(self)@.ports.len() <= p < final(self)@.ports.len() ==> final(self)@.link(p) is None,
    {
        proof {
            use_type_invariant(&*self);
        }
        let ghost old_g = self@;
        let ghost old_list = self.free_slots();
        let ghost old_head = self.free_head@;
        let mut g = PortGraph::new();
        std::mem::swap(self, &mut g);
        assert(g@ == old_g);
        let mut node_meta = g.node_meta;
        let mut port_link = g.port_link;
        let mut port_meta = g.port_meta;
        let node_count = g.node_count;
        let mut port_count = g.port_count;
        let free_head = g.free_head;

        let reuse = free_head.to_option();
        let node = match reuse {
            Some(h) => h,
            None => NodeIndex::new(node_meta.len()),
        };
        proof {
            if old_list.len() > 0 {
                assert(old_list[0] < old_g.nodes.len());
                assert(old_list.contains(old_list[0]));
            }
            assert(!old_g.contains_node(node@));
        }
        let total: usize = incoming + outgoing;
        let first: usize = if total > 0 {
            port_meta.len()
        } else {
            0
        };
        let meta = NodeMeta::try_new(
            PortIndex::new(first),
            incoming as u16,
            outgoing as u16,
            total as u16,
        ).unwrap();

        let ghost old_len = port_meta@.len();
        let mut i: usize = 0;
        while i < total
            invariant
                i <= total,
                total == incoming + outgoing,
                incoming <= MAX_INCOMING,
                old_len == old_g.ports.len(),
                old_len + total <= MAX_INDEX + 1,
                port_meta@.len() == old_len + i,
                port_link@.len() == port_meta@.len(),
                port_meta@.subrange(0, old_len as int) == old_g.ports,
                port_link@.subrange(0, old_len as int) == old_g.links,
                forall|j: int|
                    old_len <= j < port_meta@.len() ==> (#[trigger] port_meta@[j])@ == Some(
                        (
                            node@,
                            if j < old_len + incoming {
                                Direction::Incoming
                            } else {
                                Direction::Outgoing
                            },
                        ),
                    ),
                forall|j: int| old_len <= j < port_link@.len() ==> (#[trigger] port_link@[j])@ is None,
                port_count == indices_where(port_slot_used(port_meta@), 0, port_meta@.len() as int).len(),
            decreases total - i,
        {
            let dir = if i < incoming {
                Direction::Incoming
            } else {
                Direction::Outgoing
            };
            let entry = PortEntry::new(node, dir);
            proof {
                lemma_port_indices_push(port_meta@, entry);
                lemma_indices_where_props(port_slot_used(port_meta@), 0, port_meta@.len() as int);
            }
            port_meta.push(entry);
            port_link.push(MaybePortIndex::new_none());
            port_count = port_count + 1;
            i = i + 1;
            proof {
                assert(port_meta@.subrange(0, old_len as int) =~= old_g.ports);
                assert(port_link@.subrange(0, old_len as int) =~= old_g.links);
            }
        }
        let entry = NodeEntry::Node(meta);
        let ghost before_nodes = node_meta@;
        let ghost new_list = if old_list.len() > 0 {
            old_list.drop_first()
        } else {
            old_list
        };
        let new_head = match reuse {
            Some(h) => {
                let next = match &node_meta[h.index()] {
                    NodeEntry::Free(f) => f.next,
                    NodeEntry::Node(_) => MaybeNodeIndex::new_none(),
                };
                proof {
                    assert(free_links(before_nodes[old_list[0] as int]) == Some(
                        (
                            None::<nat>,
                            if 1 < old_list.len() {
                                Some(old_list[1])
                            } else {
                                None::<nat>
                            },
                        ),
                    ));
                }
                node_meta.set(h.index(), entry);
                match next.to_option() {
                    Some(h2) => {
                        proof {
                            assert(old_list[1] < before_nodes.len());
                            assert(old_list[1] != old_list[0]);
                            assert(free_links(before_nodes[old_list[1] as int]) == Some(
                                (
                                    Some(old_list[0]),
                                    if 2 < old_list.len() {
                                        Some(old_list[2])
                                    } else {
                                        None::<nat>
                                    },
                                ),
                            ));
                        }
                        let next2 = match &node_meta[h2.index()] {
                            NodeEntry::Free(f) => f.next,
                            NodeEntry::Node(_) => MaybeNodeIndex::new_none(),
                        };
                        node_meta.set(h2.index(), NodeEntry::new_free(MaybeNodeIndex::new_none(), next2));
                    },
                    None => {},
                }
                proof {
                    lemma_free_list_pop(before_nodes, node_meta@, old_head, old_list, next@);
                    lemma_indices_where_flip(
                        node_slot_used(node_meta@),
                        node_slot_used(before_nodes),
                        0,
                        node_meta@.len() as int,
                        node@ as int,
                    );
                }
                next
            },
            None => {
                proof {
                    lemma_node_indices_push(node_meta@, entry);
                    lemma_free_list_append(node_meta@, old_head, old_list, entry);
                }
                node_meta.push(entry);
                free_head
            },
        };
        let ghost new_g = PortGraphView { nodes: node_meta@, ports: port_meta@, links: port_link@ };
        proof {
            let n_new = node@;
            assert(new_g.nodes[n_new as int] == entry);
            assert forall|k: nat|
                k < old_g.nodes.len() && k != n_new implies (#[trigger] new_g.nodes[k as int] is Node
                <==> old_g.nodes[k as int] is Node) && (old_g.nodes[k as int] is Node ==> new_g.nodes[k as int]
                == old_g.nodes[k as int]) by {
                if old_list.len() > 1 && k == old_list[1] {
                    assert(old_list.contains(k));
                    assert(old_g.nodes[k as int] is Free);
                }
            }
            assert forall|p: nat| p < old_len implies #[trigger] new_g.port_entry(p) == old_g.port_entry(p)
                && new_g.link(p) == old_g.link(p) by {
                assert(new_g.ports[p as int] == new_g.ports.subrange(0, old_len as int)[p as int]);
                assert(new_g.links[p as int] == new_g.links.subrange(0, old_len as int)[p as int]);
            }
            assert forall|n: nat| #[trigger] new_g.contains_node(n) implies new_g.node_ok(n) by {
                if n != n_new {
                    assert(n < old_g.nodes.len());
                    assert(new_g.nodes[n as int] is Node <==> old_g.nodes[n as int] is Node);
                    assert(old_g.contains_node(n));
                    let m = old_g.node_meta(n);
                    assert forall|q: nat|
                        m.first_port <= q < m.first_port + m.port_count() implies #[trigger] new_g.port_entry(q)
                        == Some((n, port_dir_in(m, q))) by {
                        assert(old_g.port_entry(q) == Some((n, port_dir_in(m, q))));
                    }
                } else {
                    let m = new_g.node_meta(n);
                    assert forall|q: nat|
                        m.first_port <= q < m.first_port + m.port_count() implies #[trigger] new_g.port_entry(q)
                        == Some((n, port_dir_in(m, q))) by {
                        assert(new_g.ports[q as int]@ == Some((n, port_dir_in(m, q))));
                    }
                }
            }
            assert forall|p: nat| #[trigger] new_g.contains_port(p) implies new_g.port_ok(p) by {
                if p < old_len {
                    assert(old_g.contains_port(p));
                    let (n, d) = old_g.port_entry(p).unwrap();
                    assert(old_g.contains_node(n));
                    assert(n != n_new);
                    assert(n < old_g.nodes.len());
                } else {
                    assert(new_g.ports[p as int]@ is Some);
                }
            }
            assert forall|p: nat| #[trigger] new_g.link(p) is Some implies new_g.link_ok(p) by {
                if p < old_len {
                    assert(old_g.link(p) is Some);
                    let q = old_g.link(p).unwrap();
                    assert(old_g.contains_port(q));
                    assert(new_g.port_entry(q) == old_g.port_entry(q));
                    assert(new_g.link(q) == old_g.link(q));
                } else {
                    assert(new_g.links[p as int]@ is None);
                }
            }
            assert forall|p: nat|
                old_len <= p < new_g.ports.len() implies #[trigger] new_g.link(p) is None by {
                assert(new_g.links[p as int]@ is None);
            }
            assert forall|k: nat| k < old_g.nodes.len() && k != n_new implies #[trigger] new_g.contains_node(k)
                == old_g.contains_node(k) by {
                assert(new_g.nodes[k as int] is Node <==> old_g.nodes[k as int] is Node);
            }
            assert forall|k: nat| #[trigger] old_g.contains_node(k) implies new_g.nodes[k as int]
                == old_g.nodes[k as int] by {
                assert(k != n_new);
                assert(new_g.nodes[k as int] is Node <==> old_g.nodes[k as int] is Node);
            }
            lemma_indices_where_props(node_slot_used(old_g.nodes), 0, old_g.nodes.len() as int);
        }
        proof {
            let ng = PortGraph {
                node_meta,
                port_link,
                port_meta,
                node_count: (node_count + 1) as usize,
                port_count,
                free_head: new_head,
            };
            ng.lemma_has_free_list(new_list);
        }
        *self = PortGraph {
            node_meta,
            port_link,
            port_meta,
            node_count: node_count + 1,
            port_count,
            free_head: new_head,
        };
        proof {
            self.lemma_free_slots(new_list);
        }
        node
    }

    /// Links two ports of opposite directions.
    ///
    /// Fails, leaving the graph unchanged, if a port does not exist, if the
    /// ports have the same direction, or if a port is already linked (checked
    /// in that order, `port_a` before `port_b`).
    pub fn link_ports(&mut self, port_a: PortIndex, port_b: PortIndex) -> (r: Result<
        (PortIndex, PortIndex),
        LinkError,
    >)
        ensures
            match link_error(old(self)@, port_a, port_b) {
                Some(e) => r == Err::<(PortIndex, PortIndex), LinkError>(e) && final(self)@ == old(
                    self,
                )@,
                None => r == Ok::<(PortIndex, PortIndex), LinkError>((port_a, port_b))
                    && links_added(old(self)@, final(self)@, port_a@, port_b@),
            },
    {
        proof {
            use_type_invariant(&*self);
        }
        let dir_a = match self.port_direction(port_a) {
            Some(d) => d,
            None => {
                return Err(LinkError::UnknownPort { port: port_a });
            },
        };
        let dir_b = match self.port_direction(port_b) {
            Some(d) => d,
            None => {
                return Err(LinkError::UnknownPort { port: port_b });
            },
        };
        if dir_a == dir_b {
            return Err(LinkError::IncompatibleDirections { port_a, port_b, dir: dir_a });
        }
        let a = port_a.index();
        let b = port_b.index();
        if !self.port_link[a].is_none() {
            return Err(LinkError::AlreadyLinked { port: port_a });
        }
        if !self.port_link[b].is_none() {
            return Err(LinkError::AlreadyLinked { port: port_b });
        }
        let ghost old_g = self@;
        let mut g = PortGraph::new();
        std::mem::swap(self, &mut g);
        assert(g@ == old_g);
        let ghost old_list = g.free_slots();
        let node_meta = g.node_meta;
        let mut port_link = g.port_link;
        let port_meta = g.port_meta;
        let node_count = g.node_count;
        let port_count = g.port_count;
        let free_head = g.free_head;
        port_link.set(a, MaybePortIndex::new(port_b));
        port_link.set(b, MaybePortIndex::new(port_a));
        let ghost new_g = PortGraphView { nodes: node_meta@, ports: port_meta@, links: port_link@ };
        proof {
            assert forall|p: nat| p != a && p != b implies #[trigger] new_g.link(p) == old_g.link(p) by {
                if p < port_link@.len() {
                    assert(port_link@[p as int] == old_g.links[p as int]);
                }
            }
            assert(new_g.link(a as nat) == Some(b as nat));
            assert(new_g.link(b as nat) == Some(a as nat));
            assert forall|n: nat| #[trigger] new_g.contains_node(n) implies new_g.node_ok(n) by {
                assert(old_g.contains_node(n));
                let m = old_g.node_meta(n);
                assert forall|q: nat|
                    m.first_port <= q < m.first_port + m.port_count() implies #[trigger] new_g.port_entry(q)
                    == Some((n, port_dir_in(m, q))) by {
                    assert(old_g.port_entry(q) == Some((n, port_dir_in(m, q))));
                }
            }
            assert forall|p: nat| #[trigger] new_g.contains_port(p) implies new_g.port_ok(p) by {
                assert(old_g.contains_port(p));
            }
            assert forall|p: nat| #[trigger] new_g.link(p) is Some implies new_g.link_ok(p) by {
                if p != a && p != b {
                    assert(old_g.link(p) is Some);
                    let q = old_g.link(p).unwrap();
                    assert(old_g.link_ok(p));
                    assert(q != a && q != b);
                    assert(new_g.link(q) == old_g.link(q));
                } else if p == a {
                    assert(new_g.contains_port(b as nat));
                } else {
                    assert(new_g.contains_port(a as nat));
                }
            }
            assert(new_g.node_indices() == old_g.node_indices());
            assert(new_g.port_indices() == old_g.port_indices());
        }
        proof {
            let ng = PortGraph { node_meta, port_link, port_meta, node_count, port_count, free_head };
            ng.lemma_has_free_list(old_list);
        }
        *self = PortGraph { node_meta, port_link, port_meta, node_count, port_count, free_head };
        Ok((port_a, port_b))
    }

    /// Removes the link of a port, if it has one, and returns the port it was
    /// linked to.
    pub fn unlink_port(&mut self, port: PortIndex) -> (r: Option<PortIndex>)
        ensures
            match old(self)@.link(port@) {
                None => r is None && final(self)@ == old(self)@,
                Some(q) => r is Some && r.unwrap()@ == q && links_removed(
                    old(self)@,
                    final(self)@,
                    port@,
                    q,
                ),
            },
    {
        proof {
            use_type_invariant(&*self);
        }
        let other = match self.port_link(port) {
            Some(q) => q,
            None => {
                return None;
            },
        };
        let a = port.index();
        let b = other.index();
        let ghost old_g = self@;
        proof {
            assert(old_g.link_ok(a as nat));
        }
        let mut g = PortGraph::new();
        std::mem::swap(self, &mut g);
        assert(g@ == old_g);
        let ghost old_list = g.free_slots();
        let node_meta = g.node_meta;
        let mut port_link = g.port_link;
        let port_meta = g.port_meta;
        let node_count = g.node_count;
        let port_count = g.port_count;
        let free_head = g.free_head;
        port_link.set(a, MaybePortIndex::new_none());
        port_link.set(b, MaybePortIndex::new_none());
        let ghost new_g = PortGraphView { nodes: node_meta@, ports: port_meta@, links: port_link@ };
        proof {
            assert forall|p: nat| p != a && p != b implies #[trigger] new_g.link(p) == old_g.link(p) by {
                if p < port_link@.len() {
                    assert(port_link@[p as int] == old_g.links[p as int]);
                }
            }
            assert(new_g.link(a as nat) is None);
            assert(new_g.link(b as nat) is None);
            assert forall|n: nat| #[trigger] new_g.contains_node(n) implies new_g.node_ok(n) by {
                assert(old_g.contains_node(n));
                let m = old_g.node_meta(n);
                assert forall|q: nat|
                    m.first_port <= q < m.first_port + m.port_count() implies #[trigger] new_g.port_entry(q)
                    == Some((n, port_dir_in(m, q))) by {
                    assert(old_g.port_entry(q) == Some((n, port_dir_in(m, q))));
                }
            }
            assert forall|p: nat| #[trigger] new_g.contains_port(p) implies new_g.port_ok(p) by {
                assert(old_g.contains_port(p));
            }
            assert forall|p: nat| #[trigger] new_g.link(p) is Some implies new_g.link_ok(p) by {
                assert(p != a && p != b);
                assert(old_g.link(p) is Some);
                let q = old_g.link(p).unwrap();
                assert(old_g.link_ok(p));
                assert(q != a && q != b);
                assert(new_g.link(q) == old_g.link(q));
            }
            assert(new_g.node_indices() == old_g.node_indices());
            assert(new_g.port_indices() == old_g.port_indices());
        }
        proof {
            let ng = PortGraph { node_meta, port_link, port_meta, node_count, port_count, free_head };
            ng.lemma_has_free_list(old_list);
        }
        *self = PortGraph { node_meta, port_link, port_meta, node_count, port_count, free_head };
        Some(other)
    }

    /// Removes a node, if it exists: its slot becomes free and goes to the
    /// front of the free list, its ports become free, and every link of its
    /// ports is removed at both ends. Port slots are not reused.
    pub fn remove_node(&mut self, node: NodeIndex)
        ensures
            !old(self)@.contains_node(node@) ==> final(self)@ == old(self)@ && final(self).free_slots()
                == old(self).free_slots(),
            old(self)@.contains_node(node@) ==> node_removed(old(self)@, final(self)@, node@)
                && final(self).free_slots() == seq![node@] + old(self).free_slots(),
    {
        proof {
            use_type_invariant(&*self);
        }
        let meta = match self.node_meta_valid(node) {
            Some(m) => m,
            None => {
                return;
            },
        };
        let ghost g0 = self@;
        let ghost n = node@;
        let ghost m = g0.node_meta(n);
        let range = meta.all_ports();
        let lo = range.start;
        let hi = range.end;
        proof {
            assert(g0.node_ok(n));
        }
        let mut g = PortGraph::new();
        std::mem::swap(self, &mut g);
        assert(g@ == g0);
        let mut node_meta = g.node_meta;
        let mut port_link = g.port_link;
        let mut port_meta = g.port_meta;
        let node_count = g.node_count;
        let mut port_count = g.port_count;
        let free_head = g.free_head;
        let mut cur = lo;
        while cur < hi
            invariant
                g0.wf(),
                g0.contains_node(n),
                m == g0.node_meta(n),
                lo == m.first_port,
                hi == m.first_port + m.port_count(),
                lo <= cur <= hi,
                hi <= g0.ports.len(),
                node_meta@ == g0.nodes,
                port_meta@.len() == g0.ports.len(),
                port_link@.len() == g0.links.len(),
                forall|q: int|
                    0 <= q < port_meta@.len() ==> (#[trigger] port_meta@[q])@ == if lo <= q < cur {
                        None
                    } else {
                        g0.ports[q]@
                    },
                forall|q: int|
                    0 <= q < port_link@.len() ==> (#[trigger] port_link@[q])@ == if lo <= q < cur {
                        None
                    } else if g0.links[q]@ is Some && lo <= g0.links[q]@.unwrap() < cur {
                        None
                    } else {
                        g0.links[q]@
                    },
                port_count + (cur - lo) == g0.port_indices().len(),
                port_count == indices_where(port_slot_used(port_meta@), 0, port_meta@.len() as int).len(),
            decreases hi - cur,
        {
            proof {
                assert(g0.port_entry(cur as nat) == Some((n, port_dir_in(m, cur as nat))));
            }
            match port_link[cur].to_option() {
                Some(t) => {
                    let ti = t.index();
                    proof {
                        assert(g0.link(cur as nat) == Some(ti as nat));
                        assert(g0.link_ok(cur as nat));
                    }
                    port_link.set(ti, MaybePortIndex::new_none());
                },
                None => {},
            }
            port_link.set(cur, MaybePortIndex::new_none());
            let ghost before = port_meta@;
            let free = PortEntry::new_free();
            port_meta.set(cur, free);
            proof {
                lemma_indices_where_flip(
                    port_slot_used(before),
                    port_slot_used(port_meta@),
                    0,
                    port_meta@.len() as int,
                    cur as int,
                );
                lemma_indices_where_props(port_slot_used(port_meta@), 0, port_meta@.len() as int);
                assert forall|q: int| 0 <= q < port_link@.len() implies (#[trigger] port_link@[q])@
                    == if lo <= q < cur + 1 {
                    None
                } else if g0.links[q]@ is Some && lo <= g0.links[q]@.unwrap() < cur + 1 {
                    None
                } else {
                    g0.links[q]@
                } by {
                    if g0.links[q]@ is Some && g0.links[q]@.unwrap() == cur {
                        assert(g0.link(q as nat) is Some);
                        assert(g0.link_ok(q as nat));
                    }
                }
            }
            port_count = port_count - 1;
            cur = cur + 1;
        }
        let ghost before_nodes = node_meta@;
        let ghost old_list = g.free_slots();
        node_meta.set(node.index(), NodeEntry::new_free(MaybeNodeIndex::new_none(), free_head));
        match free_head.to_option() {
            Some(h) => {
                proof {
                    assert(old_list[0] < before_nodes.len());
                    assert(old_list.contains(old_list[0]));
                    assert(old_list[0] != n);
                    assert(free_links(before_nodes[old_list[0] as int]) == Some(
                        (
                            None::<nat>,
                            if 1 < old_list.len() {
                                Some(old_list[1])
                            } else {
                                None::<nat>
                            },
                        ),
                    ));
                }
                let next = match &node_meta[h.index()] {
                    NodeEntry::Free(f) => f.next,
                    NodeEntry::Node(_) => MaybeNodeIndex::new_none(),
                };
                node_meta.set(h.index(), NodeEntry::new_free(MaybeNodeIndex::new(node), next));
            },
            None => {},
        }
        proof {
            lemma_free_list_push(before_nodes, node_meta@, free_head@, old_list, n);
        }
        let ghost g1 = PortGraphView { nodes: node_meta@, ports: port_meta@, links: port_link@ };
        proof {
            assert forall|k: int|
                0 <= k < before_nodes.len() && k != n implies (#[trigger] node_meta@[k] is Node
                <==> before_nodes[k] is Node) && (before_nodes[k] is Node ==> node_meta@[k] == before_nodes[k]) by {
                if old_list.len() > 0 && k == old_list[0] {
                    assert(old_list.contains(k as nat));
                }
            }
            lemma_indices_where_flip(
                node_slot_used(before_nodes),
                node_slot_used(node_meta@),
                0,
                node_meta@.len() as int,
                n as int,
            );
            lemma_indices_where_props(node_slot_used(before_nodes), 0, before_nodes.len() as int);
            assert forall|q: nat| q < g1.ports.len() implies #[trigger] g1.port_entry(q) == if m.first_port
                <= q < m.first_port + m.port_count() {
                None
            } else {
                g0.port_entry(q)
            } by {
                assert(port_meta@[q as int]@ == if lo <= q < hi {
                    None
                } else {
                    g0.ports[q as int]@
                });
            }
            assert forall|q: nat| #[trigger] g1.link(q) == if m.first_port <= q < m.first_port + m.port_count() {
                None
            } else if g0.link(q) is Some && m.first_port <= g0.link(q).unwrap() < m.first_port
                + m.port_count() {
                None
            } else {
                g0.link(q)
            } by {
                if q < g1.links.len() {
                    assert(port_link@[q as int]@ == if lo <= q < hi {
                        None
                    } else if g0.links[q as int]@ is Some && lo <= g0.links[q as int]@.unwrap() < hi {
                        None
                    } else {
                        g0.links[q as int]@
                    });
                }
            }
            assert forall|k: nat| #[trigger] g1.contains_node(k) implies g1.node_ok(k) by {
                assert(k != n);
                assert(g1.nodes[k as int] is Node <==> g0.nodes[k as int] is Node);
                assert(g1.nodes[k as int] == g0.nodes[k as int]);
                assert(g0.contains_node(k));
                assert(g0.node_ok(k));
                let mk = g0.node_meta(k);
                assert forall|q: nat|
                    mk.first_port <= q < mk.first_port + mk.port_count() implies #[trigger] g1.port_entry(q)
                    == Some((k, port_dir_in(mk, q))) by {
                    assert(g0.port_entry(q) == Some((k, port_dir_in(mk, q))));
                    if m.first_port <= q < m.first_port + m.port_count() {
                        assert(g0.port_entry(q) == Some((n, port_dir_in(m, q))));
                    }
                }
            }
            assert forall|p: nat| #[trigger] g1.contains_port(p) implies g1.port_ok(p) by {
                assert(g0.contains_port(p));
                assert(g0.port_ok(p));
                let (k, d) = g0.port_entry(p).unwrap();
                if k == n {
                    assert(m.has_port(p, d));
                }
                assert(g0.contains_node(k));
                assert(g1.nodes[k as int] is Node <==> g0.nodes[k as int] is Node);
                assert(g1.nodes[k as int] == g0.nodes[k as int]);
            }
            assert forall|p: nat| #[trigger] g1.link(p) is Some implies g1.link_ok(p) by {
                assert(g0.link(p) is Some);
                assert(g0.link_ok(p));
                let t = g0.link(p).unwrap();
                assert(g0.link_ok(t));
            }
        }
        let new_head = MaybeNodeIndex::new(node);
        proof {
            let ng = PortGraph {
                node_meta,
                port_link,
                port_meta,
                node_count: (node_count - 1) as usize,
                port_count,
                free_head: new_head,
            };
            ng.lemma_has_free_list(seq![n] + old_list);
        }
        *self = PortGraph {
            node_meta,
            port_link,
            port_meta,
            node_count: node_count - 1,
            port_count,
            free_head: new_head,
        };
        proof {
            self.lemma_free_slots(seq![n] + old_list);
        }
    }

    /// Returns the number of nodes.
    pub fn node_count(&self) -> (r: usize)
        ensures
            r == self@.node_indices().len(),
    {
        proof {
            use_type_invariant(self);
        }
        self.node_count
    }

    /// Returns the number of ports.
    pub fn port_count(&self) -> (r: usize)
        ensures
            r == self@.port_indices().len(),
    {
        proof {
            use_type_invariant(self);
        }
        self.port_count
    }

    /// Returns the number of node slots, used or free.
    pub fn node_capacity(&self) -> (r: usize)
        ensures
            r == self@.nodes.len(),
    {
        self.node_meta.len()
    }

    /// Returns the number of port slots, used or free.
    pub fn port_capacity(&self) -> (r: usize)
        ensures
            r == self@.ports.len(),
    {
        self.port_meta.len()
    }

    /// Returns `true` if the graph has a node at this index.
    pub fn contains_node(&self, node: NodeIndex) -> (r: bool)
        ensures
            r == self@.contains_node(node@),
    {
        self.node_meta_valid(node).is_some()
    }

    /// Returns `true` if the graph has a port at this index.
    pub fn contains_port(&self, port: PortIndex) -> (r: bool)
        ensures
            r == self@.contains_port(port@),
    {
        self.port_node(port).is_some()
    }

    /// Returns the meta data of a node, if it exists.
    pub fn node_meta_valid(&self, node: NodeIndex) -> (r: Option<NodeMeta>)
        ensures
            r is Some <==> self@.contains_node(node@),
            r is Some ==> r.unwrap()@ == self@.node_meta(node@),
    {
        let i = node.index();
        if i < self.node_meta.len() {
            match self.node_meta[i] {
                NodeEntry::Node(meta) => Some(meta),
                NodeEntry::Free(_) => None,
            }
        } else {
            None
        }
    }

    /// Returns the node of a port, if the port exists.
    pub fn port_node(&self, port: PortIndex) -> (r: Option<NodeIndex>)
        ensures
            r is Some <==> self@.port_node(port@) is Some,
            r is Some ==> r.unwrap()@ == self@.port_node(port@).unwrap(),
    {
        let i = port.index();
        if i < self.port_meta.len() {
            match self.port_meta[i].as_meta() {
                Some(meta) => Some(meta.node),
                None => None,
            }
        } else {
            None
        }
    }

    /// Returns the direction of a port, if the port exists.
    pub fn port_direction(&self, port: PortIndex) -> (r: Option<Direction>)
        ensures
            r is Some <==> self@.contains_port(port@),
            r is Some ==> r.unwrap() == self@.port_entry(port@).unwrap().1,
    {
        let i = port.index();
        if i < self.port_meta.len() {
            match self.port_meta[i].as_meta() {
                Some(meta) => Some(meta.direction),
                None => None,
            }
        } else {
            None
        }
    }

    /// Returns the port linked to `port`, if any.
    pub fn port_link(&self, port: PortIndex) -> (r: Option<PortIndex>)
        ensures
            r is Some <==> self@.link(port@) is Some,
            r is Some ==> r.unwrap()@ == self@.link(port@).unwrap(),
    {
        let i = port.index();
        if i < self.port_link.len() {
            self.port_link[i].to_option()
        } else {
            None
        }
    }

    /// Returns the number of ports of a node in a direction; zero if the
    /// node does not exist.
    pub fn num_ports(&self, node: NodeIndex, direction: Direction) -> (r: usize)
        ensures
            r == if self@.contains_node(node@) {
                self@.node_meta(node@).num_ports(direction)
            } else {
                0
            },
    {
        match self.node_meta_valid(node) {
            Some(meta) => meta.num_ports(direction),
            None => 0,
        }
    }

    /// Returns the number of incoming ports of a node; zero if the node does
    /// not exist.
    pub fn num_inputs(&self, node: NodeIndex) -> (r: usize)
        ensures
            r == if self@.contains_node(node@) {
                self@.node_meta(node@).incoming
            } else {
                0
            },
            r <= MAX_INCOMING,
    {
        match self.node_meta_valid(node) {
            Some(meta) => meta.incoming(),
            None => 0,
        }
    }

    /// Returns the number of outgoing ports of a node; zero if the node does
    /// not exist.
    pub fn num_outputs(&self, node: NodeIndex) -> (r: usize)
        ensures
            r == if self@.contains_node(node@) {
                self@.node_meta(node@).outgoing
            } else {
                0
            },
            r <= MAX_OUTGOING,
    {
        match self.node_meta_valid(node) {
            Some(meta) => meta.outgoing(),
            None => 0,
        }
    }
}

} // verus!
