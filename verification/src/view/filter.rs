//! Wrappers around port graphs that filter out nodes and links.

use vstd::prelude::*;

use crate::index::{Direction, NodeIndex, PortIndex};
use crate::portgraph::iter::{
    endpoints_in, lemma_forward_items_step, lemma_reads_ports_items, lemma_reads_ports_targets,
    node_all_link_items, node_link_items, offset_seq, range_seq, NodeConnections, NodeLinks,
    NodePortOffsets, NodePorts, connection_items,
};
use crate::portgraph::{PortGraph, PortGraphView};

verus! {

/// A wrapper around a graph that filters out nodes and links.
#[derive(Debug, Copy, Clone)]
pub struct FilteredGraph<G, FN, FP, Context = ()> {
    graph: G,
    node_filter: FN,
    link_filter: FP,
    context: Context,
}

impl<G, FN, FP, Ctx> FilteredGraph<G, FN, FP, Ctx> {
    /// The wrapped graph.
    pub closed spec fn inner(self) -> G {
        self.graph
    }

    /// The node filter.
    pub closed spec fn node_filter_fn(self) -> FN {
        self.node_filter
    }

    /// The link filter.
    pub closed spec fn link_filter_fn(self) -> FP {
        self.link_filter
    }

    /// The context handed to the filters.
    pub closed spec fn ctx(self) -> Ctx {
        self.context
    }

    /// Creates a filtered graph.
    pub fn new(graph: G, node_filter: FN, link_filter: FP, context: Ctx) -> (r: Self)
        ensures
            r.inner() == graph,
            r.node_filter_fn() == node_filter,
            r.link_filter_fn() == link_filter,
            r.ctx() == context,
    {
        FilteredGraph { graph, node_filter, link_filter, context }
    }

    /// Returns the context handed to the filters.
    pub fn context(&self) -> (r: &Ctx)
        ensures
            *r == self.ctx(),
    {
        &self.context
    }
}

/// Names the constructor of graphs filtered by nodes only:
/// [`NodeFiltered::new_node_filtered`] builds a [`FilteredGraph`] whose link
/// filter keeps every link.
pub type NodeFiltered<G, FN, Context = ()> = FilteredGraph<G, FN, (), Context>;

impl<G, FN, Ctx> FilteredGraph<G, FN, (), Ctx> {
    /// Creates a graph filtered by nodes only: its link filter keeps every
    /// link.
    pub fn new_node_filtered(graph: G, node_filter: FN, context: Ctx) -> (r: FilteredGraph<
        G,
        FN,
        impl Fn(PortIndex, &Ctx) -> bool,
        Ctx,
    >)
        ensures
            r.inner() == graph,
            r.node_filter_fn() == node_filter,
            r.ctx() == context,
            forall|p: PortIndex, c: &Ctx| call_requires(r.link_filter_fn(), (p, c)),
            forall|p: PortIndex, c: &Ctx, b: bool| call_ensures(r.link_filter_fn(), (p, c), b) ==> b,
    {
        let keep_all = |_p: PortIndex, _c: &Ctx| -> (b: bool)
            ensures
                b,
            {
                let keep: bool = true;
                keep
            };
        FilteredGraph::new(graph, node_filter, keep_all, context)
    }
}

/// The items of `s` whose flag in `kept` is set, in order.
pub open spec fn select<T>(s: Seq<T>, kept: Seq<bool>) -> Seq<T>
    decreases s.len(),
{
    if s.len() == 0 {
        Seq::empty()
    } else {
        let init = select(s.drop_last(), kept.drop_last());
        if kept[s.len() - 1] {
            init.push(s.last())
        } else {
            init
        }
    }
}

/// Selecting from a longer sequence adds the new item when its flag is set.
pub proof fn lemma_select_push<T>(s: Seq<T>, kept: Seq<bool>, x: T, b: bool)
    requires
        s.len() == kept.len(),
    ensures
        select(s.push(x), kept.push(b)) == if b {
            select(s, kept).push(x)
        } else {
            select(s, kept)
        },
{
    assert(s.push(x).drop_last() =~= s);
    assert(kept.push(b).drop_last() =~= kept);
}

/// A selection is no longer than the sequence it selects from.
pub proof fn lemma_select_len<T>(s: Seq<T>, kept: Seq<bool>)
    requires
        s.len() == kept.len(),
    ensures
        select(s, kept).len() <= s.len(),
    decreases s.len(),
{
    if s.len() > 0 {
        lemma_select_len(s.drop_last(), kept.drop_last());
    }
}

/// Every item of a selection is an item of the sequence it selects from.
pub proof fn lemma_select_member<T>(s: Seq<T>, kept: Seq<bool>, j: int)
    requires
        s.len() == kept.len(),
        0 <= j < select(s, kept).len(),
    ensures
        exists|i: int| 0 <= i < s.len() && #[trigger] s[i] == select(s, kept)[j],
    decreases s.len(),
{
    let init = s.drop_last();
    let ki = kept.drop_last();
    if j < select(init, ki).len() {
        lemma_select_member(init, ki, j);
        let i = choose|i: int| 0 <= i < init.len() && #[trigger] init[i] == select(init, ki)[j];
        assert(init[i] == s[i]);
    } else {
        assert(s[s.len() - 1] == select(s, kept)[j]);
    }
}

/// Every item of a selection is an item of the sequence whose flag is set.
pub proof fn lemma_select_member_kept<T>(s: Seq<T>, kept: Seq<bool>, j: int)
    requires
        s.len() == kept.len(),
        0 <= j < select(s, kept).len(),
    ensures
        exists|i: int| 0 <= i < s.len() && kept[i] && #[trigger] s[i] == select(s, kept)[j],
    decreases s.len(),
{
    let init = s.drop_last();
    let ki = kept.drop_last();
    if j < select(init, ki).len() {
        lemma_select_member_kept(init, ki, j);
        let i = choose|i: int| 0 <= i < init.len() && ki[i] && #[trigger] init[i] == select(init, ki)[j];
        assert(init[i] == s[i] && ki[i] == kept[i]);
    } else {
        assert(s[s.len() - 1] == select(s, kept)[j]);
    }
}

/// Every item whose flag is set is in the selection.
pub proof fn lemma_select_keeps<T>(s: Seq<T>, kept: Seq<bool>, i: int)
    requires
        s.len() == kept.len(),
        0 <= i < s.len(),
        kept[i],
    ensures
        select(s, kept).contains(s[i]),
    decreases s.len(),
{
    let init = s.drop_last();
    let ki = kept.drop_last();
    if i < s.len() - 1 {
        lemma_select_keeps(init, ki, i);
        assert(init[i] == s[i]);
        let j = choose|j: int| 0 <= j < select(init, ki).len() && select(init, ki)[j] == init[i];
        assert(select(s, kept)[j] == s[i]);
    } else {
        assert(select(s, kept)[select(s, kept).len() - 1] == s[i]);
    }
}

/// Keeping every item selects the whole sequence.
pub proof fn lemma_select_all<T>(s: Seq<T>, kept: Seq<bool>)
    requires
        s.len() == kept.len(),
        forall|i: int| 0 <= i < kept.len() ==> #[trigger] kept[i],
    ensures
        select(s, kept) == s,
    decreases s.len(),
{
    if s.len() > 0 {
        lemma_select_all(s.drop_last(), kept.drop_last());
        assert(s.drop_last().push(s.last()) =~= s);
    } else {
        assert(select(s, kept) =~= s);
    }
}

/// A selection from nodes in increasing index order is in increasing index
/// order.
pub proof fn lemma_select_increasing(s: Seq<NodeIndex>, kept: Seq<bool>)
    requires
        s.len() == kept.len(),
        forall|i: int, j: int| 0 <= i < j < s.len() ==> (#[trigger] s[i])@ < (#[trigger] s[j])@,
    ensures
        forall|i: int, j: int|
            0 <= i < j < select(s, kept).len() ==> (#[trigger] select(s, kept)[i])@ < (
            #[trigger] select(s, kept)[j])@,
    decreases s.len(),
{
    if s.len() > 0 {
        let init = s.drop_last();
        let ki = kept.drop_last();
        lemma_select_increasing(init, ki);
        let t = select(s, kept);
        let u = select(init, ki);
        assert forall|i: int, j: int| 0 <= i < j < t.len() implies (#[trigger] t[i])@ < (
        #[trigger] t[j])@ by {
            if j >= u.len() {
                lemma_select_member(init, ki, i);
                let a = choose|a: int| 0 <= a < init.len() && #[trigger] init[a] == u[i];
                assert(init[a] == s[a]);
                assert(t[i] == u[i]);
                assert(t[j] == s[s.len() - 1]);
            } else {
                assert(t[i] == u[i] && t[j] == u[j]);
            }
        }
    }
}

/// The sum of a sequence of numbers.
pub open spec fn sum_nat(s: Seq<nat>) -> nat
    decreases s.len(),
{
    if s.len() == 0 {
        0
    } else {
        sum_nat(s.drop_last()) + s.last()
    }
}

/// The sum of two sequences joined is the sum of their sums.
pub proof fn lemma_sum_nat_append(s: Seq<nat>, t: Seq<nat>)
    ensures
        sum_nat(s + t) == sum_nat(s) + sum_nat(t),
    decreases t.len(),
{
    if t.len() > 0 {
        lemma_sum_nat_append(s, t.drop_last());
        assert((s + t).drop_last() =~= s + t.drop_last());
    } else {
        assert(s + t =~= s);
    }
}

/// Sums add up their items: nothing sums to zero, one number sums to
/// itself, and the sum of a joined sequence is the sum of the sums; each
/// item is at most the sum.
pub proof fn lemma_sum_nat(s: Seq<nat>, t: Seq<nat>, x: nat)
    ensures
        sum_nat(Seq::<nat>::empty()) == 0,
        sum_nat(seq![x]) == x,
        sum_nat(s + t) == sum_nat(s) + sum_nat(t),
        sum_nat(s.push(x)) == sum_nat(s) + x,
        forall|i: int| 0 <= i < s.len() ==> #[trigger] s[i] <= sum_nat(s),
{
    lemma_sum_nat_append(s, t);
    lemma_sum_nat_append(s, seq![x]);
    assert(s + seq![x] =~= s.push(x));
    assert(seq![x].drop_last() =~= Seq::<nat>::empty());
    assert forall|i: int| 0 <= i < s.len() implies #[trigger] s[i] <= sum_nat(s) by {
        let a = s.take(i);
        let b = s.skip(i);
        assert(a + b =~= s);
        lemma_sum_nat_append(a, b);
        let c = b.skip(1);
        assert(seq![s[i]] + c =~= b);
        lemma_sum_nat_append(seq![s[i]], c);
    }
}

/// Graph queries on a filtered port graph. A node is kept when the node
/// filter accepts it; a port is kept when its node is; a link is kept when
/// both its ports are kept and the link filter accepts both.
impl<'a, FN, FP, Ctx> FilteredGraph<&'a PortGraph, FN, FP, Ctx> where
    FN: Fn(NodeIndex, &Ctx) -> bool,
    FP: Fn(PortIndex, &Ctx) -> bool,
 {
    /// The wrapped graph's contents.
    pub open spec fn graph_view(self) -> PortGraphView {
        self.inner()@
    }

    /// Both filters can be called on every index.
    pub open spec fn filters_ready(self) -> bool {
        &&& forall|n: NodeIndex| #[trigger] call_requires(self.node_filter_fn(), (n, &self.ctx()))
        &&& forall|p: PortIndex| #[trigger] call_requires(self.link_filter_fn(), (p, &self.ctx()))
    }

    /// The node filter may answer `b` for `n`.
    pub open spec fn keeps_node(self, n: NodeIndex, b: bool) -> bool {
        call_ensures(self.node_filter_fn(), (n, &self.ctx()), b)
    }

    /// The link filter may answer `b` for `p`.
    pub open spec fn keeps_port(self, p: PortIndex, b: bool) -> bool {
        call_ensures(self.link_filter_fn(), (p, &self.ctx()), b)
    }

    /// The node filter may answer `b` for the node of port `p`.
    pub open spec fn owner_kept(self, p: PortIndex, b: bool) -> bool {
        exists|n: NodeIndex|
            n@ == self.graph_view().port_node(p@).unwrap() && #[trigger] self.keeps_node(n, b)
    }

    /// `b` is a possible verdict on link `l`: keeping it needs both its
    /// nodes and both its ports accepted; dropping it needs one refusal.
    pub open spec fn link_verdict(self, l: (PortIndex, PortIndex), b: bool) -> bool {
        if b {
            &&& self.owner_kept(l.0, true)
            &&& self.owner_kept(l.1, true)
            &&& self.keeps_port(l.0, true)
            &&& self.keeps_port(l.1, true)
        } else {
            ||| self.owner_kept(l.0, false)
            ||| self.owner_kept(l.1, false)
            ||| self.keeps_port(l.0, false)
            ||| self.keeps_port(l.1, false)
        }
    }

    /// `visited` are the wrapped graph's nodes in order, and `kept` the
    /// filter's verdicts on them.
    pub open spec fn node_selection(self, visited: Seq<NodeIndex>, kept: Seq<bool>) -> bool {
        let ns = self.graph_view().node_indices();
        &&& visited.len() == ns.len()
        &&& kept.len() == ns.len()
        &&& forall|i: int|
            0 <= i < ns.len() ==> (#[trigger] visited[i])@ == ns[i] && self.keeps_node(
                visited[i],
                kept[i],
            )
    }

    /// `visited` are the wrapped graph's ports in order, and `kept` the
    /// verdicts on their nodes.
    pub open spec fn port_selection(self, visited: Seq<PortIndex>, kept: Seq<bool>) -> bool {
        let ps = self.graph_view().port_indices();
        &&& visited.len() == ps.len()
        &&& kept.len() == ps.len()
        &&& forall|i: int|
            0 <= i < ps.len() ==> (#[trigger] visited[i])@ == ps[i] && self.owner_kept(
                visited[i],
                kept[i],
            )
    }

    /// `visited` are the links `items`, and `kept` the verdicts on them.
    pub open spec fn link_selection(
        self,
        items: Seq<(nat, nat)>,
        visited: Seq<(PortIndex, PortIndex)>,
        kept: Seq<bool>,
    ) -> bool {
        &&& visited.len() == items.len()
        &&& kept.len() == items.len()
        &&& forall|i: int|
            0 <= i < items.len() ==> ((#[trigger] visited[i]).0@, visited[i].1@) == items[i]
                && self.link_verdict(visited[i], kept[i])
    }

    /// A verdict keeping a link means that the node filter accepted the
    /// nodes of both its ports and the link filter accepted both ports; a
    /// verdict dropping it means that one of these answers was a refusal.
    pub proof fn lemma_link_verdict(self, l: (PortIndex, PortIndex), b: bool)
        requires
            self.link_verdict(l, b),
        ensures
            b ==> {
                &&& exists|n: NodeIndex|
                    n@ == self.graph_view().port_node(l.0@).unwrap() && #[trigger] call_ensures(
                        self.node_filter_fn(),
                        (n, &self.ctx()),
                        true,
                    )
                &&& exists|n: NodeIndex|
                    n@ == self.graph_view().port_node(l.1@).unwrap() && #[trigger] call_ensures(
                        self.node_filter_fn(),
                        (n, &self.ctx()),
                        true,
                    )
                &&& call_ensures(self.link_filter_fn(), (l.0, &self.ctx()), true)
                &&& call_ensures(self.link_filter_fn(), (l.1, &self.ctx()), true)
            },
            !b ==> {
                ||| exists|n: NodeIndex|
                    n@ == self.graph_view().port_node(l.0@).unwrap() && #[trigger] call_ensures(
                        self.node_filter_fn(),
                        (n, &self.ctx()),
                        false,
                    )
                ||| exists|n: NodeIndex|
                    n@ == self.graph_view().port_node(l.1@).unwrap() && #[trigger] call_ensures(
                        self.node_filter_fn(),
                        (n, &self.ctx()),
                        false,
                    )
                ||| call_ensures(self.link_filter_fn(), (l.0, &self.ctx()), false)
                ||| call_ensures(self.link_filter_fn(), (l.1, &self.ctx()), false)
            },
    {
    }

    /// The links a query reports from the candidate links `items` are among
    /// them, each with its ports' nodes accepted by the node filter and both
    /// its ports accepted by the link filter; every candidate whose verdict
    /// was to keep it is reported.
    pub proof fn lemma_reported_links(
        self,
        items: Seq<(nat, nat)>,
        visited: Seq<(PortIndex, PortIndex)>,
        kept: Seq<bool>,
    )
        requires
            self.link_selection(items, visited, kept),
        ensures
            forall|j: int|
                0 <= j < select(visited, kept).len() ==> {
                    let l = #[trigger] select(visited, kept)[j];
                    &&& exists|i: int| 0 <= i < items.len() && items[i] == (l.0@, l.1@)
                    &&& exists|n: NodeIndex|
                        n@ == self.graph_view().port_node(l.0@).unwrap() && #[trigger] call_ensures(
                            self.node_filter_fn(),
                            (n, &self.ctx()),
                            true,
                        )
                    &&& exists|n: NodeIndex|
                        n@ == self.graph_view().port_node(l.1@).unwrap() && #[trigger] call_ensures(
                            self.node_filter_fn(),
                            (n, &self.ctx()),
                            true,
                        )
                    &&& call_ensures(self.link_filter_fn(), (l.0, &self.ctx()), true)
                    &&& call_ensures(self.link_filter_fn(), (l.1, &self.ctx()), true)
                },
            forall|i: int|
                0 <= i < items.len() && #[trigger] kept[i] ==> select(visited, kept).contains(visited[i]),
    {
        assert forall|j: int| 0 <= j < select(visited, kept).len() implies {
            let l = #[trigger] select(visited, kept)[j];
            &&& exists|i: int| 0 <= i < items.len() && items[i] == (l.0@, l.1@)
            &&& exists|n: NodeIndex|
                n@ == self.graph_view().port_node(l.0@).unwrap() && #[trigger] call_ensures(
                    self.node_filter_fn(),
                    (n, &self.ctx()),
                    true,
                )
            &&& exists|n: NodeIndex|
                n@ == self.graph_view().port_node(l.1@).unwrap() && #[trigger] call_ensures(
                    self.node_filter_fn(),
                    (n, &self.ctx()),
                    true,
                )
            &&& call_ensures(self.link_filter_fn(), (l.0, &self.ctx()), true)
            &&& call_ensures(self.link_filter_fn(), (l.1, &self.ctx()), true)
        } by {
            lemma_select_member_kept(visited, kept, j);
            let i = choose|i: int|
                0 <= i < visited.len() && kept[i] && #[trigger] visited[i] == select(visited, kept)[j];
            assert(self.link_verdict(visited[i], kept[i]));
            self.lemma_link_verdict(visited[i], true);
        }
        assert forall|i: int| 0 <= i < items.len() && #[trigger] kept[i] implies select(
            visited,
            kept,
        ).contains(visited[i]) by {
            lemma_select_keeps(visited, kept, i);
        }
    }

    /// With a node filter that gives one answer per node, the kept nodes are
    /// determined: any two selections agree.
    pub proof fn lemma_node_selection_unique(
        self,
        v1: Seq<NodeIndex>,
        k1: Seq<bool>,
        v2: Seq<NodeIndex>,
        k2: Seq<bool>,
    )
        requires
            self.node_selection(v1, k1),
            self.node_selection(v2, k2),
            forall|n: NodeIndex, b1: bool, b2: bool|
                self.keeps_node(n, b1) && self.keeps_node(n, b2) ==> b1 == b2,
        ensures
            select(v1, k1) == select(v2, k2),
    {
        assert forall|i: int| 0 <= i < v1.len() implies v1[i] == v2[i] && k1[i] == k2[i] by {
            NodeIndex::lemma_view_eq(v1[i], v2[i]);
            assert(self.keeps_node(v1[i], k1[i]));
            assert(self.keeps_node(v1[i], k2[i]));
        }
        assert(v1 =~= v2);
        assert(k1 =~= k2);
    }

    /// A node filter that keeps every node keeps all the nodes of the graph,
    /// in order.
    pub proof fn lemma_keep_all_nodes(self, visited: Seq<NodeIndex>, kept: Seq<bool>)
        requires
            self.node_selection(visited, kept),
            forall|n: NodeIndex, b: bool| #[trigger] self.keeps_node(n, b) ==> b,
        ensures
            select(visited, kept) == visited,
            select(visited, kept).map_values(|n: NodeIndex| n@) == self.graph_view().node_indices(),
    {
        assert forall|i: int| 0 <= i < kept.len() implies #[trigger] kept[i] by {
            assert(self.keeps_node(visited[i], kept[i]));
        }
        lemma_select_all(visited, kept);
        assert(visited.map_values(|n: NodeIndex| n@) =~= self.graph_view().node_indices());
    }

    /// Node filter used by the queries.
    fn node_filter(&self, node: &NodeIndex) -> (r: bool)
        requires
            self.filters_ready(),
        ensures
            self.keeps_node(*node, r),
    {
        proof {
            assert(call_requires(self.node_filter_fn(), (*node, &self.ctx())));
        }
        (self.node_filter)(*node, &self.context)
    }

    /// Port filter used by the queries: a port is kept when its node is.
    fn port_filter(&self, port: &PortIndex) -> (r: bool)
        requires
            self.filters_ready(),
            self.graph_view().contains_port(port@),
        ensures
            self.owner_kept(*port, r),
    {
        let node = self.graph.port_node(*port).unwrap();
        self.node_filter(&node)
    }

    /// Link filter used by the queries: a link is kept when both its ports
    /// are kept and the link filter accepts both.
    fn link_filter(&self, link: &(PortIndex, PortIndex)) -> (r: bool)
        requires
            self.filters_ready(),
            self.graph_view().contains_port(link.0@),
            self.graph_view().contains_port(link.1@),
        ensures
            self.link_verdict(*link, r),
    {
        let (from, to) = *link;
        proof {
            assert(call_requires(self.link_filter_fn(), (from, &self.ctx())));
            assert(call_requires(self.link_filter_fn(), (to, &self.ctx())));
        }
        self.port_filter(&from) && self.port_filter(&to) && (self.link_filter)(from, &self.context)
            && (self.link_filter)(to, &self.context)
    }

    /// Returns `true` if the graph has the node and the filter keeps it.
    pub fn contains_node(&self, node: NodeIndex) -> (r: bool)
        requires
            self.filters_ready(),
        ensures
            r ==> self.graph_view().contains_node(node@) && self.keeps_node(node, true),
            self.graph_view().contains_node(node@) ==> self.keeps_node(node, r),
    {
        proof {
            assert(call_requires(self.node_filter_fn(), (node, &self.ctx())));
        }
        self.graph.contains_node(node) && (self.node_filter)(node, &self.context)
    }

    /// Returns `true` if the graph has the port and the filter keeps its
    /// node.
    pub fn contains_port(&self, port: PortIndex) -> (r: bool)
        requires
            self.filters_ready(),
        ensures
            r ==> self.graph_view().contains_port(port@) && self.owner_kept(port, true),
            self.graph_view().contains_port(port@) ==> self.owner_kept(port, r),
    {
        proof {
            use_type_invariant(self.graph);
        }
        if self.graph.contains_port(port) {
            let node = self.graph.port_node(port).unwrap();
            proof {
                assert(self.graph_view().port_ok(port@));
            }
            self.contains_node(node)
        } else {
            false
        }
    }

    /// Returns the kept nodes, in increasing index order.
    pub fn nodes_iter(&self) -> (r: Vec<NodeIndex>)
        requires
            self.filters_ready(),
        ensures
            exists|visited: Seq<NodeIndex>, kept: Seq<bool>|
                self.node_selection(visited, kept) && r@ == select(visited, kept),
    {
        let ghost ns = self.graph_view().node_indices();
        let mut it = self.graph._nodes_iter();
        let mut r: Vec<NodeIndex> = Vec::new();
        let ghost mut visited: Seq<NodeIndex> = Seq::empty();
        let ghost mut kept: Seq<bool> = Seq::empty();
        loop
            invariant
                self.filters_ready(),
                ns == self.graph_view().node_indices(),
                visited.len() <= ns.len(),
                kept.len() == visited.len(),
                it@ == ns.skip(visited.len() as int),
                forall|i: int|
                    0 <= i < visited.len() ==> (#[trigger] visited[i])@ == ns[i] && self.keeps_node(
                        visited[i],
                        kept[i],
                    ),
                r@ == select(visited, kept),
            ensures
                visited.len() == ns.len(),
                kept.len() == visited.len(),
                forall|i: int|
                    0 <= i < visited.len() ==> (#[trigger] visited[i])@ == ns[i] && self.keeps_node(
                        visited[i],
                        kept[i],
                    ),
                r@ == select(visited, kept),
            decreases ns.len() - visited.len(),
        {
            let ghost before = it@;
            match it.next() {
                None => {
                    break ;
                },
                Some(n) => {
                    let keep = self.node_filter(&n);
                    if keep {
                        r.push(n);
                    }
                    proof {
                        lemma_select_push(visited, kept, n, keep);
                        visited = visited.push(n);
                        kept = kept.push(keep);
                        assert(it@ =~= ns.skip(visited.len() as int));
                    }
                },
            }
        }
        proof {
            assert(self.node_selection(visited, kept));
        }
        r
    }

    /// Returns the number of kept nodes.
    pub fn node_count(&self) -> (r: usize)
        requires
            self.filters_ready(),
        ensures
            exists|visited: Seq<NodeIndex>, kept: Seq<bool>|
                self.node_selection(visited, kept) && r == select(visited, kept).len(),
    {
        self.nodes_iter().len()
    }

    /// Returns `true` if no node is kept.
    pub fn is_empty(&self) -> (r: bool)
        requires
            self.filters_ready(),
        ensures
            exists|visited: Seq<NodeIndex>, kept: Seq<bool>|
                self.node_selection(visited, kept) && r == (select(visited, kept).len() == 0),
    {
        self.node_count() == 0
    }

    /// Returns the ports of kept nodes, in increasing index order.
    pub fn ports_iter(&self) -> (r: Vec<PortIndex>)
        requires
            self.filters_ready(),
        ensures
            exists|visited: Seq<PortIndex>, kept: Seq<bool>|
                self.port_selection(visited, kept) && r@ == select(visited, kept),
    {
        let ghost ps = self.graph_view().port_indices();
        proof {
            use_type_invariant(self.graph);
        }
        let mut it = self.graph._ports_iter();
        let mut r: Vec<PortIndex> = Vec::new();
        let ghost mut visited: Seq<PortIndex> = Seq::empty();
        let ghost mut kept: Seq<bool> = Seq::empty();
        loop
            invariant
                self.filters_ready(),
                ps == self.graph_view().port_indices(),
                visited.len() <= ps.len(),
                kept.len() == visited.len(),
                it@ == ps.skip(visited.len() as int),
                forall|i: int|
                    0 <= i < visited.len() ==> (#[trigger] visited[i])@ == ps[i] && self.owner_kept(
                        visited[i],
                        kept[i],
                    ),
                r@ == select(visited, kept),
            ensures
                visited.len() == ps.len(),
                kept.len() == visited.len(),
                forall|i: int|
                    0 <= i < visited.len() ==> (#[trigger] visited[i])@ == ps[i] && self.owner_kept(
                        visited[i],
                        kept[i],
                    ),
                r@ == select(visited, kept),
            decreases ps.len() - visited.len(),
        {
            match it.next() {
                None => {
                    break ;
                },
                Some(p) => {
                    proof {
                        crate::portgraph::lemma_indices_where_props(
                            crate::portgraph::port_slot_used(self.graph_view().ports),
                            0,
                            self.graph_view().ports.len() as int,
                        );
                        assert(ps[visited.len() as int] == p@);
                    }
                    let keep = self.port_filter(&p);
                    if keep {
                        r.push(p);
                    }
                    proof {
                        lemma_select_push(visited, kept, p, keep);
                        visited = visited.push(p);
                        kept = kept.push(keep);
                        assert(it@ =~= ps.skip(visited.len() as int));
                    }
                },
            }
        }
        proof {
            assert(self.port_selection(visited, kept));
        }
        r
    }

    /// Returns the number of ports of kept nodes.
    pub fn port_count(&self) -> (r: usize)
        requires
            self.filters_ready(),
        ensures
            exists|visited: Seq<PortIndex>, kept: Seq<bool>|
                self.port_selection(visited, kept) && r == select(visited, kept).len(),
    {
        self.ports_iter().len()
    }
    /// Keeps those of the links left in `it`, going forward, that the
    /// filters keep.
    fn collect_links(&self, it: NodeLinks<'a>) -> (r: Vec<(PortIndex, PortIndex)>)
        requires
            self.filters_ready(),
            endpoints_in(it, self.graph_view()),
        ensures
            exists|visited: Seq<(PortIndex, PortIndex)>, kept: Seq<bool>|
                self.link_selection(it.forward_items(), visited, kept) && r@ == select(
                    visited,
                    kept,
                ),
            forall|i: int|
                0 <= i < r@.len() ==> self.graph_view().contains_port((#[trigger] r@[i]).0@)
                    && self.graph_view().contains_port(r@[i].1@),
    {
        let ghost g = self.graph_view();
        let ghost items = it.forward_items();
        let ghost it0 = it;
        let mut it = it;
        let mut r: Vec<(PortIndex, PortIndex)> = Vec::new();
        let ghost mut visited: Seq<(PortIndex, PortIndex)> = Seq::empty();
        let ghost mut kept: Seq<bool> = Seq::empty();
        loop
            invariant
                self.filters_ready(),
                g == self.graph_view(),
                it.same_source(it0),
                it.back() == it0.back(),
                endpoints_in(it0, g),
                items == it0.forward_items(),
                visited.len() <= items.len(),
                kept.len() == visited.len(),
                it.forward_items() == items.skip(visited.len() as int),
                forall|i: int|
                    0 <= i < visited.len() ==> ((#[trigger] visited[i]).0@, visited[i].1@)
                        == items[i] && self.link_verdict(visited[i], kept[i]),
                r@ == select(visited, kept),
                forall|i: int|
                    0 <= i < r@.len() ==> g.contains_port((#[trigger] r@[i]).0@) && g.contains_port(
                        r@[i].1@,
                    ),
            ensures
                visited.len() == items.len(),
                kept.len() == visited.len(),
                forall|i: int|
                    0 <= i < visited.len() ==> ((#[trigger] visited[i]).0@, visited[i].1@)
                        == items[i] && self.link_verdict(visited[i], kept[i]),
                r@ == select(visited, kept),
                forall|i: int|
                    0 <= i < r@.len() ==> g.contains_port((#[trigger] r@[i]).0@) && g.contains_port(
                        r@[i].1@,
                    ),
            decreases items.len() - visited.len(),
        {
            let ghost prev = it;
            proof {
                crate::portgraph::lemma_indices_where_props(
                    crate::portgraph::iter::forward_pred(
                        prev.first_port(),
                        prev.slots(),
                        prev.ignore_lo(),
                        prev.ignore_hi(),
                    ),
                    prev.front() as int,
                    prev.back() as int,
                );
                if prev.forward_positions().len() > 0 {
                    let k = prev.forward_positions()[0] as int;
                    assert(prev.pair_at(k) == it0.pair_at(k));
                    assert(it0.pair_at(k) is Some);
                }
            }
            match it.next() {
                None => {
                    proof {
                        assert(prev.forward_items().len() == 0);
                    }
                    break ;
                },
                Some(link) => {
                    proof {
                        lemma_forward_items_step(prev, it);
                        assert(prev.forward_items()[0] == items[visited.len() as int]);
                    }
                    let keep = self.link_filter(&link);
                    if keep {
                        r.push(link);
                    }
                    proof {
                        lemma_select_push(visited, kept, link, keep);
                        visited = visited.push(link);
                        kept = kept.push(keep);
                        assert(it.forward_items() =~= items.skip(visited.len() as int));
                    }
                },
            }
        }
        r
    }

    /// Returns the kept links of the ports of `node` in `direction`, as
    /// pairs of a port of the node and the port it is linked to.
    pub fn links(&self, node: NodeIndex, direction: Direction) -> (r: Vec<(PortIndex, PortIndex)>)
        requires
            self.filters_ready(),
        ensures
            exists|visited: Seq<(PortIndex, PortIndex)>, kept: Seq<bool>|
                self.link_selection(
                    node_link_items(self.graph_view(), node@, direction),
                    visited,
                    kept,
                ) && r@ == select(visited, kept),
            forall|i: int|
                0 <= i < r@.len() ==> self.graph_view().contains_port((#[trigger] r@[i]).0@)
                    && self.graph_view().contains_port(r@[i].1@),
    {
        proof {
            use_type_invariant(self.graph);
        }
        let it = self.graph._links(node, direction);
        proof {
            let g = self.graph_view();
            if g.contains_node(node@) {
                let lo = g.node_meta(node@).dir_start(direction);
                let hi = g.node_meta(node@).dir_end(direction);
                lemma_reads_ports_targets(it, g, lo, hi);
                lemma_reads_ports_items(it, g, lo, hi);
            } else {
                lemma_reads_ports_targets(it, g, 0, 0);
                lemma_reads_ports_items(it, g, 0, 0);
                assert(it.forward_items() =~= node_link_items(g, node@, direction));
            }
        }
        self.collect_links(it)
    }

    /// Returns the kept links of all the ports of `node`, each self-link of
    /// the node once.
    pub fn all_links(&self, node: NodeIndex) -> (r: Vec<(PortIndex, PortIndex)>)
        requires
            self.filters_ready(),
        ensures
            exists|visited: Seq<(PortIndex, PortIndex)>, kept: Seq<bool>|
                self.link_selection(node_all_link_items(self.graph_view(), node@), visited, kept)
                    && r@ == select(visited, kept),
            forall|i: int|
                0 <= i < r@.len() ==> self.graph_view().contains_port((#[trigger] r@[i]).0@)
                    && self.graph_view().contains_port(r@[i].1@),
    {
        proof {
            use_type_invariant(self.graph);
        }
        let it = self.graph._all_links(node);
        proof {
            let g = self.graph_view();
            if g.contains_node(node@) {
                let m = g.node_meta(node@);
                lemma_reads_ports_targets(it, g, m.first_port, m.first_port + m.port_count());
                lemma_reads_ports_items(it, g, m.first_port, m.first_port + m.port_count());
            } else {
                lemma_reads_ports_targets(it, g, 0, 0);
                lemma_reads_ports_items(it, g, 0, 0);
                assert(it.forward_items() =~= node_all_link_items(g, node@));
            }
        }
        self.collect_links(it)
    }

    /// The nodes at the far ends of `links`.
    fn far_nodes(&self, links: &Vec<(PortIndex, PortIndex)>) -> (r: Vec<NodeIndex>)
        requires
            forall|i: int|
                0 <= i < links@.len() ==> self.graph_view().contains_port((#[trigger] links@[i]).1@),
        ensures
            r@.map_values(|n: NodeIndex| n@) == links@.map_values(
                |l: (PortIndex, PortIndex)| self.graph_view().port_node(l.1@).unwrap(),
            ),
    {
        let mut r: Vec<NodeIndex> = Vec::new();
        let mut i: usize = 0;
        while i < links.len()
            invariant
                i <= links@.len(),
                r@.len() == i,
                forall|j: int|
                    0 <= j < links@.len() ==> self.graph_view().contains_port(
                        (#[trigger] links@[j]).1@,
                    ),
                forall|j: int|
                    0 <= j < i ==> (#[trigger] r@[j])@ == self.graph_view().port_node(
                        links@[j].1@,
                    ).unwrap(),
            decreases links@.len() - i,
        {
            let (_, port) = links[i];
            let node = self.graph.port_node(port).unwrap();
            r.push(node);
            i = i + 1;
        }
        proof {
            assert(r@.map_values(|n: NodeIndex| n@) =~= links@.map_values(
                |l: (PortIndex, PortIndex)| self.graph_view().port_node(l.1@).unwrap(),
            ));
        }
        r
    }

    /// Returns the neighbours of `node` in `direction`: the node at the far
    /// end of each kept link, once per link.
    pub fn neighbours(&self, node: NodeIndex, direction: Direction) -> (r: Vec<NodeIndex>)
        requires
            self.filters_ready(),
        ensures
            exists|visited: Seq<(PortIndex, PortIndex)>, kept: Seq<bool>|
                self.link_selection(
                    node_link_items(self.graph_view(), node@, direction),
                    visited,
                    kept,
                ) && r@.map_values(|n: NodeIndex| n@) == select(visited, kept).map_values(
                    |l: (PortIndex, PortIndex)| self.graph_view().port_node(l.1@).unwrap(),
                ),
    {
        let links = self.links(node, direction);
        self.far_nodes(&links)
    }

    /// Returns the neighbours of `node` through all its kept links.
    pub fn all_neighbours(&self, node: NodeIndex) -> (r: Vec<NodeIndex>)
        requires
            self.filters_ready(),
        ensures
            exists|visited: Seq<(PortIndex, PortIndex)>, kept: Seq<bool>|
                self.link_selection(node_all_link_items(self.graph_view(), node@), visited, kept)
                    && r@.map_values(|n: NodeIndex| n@) == select(visited, kept).map_values(
                    |l: (PortIndex, PortIndex)| self.graph_view().port_node(l.1@).unwrap(),
                ),
    {
        let links = self.all_links(node);
        self.far_nodes(&links)
    }
    /// Returns the kept links from the outgoing ports of `from` to ports of
    /// `to`.
    pub fn get_connections(&self, from: NodeIndex, to: NodeIndex) -> (r: Vec<(PortIndex, PortIndex)>)
        requires
            self.filters_ready(),
        ensures
            exists|visited: Seq<(PortIndex, PortIndex)>, kept: Seq<bool>|
                self.link_selection(connection_items(self.graph_view(), from@, to@), visited, kept)
                    && r@ == select(visited, kept),
    {
        proof {
            use_type_invariant(self.graph);
        }
        let ghost g = self.graph_view();
        let mut it = self.graph._get_connections(from, to);
        let ghost it0 = it;
        let ghost items = connection_items(g, from@, to@);
        proof {
            if g.contains_node(from@) {
                lemma_reads_ports_targets(
                    it.links(),
                    g,
                    g.node_meta(from@).dir_start(Direction::Outgoing),
                    g.node_meta(from@).dir_end(Direction::Outgoing),
                );
            } else {
                lemma_reads_ports_targets(it.links(), g, 0, 0);
            }
        }
        let mut r: Vec<(PortIndex, PortIndex)> = Vec::new();
        let ghost mut visited: Seq<(PortIndex, PortIndex)> = Seq::empty();
        let ghost mut kept: Seq<bool> = Seq::empty();
        loop
            invariant
                self.filters_ready(),
                g == self.graph_view(),
                it.graph_view() == g,
                it.target() == it0.target(),
                it.links().same_source(it0.links()),
                it.links().back() == it0.links().back(),
                endpoints_in(it0.links(), g),
                visited.len() <= items.len(),
                kept.len() == visited.len(),
                it.connection_items_left() == items.skip(visited.len() as int),
                forall|i: int|
                    0 <= i < visited.len() ==> ((#[trigger] visited[i]).0@, visited[i].1@)
                        == items[i] && self.link_verdict(visited[i], kept[i]),
                r@ == select(visited, kept),
            ensures
                visited.len() == items.len(),
                kept.len() == visited.len(),
                forall|i: int|
                    0 <= i < visited.len() ==> ((#[trigger] visited[i]).0@, visited[i].1@)
                        == items[i] && self.link_verdict(visited[i], kept[i]),
                r@ == select(visited, kept),
            decreases items.len() - visited.len(),
        {
            let ghost prev = it;
            proof {
                let l = prev.links();
                crate::portgraph::lemma_indices_where_props(
                    crate::portgraph::iter::connection_pred(
                        g,
                        prev.target(),
                        l.first_port(),
                        l.slots(),
                        l.ignore_lo(),
                        l.ignore_hi(),
                    ),
                    l.front() as int,
                    l.back() as int,
                );
                if prev.connection_positions().len() > 0 {
                    let k = prev.connection_positions()[0] as int;
                    assert(l.pair_at(k) == it0.links().pair_at(k));
                    assert(it0.links().pair_at(k) is Some);
                }
            }
            match it.next() {
                None => {
                    proof {
                        assert(prev.connection_items_left().len() == 0);
                    }
                    break ;
                },
                Some(link) => {
                    proof {
                        assert(prev.connection_positions().len() > 0);
                        assert(prev.connection_items_left().len() > 0);
                        assert(items.skip(visited.len() as int).len() > 0);
                        assert(visited.len() < items.len());
                        assert(items.skip(visited.len() as int)[0] == items[visited.len() as int]);
                        assert(prev.connection_items_left()[0] == items[visited.len() as int]);
                        assert(it.connection_items_left() =~= prev.connection_items_left().drop_first());
                    }
                    let keep = self.link_filter(&link);
                    if keep {
                        r.push(link);
                    }
                    proof {
                        lemma_select_push(visited, kept, link, keep);
                        visited = visited.push(link);
                        kept = kept.push(keep);
                        assert(it.connection_items_left() =~= items.skip(visited.len() as int));
                    }
                },
            }
        }
        r
    }

    /// Returns the link of a port, as a pair of the port and the port it is
    /// linked to, if the port has a link and the filters keep it.
    pub fn port_links(&self, port: PortIndex) -> (r: Vec<(PortIndex, PortIndex)>)
        requires
            self.filters_ready(),
        ensures
            self.graph_view().link(port@) is None ==> r@.len() == 0,
            self.graph_view().link(port@) is Some ==> exists|other: PortIndex, keep: bool|
                {
                    &&& other@ == self.graph_view().link(port@).unwrap()
                    &&& self.link_verdict((port, other), keep)
                    &&& r@ == if keep {
                        seq![(port, other)]
                    } else {
                        Seq::empty()
                    }
                },
    {
        proof {
            use_type_invariant(self.graph);
        }
        let mut r: Vec<(PortIndex, PortIndex)> = Vec::new();
        match self.graph.port_link(port) {
            None => {},
            Some(other) => {
                proof {
                    crate::portgraph::lemma_links_symmetric(self.graph_view(), port@);
                }
                let link = (port, other);
                let keep = self.link_filter(&link);
                if keep {
                    r.push(link);
                }
                proof {
                    if keep {
                        assert(r@ =~= seq![(port, other)]);
                    } else {
                        assert(r@ =~= Seq::<(PortIndex, PortIndex)>::empty());
                    }
                }
            },
        }
        r
    }

    /// Returns the direction of a port of the wrapped graph.
    pub fn port_direction(&self, port: PortIndex) -> (r: Option<Direction>)
        ensures
            r is Some <==> self.graph_view().contains_port(port@),
            r is Some ==> r.unwrap() == self.graph_view().port_entry(port@).unwrap().1,
    {
        self.graph.port_direction(port)
    }

    /// Returns the node of a port of the wrapped graph.
    pub fn port_node(&self, port: PortIndex) -> (r: Option<NodeIndex>)
        ensures
            r is Some <==> self.graph_view().port_node(port@) is Some,
            r is Some ==> r.unwrap()@ == self.graph_view().port_node(port@).unwrap(),
    {
        self.graph.port_node(port)
    }

    /// Returns the number of ports of a node of the wrapped graph.
    pub fn num_ports(&self, node: NodeIndex, direction: Direction) -> (r: usize)
        ensures
            r == if self.graph_view().contains_node(node@) {
                self.graph_view().node_meta(node@).num_ports(direction)
            } else {
                0
            },
    {
        self.graph.num_ports(node, direction)
    }

    /// Iterates over the ports of a node of the wrapped graph.
    pub fn ports(&self, node: NodeIndex, direction: Direction) -> (r: NodePorts)
        ensures
            r@ == if self.graph_view().contains_node(node@) {
                range_seq(
                    self.graph_view().node_meta(node@).dir_start(direction) as int,
                    self.graph_view().node_meta(node@).dir_end(direction) as int,
                )
            } else {
                Seq::empty()
            },
    {
        self.graph._ports(node, direction)
    }

    /// Iterates over all the ports of a node of the wrapped graph.
    pub fn all_ports(&self, node: NodeIndex) -> (r: NodePorts)
        ensures
            r@ == if self.graph_view().contains_node(node@) {
                range_seq(
                    self.graph_view().node_meta(node@).first_port as int,
                    (self.graph_view().node_meta(node@).first_port + self.graph_view().node_meta(
                        node@,
                    ).port_count()) as int,
                )
            } else {
                Seq::empty()
            },
    {
        self.graph._all_ports(node)
    }

    /// Iterates over the port offsets of a node of the wrapped graph.
    pub fn port_offsets(&self, node: NodeIndex, direction: Direction) -> (r: NodePortOffsets)
        ensures
            r@ == offset_seq(
                direction,
                0,
                if self.graph_view().contains_node(node@) {
                    self.graph_view().node_meta(node@).num_ports(direction) as int
                } else {
                    0
                },
            ),
    {
        self.graph._port_offsets(node, direction)
    }

    /// Iterates over all the port offsets of a node of the wrapped graph.
    pub fn all_port_offsets(&self, node: NodeIndex) -> (r: NodePortOffsets)
        ensures
            r@ == offset_seq(
                Direction::Incoming,
                0,
                if self.graph_view().contains_node(node@) {
                    self.graph_view().node_meta(node@).incoming as int
                } else {
                    0
                },
            ) + offset_seq(
                Direction::Outgoing,
                0,
                if self.graph_view().contains_node(node@) {
                    self.graph_view().node_meta(node@).outgoing as int
                } else {
                    0
                },
            ),
    {
        self.graph._all_port_offsets(node)
    }

    /// Returns the number of node slots of the wrapped graph.
    pub fn node_capacity(&self) -> (r: usize)
        ensures
            r == self.graph_view().nodes.len(),
    {
        self.graph.node_capacity()
    }

    /// Returns the number of port slots of the wrapped graph.
    pub fn port_capacity(&self) -> (r: usize)
        ensures
            r == self.graph_view().ports.len(),
    {
        self.graph.port_capacity()
    }
    /// `c` is a possible number of kept links of all the ports of `n`.
    pub open spec fn link_count_of(self, n: NodeIndex, c: nat) -> bool {
        exists|visited: Seq<(PortIndex, PortIndex)>, kept: Seq<bool>|
            self.link_selection(node_all_link_items(self.graph_view(), n@), visited, kept) && select(
                visited,
                kept,
            ).len() == c
    }

    /// Returns the number of kept links of the kept nodes, counting each
    /// self-link once.
    pub fn link_count(&self) -> (r: usize)
        requires
            self.filters_ready(),
        ensures
            exists|visited: Seq<NodeIndex>, kept: Seq<bool>, counts: Seq<nat>|
                {
                    &&& self.node_selection(visited, kept)
                    &&& counts.len() == select(visited, kept).len()
                    &&& forall|i: int|
                        0 <= i < counts.len() ==> self.link_count_of(
                            select(visited, kept)[i],
                            #[trigger] counts[i],
                        )
                    &&& r == sum_nat(counts)
                },
    {
        proof {
            use_type_invariant(self.graph);
        }
        let ghost g = self.graph_view();
        let nodes = self.nodes_iter();
        let ghost (visited, kept) = choose|visited: Seq<NodeIndex>, kept: Seq<bool>|
            self.node_selection(visited, kept) && nodes@ == select(visited, kept);
        let ghost ns = g.node_indices();
        proof {
            crate::portgraph::lemma_indices_where_props(
                crate::portgraph::node_slot_used(g.nodes),
                0,
                g.nodes.len() as int,
            );
            assert forall|i: int, j: int| 0 <= i < j < visited.len() implies (
            #[trigger] visited[i])@ < (#[trigger] visited[j])@ by {
                assert(ns[i] < ns[j]);
            }
            lemma_select_increasing(visited, kept);
            assert forall|j: int| 0 <= j < nodes@.len() implies g.contains_node(
                (#[trigger] nodes@[j])@,
            ) by {
                lemma_select_member(visited, kept, j);
                let i = choose|i: int|
                    0 <= i < visited.len() && #[trigger] visited[i] == select(visited, kept)[j];
                assert(g.nodes[ns[i] as int] is Node);
            }
            vstd::set_lib::lemma_int_range(0, g.ports.len() as int);
        }
        let mut total: usize = 0;
        let mut i: usize = 0;
        let ghost mut counts: Seq<nat> = Seq::empty();
        let ghost mut covered: Set<int> = Set::empty();
        while i < nodes.len()
            invariant
                self.filters_ready(),
                g == self.graph_view(),
                g.wf(),
                g.ports.len() <= crate::index::MAX_INDEX + 1,
                nodes@ == select(visited, kept),
                self.node_selection(visited, kept),
                i <= nodes@.len(),
                counts.len() == i,
                forall|j: int|
                    0 <= j < i ==> self.link_count_of(nodes@[j], #[trigger] counts[j]),
                total == sum_nat(counts),
                forall|a: int, b: int|
                    0 <= a < b < nodes@.len() ==> (#[trigger] nodes@[a])@ < (#[trigger] nodes@[b])@,
                forall|j: int| 0 <= j < nodes@.len() ==> g.contains_node((#[trigger] nodes@[j])@),
                covered.finite(),
                covered.subset_of(vstd::set_lib::set_int_range(0, g.ports.len() as int)),
                vstd::set_lib::set_int_range(0, g.ports.len() as int).finite(),
                vstd::set_lib::set_int_range(0, g.ports.len() as int).len() == g.ports.len(),
                total <= covered.len(),
                forall|q: int|
                    #[trigger] covered.contains(q) ==> g.port_entry(q as nat) is Some && exists|j: int|
                        0 <= j < i && g.port_entry(q as nat).unwrap().0 == (#[trigger] nodes@[j])@,
            decreases nodes@.len() - i,
        {
            let n = nodes[i];
            let links = self.all_links(n);
            let ghost m = g.node_meta(n@);
            let ghost lo = m.first_port as int;
            let ghost hi = (m.first_port + m.port_count()) as int;
            let ghost range = vstd::set_lib::set_int_range(lo, hi);
            proof {
                assert(g.contains_node(n@));
                assert(g.node_ok(n@));
                let (lv, lk) = choose|lv: Seq<(PortIndex, PortIndex)>, lk: Seq<bool>|
                    self.link_selection(node_all_link_items(g, n@), lv, lk) && links@ == select(lv, lk);
                lemma_select_len(lv, lk);
                crate::portgraph::lemma_indices_where_props(
                    crate::portgraph::iter::forward_pred(
                        m.first_port,
                        g.links.subrange(lo, hi),
                        m.dir_start(Direction::Outgoing),
                        m.dir_end(Direction::Outgoing),
                    ),
                    0,
                    hi - lo,
                );
                assert(links@.len() <= hi - lo);
                vstd::set_lib::lemma_int_range(lo, hi);
                assert forall|q: int| #[trigger] covered.contains(q) implies !range.contains(q) by {
                    if range.contains(q) {
                        assert(g.port_entry(q as nat) == Some((n@, crate::portgraph::port_dir_in(m, q as nat))));
                        let j = choose|j: int|
                            0 <= j < i && g.port_entry(q as nat).unwrap().0 == (#[trigger] nodes@[j])@;
                        assert(nodes@[j]@ < nodes@[i as int]@);
                    }
                }
                assert(covered.disjoint(range));
                vstd::set_lib::lemma_set_disjoint_lens(covered, range);
                assert((covered + range).subset_of(vstd::set_lib::set_int_range(0, g.ports.len() as int)));
                vstd::set_lib::lemma_len_subset(
                    covered + range,
                    vstd::set_lib::set_int_range(0, g.ports.len() as int),
                );
            }
            total = total + links.len();
            proof {
                let (lv, lk) = choose|lv: Seq<(PortIndex, PortIndex)>, lk: Seq<bool>|
                    self.link_selection(node_all_link_items(g, n@), lv, lk) && links@ == select(lv, lk);
                assert(self.link_count_of(n, links@.len()));
                let old_counts = counts;
                counts = counts.push(links@.len());
                assert(counts.drop_last() =~= old_counts);
                let old_covered = covered;
                covered = covered + range;
                assert forall|q: int| #[trigger] covered.contains(q) implies g.port_entry(q as nat) is Some
                    && exists|j: int|
                    0 <= j < i + 1 && g.port_entry(q as nat).unwrap().0 == (#[trigger] nodes@[j])@ by {
                    if old_covered.contains(q) {
                        let j = choose|j: int|
                            0 <= j < i && g.port_entry(q as nat).unwrap().0 == (#[trigger] nodes@[j])@;
                        assert(0 <= j < i + 1);
                    } else {
                        assert(g.port_entry(q as nat) == Some((n@, crate::portgraph::port_dir_in(m, q as nat))));
                        assert(g.port_entry(q as nat).unwrap().0 == nodes@[i as int]@);
                    }
                }
            }
            i = i + 1;
        }
        total
    }
}

} // verus!
