use portgraph::view::filter::NodeFiltered;
use portgraph::view::FilteredGraph;
use portgraph::{Direction, NodeIndex, PortGraph, PortIndex};

/// a(1 in, 2 out), b(2 in, 1 out), c(1 in, 0 out);
/// a.out0 -> b.in1, a.out1 -> b.in0, b.out0 -> a.in0, c unlinked.
fn sample() -> PortGraph {
    let mut g = PortGraph::new();
    let a = g.add_node(1, 2);
    let b = g.add_node(2, 1);
    let c = g.add_node(1, 0);
    assert_eq!((a.index(), b.index(), c.index()), (0, 1, 2));
    g.link_ports(PortIndex::new(1), PortIndex::new(4)).unwrap();
    g.link_ports(PortIndex::new(2), PortIndex::new(3)).unwrap();
    g.link_ports(PortIndex::new(5), PortIndex::new(0)).unwrap();
    g
}

fn idx(v: Vec<NodeIndex>) -> Vec<usize> {
    v.into_iter().map(|n| n.index()).collect()
}

fn pairs(v: Vec<(PortIndex, PortIndex)>) -> Vec<(usize, usize)> {
    v.into_iter().map(|(a, b)| (a.index(), b.index())).collect()
}

#[test]
fn node_filtered() {
    let g = sample();
    let f = NodeFiltered::new_node_filtered(&g, |n: NodeIndex, ctx: &usize| n.index() != *ctx, 1usize);
    assert_eq!(*f.context(), 1);
    assert!(f.contains_node(NodeIndex::new(0)));
    assert!(!f.contains_node(NodeIndex::new(1)));
    assert!(!f.contains_node(NodeIndex::new(7)));
    assert!(f.contains_port(PortIndex::new(0)));
    assert!(!f.contains_port(PortIndex::new(3)));
    assert!(!f.contains_port(PortIndex::new(9)));
    assert_eq!(idx(f.nodes_iter()), vec![0, 2]);
    assert_eq!(f.node_count(), 2);
    assert!(!f.is_empty());
    assert_eq!(f.ports_iter().into_iter().map(|p| p.index()).collect::<Vec<_>>(), vec![0, 1, 2, 6]);
    assert_eq!(f.port_count(), 4);
    // Links to the filtered-out node disappear.
    assert_eq!(pairs(f.links(NodeIndex::new(0), Direction::Outgoing)), vec![]);
    assert_eq!(pairs(f.all_links(NodeIndex::new(0))), vec![]);
    assert_eq!(f.link_count(), 0);
    assert_eq!(idx(f.neighbours(NodeIndex::new(0), Direction::Outgoing)), vec![]);
    // Delegated queries see the whole graph.
    assert_eq!(f.port_node(PortIndex::new(3)), Some(NodeIndex::new(1)));
    assert_eq!(f.port_direction(PortIndex::new(3)), Some(Direction::Incoming));
    assert_eq!(f.num_ports(NodeIndex::new(1), Direction::Incoming), 2);
    assert_eq!(f.ports(NodeIndex::new(1), Direction::Incoming).count(), 2);
    assert_eq!(f.all_ports(NodeIndex::new(1)).count(), 3);
    assert_eq!(f.port_offsets(NodeIndex::new(1), Direction::Outgoing).count(), 1);
    assert_eq!(f.all_port_offsets(NodeIndex::new(1)).count(), 3);
    assert_eq!(f.node_capacity(), 3);
    assert_eq!(f.port_capacity(), 7);
}

#[test]
fn keep_everything() {
    let g = sample();
    let f = FilteredGraph::new(&g, |_n: NodeIndex, _c: &()| true, |_p: PortIndex, _c: &()| true, ());
    assert_eq!(f.node_count(), 3);
    assert_eq!(pairs(f.links(NodeIndex::new(0), Direction::Outgoing)), vec![(1, 4), (2, 3)]);
    assert_eq!(pairs(f.all_links(NodeIndex::new(1))), vec![(3, 2), (4, 1), (5, 0)]);
    assert_eq!(idx(f.all_neighbours(NodeIndex::new(0))), vec![1, 1, 1]);
    assert_eq!(pairs(f.get_connections(NodeIndex::new(0), NodeIndex::new(1))), vec![(1, 4), (2, 3)]);
    assert_eq!(pairs(f.get_connections(NodeIndex::new(1), NodeIndex::new(0))), vec![(5, 0)]);
    // Each link is seen once from each end: 3 links from a, 3 from b.
    assert_eq!(f.link_count(), 6);
}

#[test]
fn link_filtered() {
    let g = sample();
    // Drop links touching port 4.
    let f = FilteredGraph::new(
        &g,
        |_n: NodeIndex, _c: &usize| true,
        |p: PortIndex, c: &usize| p.index() != *c,
        4usize,
    );
    assert_eq!(pairs(f.links(NodeIndex::new(0), Direction::Outgoing)), vec![(2, 3)]);
    assert_eq!(idx(f.neighbours(NodeIndex::new(1), Direction::Incoming)), vec![0]);
    assert_eq!(pairs(f.get_connections(NodeIndex::new(0), NodeIndex::new(1))), vec![(2, 3)]);
    assert_eq!(f.link_count(), 4);
    let none = FilteredGraph::new(&g, |_n: NodeIndex, _c: &()| false, |_p: PortIndex, _c: &()| true, ());
    assert!(none.is_empty());
    assert_eq!(none.port_count(), 0);
}

#[test]
fn port_links_filtered() {
    let g = sample();
    let all = FilteredGraph::new(&g, |_n: NodeIndex, _c: &()| true, |_p: PortIndex, _c: &()| true, ());
    assert_eq!(pairs(all.port_links(PortIndex::new(1))), vec![(1, 4)]);
    assert_eq!(pairs(all.port_links(PortIndex::new(6))), vec![]);
    assert_eq!(pairs(all.port_links(PortIndex::new(60))), vec![]);
    let no_b = NodeFiltered::new_node_filtered(&g, |n: NodeIndex, _c: &()| n.index() != 1, ());
    assert_eq!(pairs(no_b.port_links(PortIndex::new(1))), vec![]);
    assert_eq!(pairs(no_b.get_connections(NodeIndex::new(0), NodeIndex::new(1))), vec![]);
}
