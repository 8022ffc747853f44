use portgraph::{Direction, LinkError, NodeIndex, PortGraph, PortIndex};

fn collect_ports(mut it: portgraph::portgraph::NodePorts) -> Vec<usize> {
    let mut v = Vec::new();
    while let Some(p) = it.next() {
        v.push(p.index());
    }
    v
}

/// Two nodes: a(1 in, 2 out) and b(2 in, 1 out), with a.out0 -> b.in1 and
/// a.out1 -> b.in0, and b.out0 -> a.in0.
fn sample() -> (PortGraph, NodeIndex, NodeIndex) {
    let mut g = PortGraph::new();
    let a = g.add_node(1, 2);
    let b = g.add_node(2, 1);
    // a: ports 0 (in), 1, 2 (out); b: ports 3, 4 (in), 5 (out)
    g.link_ports(PortIndex::new(1), PortIndex::new(4)).unwrap();
    g.link_ports(PortIndex::new(2), PortIndex::new(3)).unwrap();
    g.link_ports(PortIndex::new(5), PortIndex::new(0)).unwrap();
    (g, a, b)
}

#[test]
fn add_nodes_and_ports() {
    let (g, a, b) = sample();
    assert_eq!(a.index(), 0);
    assert_eq!(b.index(), 1);
    assert_eq!(g.node_count(), 2);
    assert_eq!(g.port_count(), 6);
    assert!(g.contains_node(a));
    assert!(!g.contains_node(NodeIndex::new(2)));
    assert_eq!(g.port_node(PortIndex::new(4)), Some(b));
    assert_eq!(g.port_direction(PortIndex::new(4)), Some(Direction::Incoming));
    assert_eq!(g.port_direction(PortIndex::new(5)), Some(Direction::Outgoing));
    assert_eq!(g.port_node(PortIndex::new(6)), None);
    assert_eq!(g.num_inputs(a), 1);
    assert_eq!(g.num_outputs(a), 2);
    assert_eq!(g.num_ports(b, Direction::Incoming), 2);
    assert_eq!(g.num_inputs(NodeIndex::new(9)), 0);
    assert_eq!(collect_ports(g._inputs(a)), vec![0]);
    assert_eq!(collect_ports(g._outputs(a)), vec![1, 2]);
    assert_eq!(collect_ports(g._all_ports(b)), vec![3, 4, 5]);
    assert_eq!(collect_ports(g._ports(NodeIndex::new(7), Direction::Incoming)), Vec::<usize>::new());
}

#[test]
fn empty_node() {
    let mut g = PortGraph::new();
    let n = g.add_node(0, 0);
    assert_eq!(g.node_meta_valid(n).unwrap().first_port().index(), 0);
    assert_eq!(g._all_ports(n).len(), 0);
    let m = g.add_node(1, 0);
    assert_eq!(collect_ports(g._all_ports(m)), vec![0]);
}

#[test]
fn link_errors() {
    let (mut g, _a, _b) = sample();
    assert_eq!(
        g.link_ports(PortIndex::new(9), PortIndex::new(0)),
        Err(LinkError::UnknownPort { port: PortIndex::new(9) })
    );
    assert_eq!(
        g.link_ports(PortIndex::new(0), PortIndex::new(9)),
        Err(LinkError::UnknownPort { port: PortIndex::new(9) })
    );
    assert_eq!(
        g.link_ports(PortIndex::new(1), PortIndex::new(2)),
        Err(LinkError::IncompatibleDirections {
            port_a: PortIndex::new(1),
            port_b: PortIndex::new(2),
            dir: Direction::Outgoing
        })
    );
    assert_eq!(
        g.link_ports(PortIndex::new(1), PortIndex::new(3)),
        Err(LinkError::AlreadyLinked { port: PortIndex::new(1) })
    );
    let c = g.add_node(1, 1);
    assert_eq!(
        g.link_ports(PortIndex::new(7), PortIndex::new(3)),
        Err(LinkError::AlreadyLinked { port: PortIndex::new(3) })
    );
    assert_eq!(g.link_ports(PortIndex::new(7), PortIndex::new(6)), Ok((PortIndex::new(7), PortIndex::new(6))));
    assert_eq!(g.port_link(PortIndex::new(6)), Some(PortIndex::new(7)));
    assert!(g.contains_node(c));
}

#[test]
fn link_then_unlink() {
    let (mut g, _a, _b) = sample();
    assert_eq!(g.port_link(PortIndex::new(1)), Some(PortIndex::new(4)));
    assert_eq!(g.port_link(PortIndex::new(4)), Some(PortIndex::new(1)));
    assert_eq!(g.unlink_port(PortIndex::new(4)), Some(PortIndex::new(1)));
    assert_eq!(g.port_link(PortIndex::new(1)), None);
    assert_eq!(g.port_link(PortIndex::new(4)), None);
    assert_eq!(g.unlink_port(PortIndex::new(4)), None);
    assert_eq!(g.port_link(PortIndex::new(2)), Some(PortIndex::new(3)));
}

#[test]
fn nodes_and_ports_iterators() {
    let (g, a, b) = sample();
    let mut nodes = g._nodes_iter();
    assert_eq!(nodes.len(), 2);
    assert_eq!(nodes.size_hint(), (2, Some(2)));
    assert_eq!(nodes.next(), Some(a));
    assert_eq!(nodes.len(), 1);
    assert_eq!(nodes.next(), Some(b));
    assert_eq!(nodes.next(), None);
    let mut back = g._nodes_iter();
    assert_eq!(back.next_back(), Some(b));
    assert_eq!(back.next_back(), Some(a));
    assert_eq!(back.next_back(), None);
    assert_eq!(g._nodes_iter().count(), 2);

    let mut ports = g._ports_iter();
    assert_eq!(ports.len(), 6);
    let mut seen = Vec::new();
    while let Some(p) = ports.next() {
        seen.push(p.index());
    }
    assert_eq!(seen, vec![0, 1, 2, 3, 4, 5]);
    let mut ports = g._ports_iter();
    assert_eq!(ports.next_back(), Some(PortIndex::new(5)));
    assert_eq!(ports.next(), Some(PortIndex::new(0)));
    assert_eq!(ports.count(), 4);
}

#[test]
fn node_ports_iterator() {
    let (g, _a, b) = sample();
    let mut it = g._all_ports(b);
    assert_eq!(it.as_range(), 3..6);
    assert_eq!(it.size_hint(), (3, Some(3)));
    assert_eq!(it.next_back(), Some(PortIndex::new(5)));
    assert_eq!(it.as_range(), 3..5);
    assert_eq!(it.clone().count(), 2);
    assert_eq!(it.nth(1), Some(PortIndex::new(4)));
    assert_eq!(it.next(), None);
    let mut it = g._all_ports(b);
    assert_eq!(it.nth(5), None);
    assert_eq!(it.len(), 0);
    assert_eq!(it.as_range(), 6..6);
    let mut it = g._all_ports(b);
    assert_eq!(it.next(), Some(PortIndex::new(3)));
    assert_eq!(it.as_range(), 4..6);
    assert_eq!(it.nth(0), Some(PortIndex::new(4)));
    assert_eq!(it.as_range(), 5..6);
    assert_eq!(g._ports(NodeIndex::new(7), Direction::Outgoing).as_range(), 0..0);
    assert_eq!(g._all_ports(NodeIndex::new(7)).as_range(), 0..0);
    assert_eq!(g._inputs(b).as_range(), 3..5);
    assert_eq!(g._outputs(b).as_range(), 5..6);
}

#[test]
fn port_offsets_iterator() {
    let (g, a, _b) = sample();
    let mut it = g._all_port_offsets(a);
    assert_eq!(it.len(), 3);
    assert_eq!(it.as_range(Direction::Incoming), &(0..1));
    assert_eq!(it.as_range(Direction::Outgoing), &(0..2));
    let first = it.next().unwrap();
    assert_eq!((first.direction(), first.index()), (Direction::Incoming, 0));
    let last = it.next_back().unwrap();
    assert_eq!((last.direction(), last.index()), (Direction::Outgoing, 1));
    let mid = it.next().unwrap();
    assert_eq!((mid.direction(), mid.index()), (Direction::Outgoing, 0));
    assert!(it.next().is_none());
    assert!(it.next_back().is_none());

    let mut outs = g._port_offsets(a, Direction::Outgoing);
    assert_eq!(outs.count(), 2);
    let mut ins = g._port_offsets(NodeIndex::new(8), Direction::Incoming);
    assert!(ins.next().is_none());
    outs = g._port_offsets(a, Direction::Incoming);
    assert_eq!(outs.size_hint(), (1, Some(1)));
    assert_eq!(outs.as_range(Direction::Incoming), &(0..1));
    assert_eq!(outs.as_range(Direction::Outgoing), &(0..0));
    let outs = g._port_offsets(a, Direction::Outgoing);
    assert_eq!(outs.as_range(Direction::Incoming), &(0..0));
    assert_eq!(outs.as_range(Direction::Outgoing), &(0..2));
}

#[test]
fn port_offsets_ranges_after_steps() {
    let (g, a, _b) = sample();
    let mut it = g._all_port_offsets(a);
    it.next();
    assert_eq!(it.as_range(Direction::Incoming), &(1..1));
    assert_eq!(it.as_range(Direction::Outgoing), &(0..2));
    it.next();
    assert_eq!(it.as_range(Direction::Outgoing), &(1..2));
    let mut it = g._all_port_offsets(a);
    it.next_back();
    assert_eq!(it.as_range(Direction::Outgoing), &(0..1));
    assert_eq!(it.as_range(Direction::Incoming), &(0..1));
    it.next_back();
    it.next_back();
    assert_eq!(it.as_range(Direction::Outgoing), &(0..0));
    assert_eq!(it.as_range(Direction::Incoming), &(0..0));
    assert!(it.next_back().is_none());
    assert_eq!(it.len(), 0);
}

fn pairs(mut it: portgraph::portgraph::NodeLinks) -> Vec<(usize, usize)> {
    let mut v = Vec::new();
    while let Some((p, q)) = it.next() {
        v.push((p.index(), q.index()));
    }
    v
}

#[test]
fn links_iterators() {
    let (g, a, b) = sample();
    assert_eq!(pairs(g._links(a, Direction::Outgoing)), vec![(1, 4), (2, 3)]);
    assert_eq!(pairs(g._links(a, Direction::Incoming)), vec![(0, 5)]);
    assert_eq!(pairs(g._links(b, Direction::Incoming)), vec![(3, 2), (4, 1)]);
    assert_eq!(pairs(g._all_links(b)), vec![(3, 2), (4, 1), (5, 0)]);
    assert_eq!(pairs(g._links(NodeIndex::new(5), Direction::Incoming)), vec![]);
    let mut it = g._links(a, Direction::Outgoing);
    assert_eq!(it.size_hint(), (0, Some(2)));
    assert_eq!(it.next_back(), Some((PortIndex::new(2), PortIndex::new(3))));
    assert_eq!(it.next(), Some((PortIndex::new(1), PortIndex::new(4))));
    assert_eq!(it.next_back(), None);
}

#[test]
fn self_links_counted_once() {
    let mut g = PortGraph::new();
    let n = g.add_node(1, 1);
    // port 0 is incoming, port 1 outgoing
    g.link_ports(PortIndex::new(1), PortIndex::new(0)).unwrap();
    assert_eq!(pairs(g._all_links(n)), vec![(1, 0)]);
    // backwards, the self-link is reported once as well
    let mut it = g._all_links(n);
    assert_eq!(it.next_back(), Some((PortIndex::new(1), PortIndex::new(0))));
    assert_eq!(it.next_back(), None);
    let mut nb = g._all_neighbours(n);
    assert_eq!(nb.next_back(), Some(n));
    assert_eq!(nb.next_back(), None);
    let mut nb = g._all_neighbours(n);
    assert_eq!(nb.next(), Some(n));
    assert_eq!(nb.next(), None);
}

#[test]
fn neighbours_and_connections() {
    let (g, a, b) = sample();
    let mut nb = g._neighbours(a, Direction::Outgoing);
    assert_eq!(nb.size_hint(), (0, Some(2)));
    assert_eq!(nb.next(), Some(b));
    assert_eq!(nb.next(), Some(b));
    assert_eq!(nb.next(), None);
    let mut nb = g._all_neighbours(a);
    assert_eq!(nb.next_back(), Some(b));
    assert_eq!(nb.next(), Some(b));
    assert_eq!(nb.next(), Some(b));
    assert_eq!(nb.next(), None);

    let mut conns = g._get_connections(a, b);
    assert_eq!(conns.next(), Some((PortIndex::new(1), PortIndex::new(4))));
    assert_eq!(conns.next_back(), Some((PortIndex::new(2), PortIndex::new(3))));
    assert_eq!(conns.next(), None);
    let mut none = g._get_connections(a, a);
    assert_eq!(none.next(), None);
    let mut back = g._get_connections(b, a);
    assert_eq!(back.size_hint(), (0, Some(1)));
    assert_eq!(back.next_back(), Some((PortIndex::new(5), PortIndex::new(0))));
}

#[test]
fn remove_node_frees_slots() {
    let (mut g, a, b) = sample();
    let c = g.add_node(1, 1);
    g.link_ports(PortIndex::new(7), PortIndex::new(6)).unwrap();
    g.remove_node(b);
    assert!(!g.contains_node(b));
    assert_eq!(g.node_count(), 2);
    assert_eq!(g.port_count(), 5);
    assert_eq!(g.node_capacity(), 3);
    assert_eq!(g.port_capacity(), 8);
    // Links into the removed node are gone at both ends.
    assert_eq!(g.port_link(PortIndex::new(0)), None);
    assert_eq!(g.port_link(PortIndex::new(1)), None);
    assert_eq!(g.port_link(PortIndex::new(2)), None);
    assert_eq!(g.port_link(PortIndex::new(6)), Some(PortIndex::new(7)));
    assert!(!g.contains_port(PortIndex::new(4)));
    // Iterators skip the free slots, both ways.
    let mut nodes = g._nodes_iter();
    assert_eq!(nodes.len(), 2);
    assert_eq!(nodes.next(), Some(a));
    assert_eq!(nodes.next(), Some(c));
    assert_eq!(nodes.next(), None);
    let mut back = g._nodes_iter();
    assert_eq!(back.next_back(), Some(c));
    assert_eq!(back.next_back(), Some(a));
    assert_eq!(back.next_back(), None);
    let mut ports = g._ports_iter();
    let mut seen = Vec::new();
    while let Some(p) = ports.next() {
        seen.push(p.index());
    }
    assert_eq!(seen, vec![0, 1, 2, 6, 7]);
    let mut ports = g._ports_iter();
    assert_eq!(ports.next_back(), Some(PortIndex::new(7)));
    assert_eq!(ports.next_back(), Some(PortIndex::new(6)));
    assert_eq!(ports.next_back(), Some(PortIndex::new(2)));
    assert_eq!(ports.len(), 2);
    // Removing a missing node changes nothing.
    g.remove_node(b);
    assert_eq!(g.node_count(), 2);
    assert_eq!(g._nodes_iter().count(), 2);
    assert_eq!(pairs(g._all_links(c)), vec![(7, 6)]);
}

#[test]
fn freed_node_slots_are_reused_last_freed_first() {
    let mut g = PortGraph::new();
    let a = g.add_node(1, 1);
    let b = g.add_node(0, 2);
    let c = g.add_node(2, 0);
    g.remove_node(a);
    g.remove_node(c);
    assert_eq!(g.node_count(), 1);
    assert_eq!(g.node_capacity(), 3);
    // The slot freed last is taken first.
    let d = g.add_node(1, 0);
    assert_eq!(d, c);
    assert_eq!(g.node_capacity(), 3);
    assert_eq!(g.num_inputs(d), 1);
    assert_eq!(g.num_outputs(d), 0);
    // Its ports are fresh ones after all existing ports.
    assert_eq!(collect_ports(g._all_ports(d)), vec![6]);
    let e = g.add_node(0, 0);
    assert_eq!(e, a);
    // With the free list empty, a new slot is used.
    let f = g.add_node(0, 1);
    assert_eq!(f.index(), 3);
    assert_eq!(g.node_capacity(), 4);
    assert_eq!(g.node_count(), 4);
    assert!(g.contains_node(b));
    let mut nodes = Vec::new();
    let mut it = g._nodes_iter();
    while let Some(n) = it.next() {
        nodes.push(n.index());
    }
    assert_eq!(nodes, vec![0, 1, 2, 3]);
}
