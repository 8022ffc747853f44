use portgraph::{NodeIndex, PortIndex, Weights};

#[test]
fn test_weights() {
    let mut weights = Weights::<usize, isize>::new();
    let node = NodeIndex::new(0);
    let port = PortIndex::new(0);

    assert_eq!(weights[node], 0);
    assert_eq!(weights[port], 0);

    weights[node] = 42;
    weights[port] = -1;

    assert_eq!(weights[node], 42);
    assert_eq!(weights[port], -1);
}

#[test]
fn unset_weights_are_default() {
    let mut weights = Weights::<usize, isize>::with_capacity(4, 4);
    weights[NodeIndex::new(3)] = 7;
    assert_eq!(weights[NodeIndex::new(0)], 0);
    assert_eq!(weights[NodeIndex::new(2)], 0);
    assert_eq!(weights[NodeIndex::new(3)], 7);
    assert_eq!(weights[NodeIndex::new(100)], 0);
    assert_eq!(weights.nodes.get(NodeIndex::new(3)), &7);
    assert_eq!(weights[PortIndex::new(3)], 0);
}

#[test]
fn default_weights_are_empty() {
    let weights: Weights<u8, u8> = Default::default();
    assert_eq!(weights[NodeIndex::new(5)], 0);
    assert_eq!(weights[PortIndex::new(5)], 0);
}
