use portgraph::index::BitField;
use portgraph::portgraph::node_entry::{MAX_INCOMING, MAX_OUTGOING};
use portgraph::portgraph::port_entry::{direction_mask, node_mask};
use portgraph::portgraph::{FreeNodeEntry, NodeEntry, NodeMeta, NodeMetaError, PortEntry};
use portgraph::portgraph::node_entry::{
    NodeMetaDecodeError, NodeMetaField, NodeMetaFields, NodeMetaValue,
};
use portgraph::{Direction, MaybeNodeIndex, MaybePortIndex, NodeIndex, PortIndex, PortOffset};

#[test]
fn port_entry_roundtrip_meta() {
    let e = PortEntry::new(NodeIndex::new(5), Direction::Outgoing);
    assert!(!e.is_free());
    let meta = e.as_meta().unwrap();
    assert_eq!(meta.node, NodeIndex::new(5));
    assert_eq!(meta.direction, Direction::Outgoing);

    let e = PortEntry::new(NodeIndex::new(0), Direction::Incoming);
    let meta = e.as_meta().unwrap();
    assert_eq!(meta.node.index(), 0);
    assert_eq!(meta.direction, Direction::Incoming);

    let f = PortEntry::new_free();
    assert!(f.is_free());
    assert_eq!(f.as_meta(), None);
}

#[test]
fn port_entry_bits() {
    assert_eq!(node_mask(), 0x7FFF_FFFF);
    assert_eq!(direction_mask(), 0x8000_0000);
    assert_eq!(PortEntry::new_free().encode_bits(), 0);
    assert_eq!(PortEntry::new(NodeIndex::new(0), Direction::Incoming).encode_bits(), 1);
    assert_eq!(PortEntry::new(NodeIndex::new(4), Direction::Outgoing).encode_bits(), 0x8000_0005);
    let e = PortEntry::decode_bits(0x8000_0005);
    assert_eq!(e, PortEntry::new(NodeIndex::new(4), Direction::Outgoing));
    let e = PortEntry::decode_bits(7);
    assert_eq!(e.as_meta().unwrap().node.index(), 6);
    assert_eq!(e.as_meta().unwrap().direction, Direction::Incoming);
    // Only the direction bit set: a free port.
    assert!(PortEntry::decode_bits(0x8000_0000).is_free());
    assert_eq!(PortEntry::decode_bits(0x8000_0000).encode_bits(), 0);
    let big = PortEntry::new(NodeIndex::new(0x7FFF_FFFE), Direction::Outgoing);
    assert_eq!(big.encode_bits(), 0xFFFF_FFFF);
    assert_eq!(PortEntry::decode_bits(0xFFFF_FFFF), big);
}

#[test]
fn port_entry_free_words_decode_to_the_free_entry() {
    assert_eq!(PortEntry::new_free(), PortEntry::new_free());
    assert_eq!(PortEntry::decode_bits(0), PortEntry::new_free());
    assert_eq!(PortEntry::decode_bits(0x8000_0000), PortEntry::new_free());
    let free = PortEntry::new_free();
    assert_eq!(PortEntry::decode_bits(free.encode_bits()), free);
    for (n, d) in [(0, Direction::Incoming), (3, Direction::Outgoing), (0x7FFF_FFFE, Direction::Incoming)] {
        let e = PortEntry::new(NodeIndex::new(n), d);
        assert_eq!(PortEntry::decode_bits(e.encode_bits()), e);
        assert_eq!(e, PortEntry::new(NodeIndex::new(n), d));
    }
}

#[test]
fn bit_field() {
    let b = BitField::new(9, true);
    assert_eq!(b.index(), Some(9));
    assert_eq!(b.bit_flag(), Some(true));
    assert_eq!(b.to_raw(), 0x8000_000A);
    let n = BitField::new_none();
    assert!(n.is_none());
    assert_eq!(n.index(), None);
    assert_eq!(n.bit_flag(), None);
    assert_eq!(BitField::from_raw(0x8000_0000).index(), None);
}

#[test]
fn node_meta_try_new() {
    let m = NodeMeta::try_new(PortIndex::new(10), 2, 3, 8).unwrap();
    assert_eq!(m.first_port(), PortIndex::new(10));
    assert_eq!(m.incoming(), 2);
    assert_eq!(m.outgoing(), 3);
    assert_eq!(m.port_count(), 5);
    assert_eq!(m.capacity(), 8);
    assert_eq!(m.num_ports(Direction::Incoming), 2);
    assert_eq!(m.num_ports(Direction::Outgoing), 3);
    assert_eq!(m.all_ports(), 10..15);
    assert_eq!(m.incoming_ports(), 10..12);
    assert_eq!(m.outgoing_ports(), 12..15);
    assert_eq!(m.ports(Direction::Incoming), 10..12);
    assert_eq!(m.ports(Direction::Outgoing), 12..15);
    assert_eq!(m.unused_ports(), 15..18);
    assert_eq!(m.raw_incoming(), 3);
}

#[test]
fn node_meta_errors() {
    assert_eq!(
        NodeMeta::try_new(PortIndex::new(0), 65535, 0, 65535),
        Err(NodeMetaError::TooManyIncoming { incoming: 65535, max: MAX_INCOMING })
    );
    assert_eq!(
        NodeMeta::try_new(PortIndex::new(0), 3, 4, 6),
        Err(NodeMetaError::TotalExceedsCapacity { total: 7, capacity: 6 })
    );
    assert_eq!(MAX_OUTGOING, 65535);
    assert!(NodeMeta::try_new(PortIndex::new(0), 65534, 1, 65535).is_ok());
}

#[test]
fn node_meta_default_and_raw() {
    let d = NodeMeta::default();
    assert_eq!(d.first_port().index(), 0);
    assert_eq!(d.incoming(), 0);
    assert_eq!(d.outgoing(), 0);
    assert_eq!(d.capacity(), 0);
    assert_eq!(d.all_ports(), 0..0);
    assert_eq!(NodeMeta::from_raw_parts(PortIndex::new(3), 0, 1, 1), None);
    let m = NodeMeta::from_raw_parts(PortIndex::new(3), 2, 1, 4).unwrap();
    assert_eq!(m.incoming(), 1);
    assert_eq!(m, NodeMeta::try_new(PortIndex::new(3), 1, 1, 4).unwrap());
}

#[test]
fn node_entry_free() {
    let prev = MaybeNodeIndex::new(NodeIndex::new(1));
    let next = MaybeNodeIndex::new_none();
    let mut e = NodeEntry::new_free(prev, next);
    assert_eq!(e.free_entry(), Some(&FreeNodeEntry { prev, next }));
    if let Some(f) = e.free_entry_mut() {
        f.next = MaybeNodeIndex::new(NodeIndex::new(7));
    }
    assert_eq!(e.free_entry().unwrap().next.to_option(), Some(NodeIndex::new(7)));
    assert_eq!(e.free_entry().unwrap().prev.to_option(), Some(NodeIndex::new(1)));
    let mut n = NodeEntry::Node(NodeMeta::default());
    assert_eq!(n.free_entry(), None);
    assert!(n.free_entry_mut().is_none());
    let d = FreeNodeEntry::default();
    assert!(d.prev.is_none() && d.next.is_none());
}


#[test]
fn node_meta_fields_decode() {
    let mut f = NodeMetaFields::new();
    assert_eq!(f.accept_key(NodeMetaField::Outgoing), Ok(()));
    f.insert(NodeMetaValue::Outgoing(3)).unwrap();
    f.insert(NodeMetaValue::Capacity(6)).unwrap();
    f.insert(NodeMetaValue::FirstPort(PortIndex::new(2))).unwrap();
    assert_eq!(
        f.accept_key(NodeMetaField::Outgoing),
        Err(NodeMetaDecodeError::DuplicateField(NodeMetaField::Outgoing))
    );
    assert_eq!(
        f.insert(NodeMetaValue::Capacity(1)),
        Err(NodeMetaDecodeError::DuplicateField(NodeMetaField::Capacity))
    );
    assert_eq!(f.capacity, Some(6));
    assert_eq!(f.finish(), Err(NodeMetaDecodeError::MissingField(NodeMetaField::Incoming)));
    f.insert(NodeMetaValue::Incoming(3)).unwrap();
    let m = f.finish().unwrap();
    assert_eq!(m, NodeMeta::try_new(PortIndex::new(2), 2, 3, 6).unwrap());
    // Written out and read back, node meta data is unchanged.
    let mut g = NodeMetaFields::new();
    g.insert(NodeMetaValue::FirstPort(m.first_port())).unwrap();
    g.insert(NodeMetaValue::Incoming(m.raw_incoming())).unwrap();
    g.insert(NodeMetaValue::Outgoing(m.outgoing() as u16)).unwrap();
    g.insert(NodeMetaValue::Capacity(m.capacity() as u16)).unwrap();
    assert_eq!(g.finish(), Ok(m));
}

#[test]
fn node_meta_fields_errors() {
    assert_eq!(
        NodeMetaFields::new().finish(),
        Err(NodeMetaDecodeError::MissingField(NodeMetaField::FirstPort))
    );
    let mut f = NodeMetaFields::new();
    f.insert(NodeMetaValue::FirstPort(PortIndex::new(0))).unwrap();
    f.insert(NodeMetaValue::Incoming(1)).unwrap();
    assert_eq!(f.finish(), Err(NodeMetaDecodeError::MissingField(NodeMetaField::Outgoing)));
    f.insert(NodeMetaValue::Outgoing(0)).unwrap();
    assert_eq!(f.finish(), Err(NodeMetaDecodeError::MissingField(NodeMetaField::Capacity)));
    let mut z = NodeMetaFields::new();
    z.insert(NodeMetaValue::FirstPort(PortIndex::new(0))).unwrap();
    z.insert(NodeMetaValue::Incoming(0)).unwrap();
    z.insert(NodeMetaValue::Outgoing(0)).unwrap();
    z.insert(NodeMetaValue::Capacity(0)).unwrap();
    assert_eq!(z.finish(), Err(NodeMetaDecodeError::ZeroIncoming));
}

#[test]
fn maybe_indices() {
    let m = MaybeNodeIndex::from_option(Some(NodeIndex::new(3)));
    assert_eq!(m.to_option(), Some(NodeIndex::new(3)));
    assert!(MaybeNodeIndex::from_option(None).is_none());
    assert_eq!(MaybeNodeIndex::default(), MaybeNodeIndex::new_none());
    let p = MaybePortIndex::new(PortIndex::new(0));
    assert!(!p.is_none());
    assert_eq!(p.to_option(), Some(PortIndex::new(0)));
    assert_eq!(MaybePortIndex::new_none().to_option(), None);
    assert_eq!(PortIndex::default().index(), 0);
}

#[test]
fn port_offsets() {
    let o = PortOffset::new_outgoing(7);
    assert_eq!(o.direction(), Direction::Outgoing);
    assert_eq!(o.index(), 7);
    let i = PortOffset::new_incoming(65535);
    assert_eq!((i.direction(), i.index()), (Direction::Incoming, 65535));
}
