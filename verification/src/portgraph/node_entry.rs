//! Internal data structures for node storage.

use vstd::prelude::*;

use std::ops::Range;

use crate::index::{Direction, MaybeNodeIndex, PortIndex, MAX_INDEX};

verus! {

/// The maximum number of incoming ports of a node.
///
/// One less than the largest `u16`, since the count is stored plus one.
pub const MAX_INCOMING: usize = 65534;

/// The maximum number of outgoing ports of a node.
pub const MAX_OUTGOING: usize = 65535;

/// The numbers that a [`NodeMeta`] stands for.
pub struct NodeMetaView {
    /// Index of the first port of the node.
    pub first_port: nat,
    /// Number of incoming ports.
    pub incoming: nat,
    /// Number of outgoing ports.
    pub outgoing: nat,
    /// Number of port indices allocated to the node.
    pub capacity: nat,
}

impl NodeMetaView {
    /// Total number of ports.
    pub open spec fn port_count(self) -> nat {
        self.incoming + self.outgoing
    }

    /// Number of ports in a direction.
    pub open spec fn num_ports(self, dir: Direction) -> nat {
        match dir {
            Direction::Incoming => self.incoming,
            Direction::Outgoing => self.outgoing,
        }
    }

    /// First port index in a direction: incoming ports come first, then the
    /// outgoing ones.
    pub open spec fn dir_start(self, dir: Direction) -> nat {
        match dir {
            Direction::Incoming => self.first_port,
            Direction::Outgoing => self.first_port + self.incoming,
        }
    }

    /// One past the last port index in a direction.
    pub open spec fn dir_end(self, dir: Direction) -> nat {
        self.dir_start(dir) + self.num_ports(dir)
    }

    /// The node's port at `port` exists and has direction `dir`.
    pub open spec fn has_port(self, port: nat, dir: Direction) -> bool {
        self.dir_start(dir) <= port < self.dir_end(dir)
    }
}

/// Returns `true` if a range of indices starts at `start` and ends at `end`.
pub open spec fn range_is(r: Range<usize>, start: nat, end: nat) -> bool {
    r.start == start && r.end == end
}

/// Meta data stored for a valid node.
///
/// The number of incoming ports is stored plus one, so that the stored value
/// is never zero.
#[derive(Clone, Copy, Debug, PartialEq, Structural)]
pub struct NodeMeta {
    /// The index of the first port in the port list.
    /// If the node has no ports, this is 0.
    first_port: PortIndex,
    /// The number of incoming ports plus one.
    incoming: u16,
    /// The number of outgoing ports.
    outgoing: u16,
    /// The port capacity allocated to this node.
    capacity: u16,
}

impl View for NodeMeta {
    type V = NodeMetaView;

    closed spec fn view(&self) -> NodeMetaView {
        NodeMetaView {
            first_port: self.first_port@,
            incoming: if self.incoming == 0 {
                0
            } else {
                (self.incoming - 1) as nat
            },
            outgoing: self.outgoing as nat,
            capacity: self.capacity as nat,
        }
    }
}

/// Error raised while creating node meta data with invalid parameters.
#[derive(Debug, Clone, Copy, PartialEq, Eq, Structural)]
pub enum NodeMetaError {
    /// The number of incoming ports exceeds the maximum allowed.
    TooManyIncoming { incoming: usize, max: usize },
    /// The number of outgoing ports exceeds the maximum allowed.
    TooManyOutgoing { outgoing: usize, max: usize },
    /// The total number of ports exceeds the allocated capacity.
    TotalExceedsCapacity { total: usize, capacity: usize },
}

/// The node meta data that [`NodeMeta::try_new`] builds from its arguments,
/// or the error it reports.
pub open spec fn try_new_result(
    first_port: nat,
    incoming: u16,
    outgoing: u16,
    capacity: u16,
) -> Result<NodeMetaView, NodeMetaError> {
    if incoming > MAX_INCOMING {
        Err(NodeMetaError::TooManyIncoming { incoming: incoming as usize, max: MAX_INCOMING })
    } else if outgoing > MAX_OUTGOING {
        Err(NodeMetaError::TooManyOutgoing { outgoing: outgoing as usize, max: MAX_OUTGOING })
    } else if incoming + outgoing > capacity {
        Err(
            NodeMetaError::TotalExceedsCapacity {
                total: (incoming + outgoing) as usize,
                capacity: capacity as usize,
            },
        )
    } else {
        Ok(
            NodeMetaView {
                first_port,
                incoming: incoming as nat,
                outgoing: outgoing as nat,
                capacity: capacity as nat,
            },
        )
    }
}

/// The node meta data that a stored (shifted) incoming count stands for.
pub open spec fn raw_meta_view(
    first_port: nat,
    incoming_raw: u16,
    outgoing: u16,
    capacity: u16,
) -> NodeMetaView {
    NodeMetaView {
        first_port,
        incoming: (incoming_raw - 1) as nat,
        outgoing: outgoing as nat,
        capacity: capacity as nat,
    }
}

/// Rebuilding node meta data from the fields it is stored as (the incoming
/// count plus one, the outgoing count and the capacity, each in 16 bits)
/// gives back the same meta data.
pub proof fn lemma_raw_parts_round_trip(m: NodeMetaView)
    requires
        m.incoming <= MAX_INCOMING,
        m.outgoing <= MAX_OUTGOING,
        m.capacity <= u16::MAX,
    ensures
        raw_meta_view(
            m.first_port,
            (m.incoming + 1) as u16,
            m.outgoing as u16,
            m.capacity as u16,
        ) == m,
{
}

impl NodeMeta {
    #[verifier::type_invariant]
    spec fn inv(self) -> bool {
        self.incoming != 0
    }

    /// Creates node meta data with the given port counts.
    ///
    /// Fails if a port count exceeds its maximum, or if their sum exceeds the
    /// capacity. A node without capacity must have its first port at 0.
    pub fn try_new(first_port: PortIndex, incoming: u16, outgoing: u16, capacity: u16) -> (r: Result<
        NodeMeta,
        NodeMetaError,
    >)
        requires
            try_new_result(first_port@, incoming, outgoing, capacity) is Ok ==> (capacity > 0
                || first_port@ == 0),
        ensures
            match try_new_result(first_port@, incoming, outgoing, capacity) {
                Ok(v) => r is Ok && r->Ok_0@ == v,
                Err(e) => r == Err::<NodeMeta, NodeMetaError>(e),
            },
    {
        if incoming as usize > MAX_INCOMING {
            return Err(
                NodeMetaError::TooManyIncoming { incoming: incoming as usize, max: MAX_INCOMING },
            );
        }
        if outgoing as usize > MAX_OUTGOING {
            return Err(
                NodeMetaError::TooManyOutgoing { outgoing: outgoing as usize, max: MAX_OUTGOING },
            );
        }
        let total: usize = incoming as usize + outgoing as usize;
        if total > capacity as usize {
            return Err(
                NodeMetaError::TotalExceedsCapacity { total, capacity: capacity as usize },
            );
        }
        Ok(NodeMeta { first_port, incoming: incoming + 1, outgoing, capacity })
    }

    /// Rebuilds node meta data from its stored fields, the incoming count
    /// given plus one. Returns `None` when that stored value is zero.
    pub fn from_raw_parts(first_port: PortIndex, incoming_raw: u16, outgoing: u16, capacity: u16) -> (r:
        Option<NodeMeta>)
        ensures
            r is Some <==> incoming_raw != 0,
            r is Some ==> r.unwrap()@ == raw_meta_view(
                first_port@,
                incoming_raw,
                outgoing,
                capacity,
            ),
    {
        if incoming_raw == 0 {
            None
        } else {
            Some(NodeMeta { first_port, incoming: incoming_raw, outgoing, capacity })
        }
    }

    /// The stored incoming count: the number of incoming ports plus one.
    pub fn raw_incoming(&self) -> (r: u16)
        ensures
            r == self@.incoming + 1,
    {
        proof {
            use_type_invariant(self);
        }
        self.incoming
    }

    /// Returns the index of the first port.
    pub fn first_port(&self) -> (r: PortIndex)
        ensures
            r@ == self@.first_port,
    {
        self.first_port
    }

    /// Returns the number of incoming ports.
    pub fn incoming(&self) -> (r: usize)
        ensures
            r == self@.incoming,
            r <= MAX_INCOMING,
    {
        (self.incoming as usize).saturating_sub(1)
    }

    /// Returns the number of outgoing ports.
    pub fn outgoing(&self) -> (r: usize)
        ensures
            r == self@.outgoing,
            r <= MAX_OUTGOING,
    {
        self.outgoing as usize
    }

    /// Returns the number of ports in a given direction.
    pub fn num_ports(&self, dir: Direction) -> (r: usize)
        ensures
            r == self@.num_ports(dir),
    {
        match dir {
            Direction::Incoming => self.incoming(),
            Direction::Outgoing => self.outgoing(),
        }
    }

    /// Returns the total number of ports.
    pub fn port_count(&self) -> (r: usize)
        ensures
            r == self@.port_count(),
    {
        self.outgoing() + self.incoming()
    }

    /// Returns the port capacity allocated to this node.
    pub fn capacity(&self) -> (r: usize)
        ensures
            r == self@.capacity,
            r <= u16::MAX,
    {
        self.capacity as usize
    }

    /// Returns the range of all the port indices of this node.
    pub fn all_ports(&self) -> (r: Range<usize>)
        ensures
            range_is(r, self@.first_port, self@.first_port + self@.port_count()),
    {
        let start = self.first_port.index();
        let end = start + self.incoming() + self.outgoing();
        start..end
    }

    /// Returns the range of the port indices of this node in a direction.
    pub fn ports(&self, direction: Direction) -> (r: Range<usize>)
        ensures
            range_is(r, self@.dir_start(direction), self@.dir_end(direction)),
    {
        match direction {
            Direction::Incoming => self.incoming_ports(),
            Direction::Outgoing => self.outgoing_ports(),
        }
    }

    /// Returns the range of the incoming port indices of this node.
    pub fn incoming_ports(&self) -> (r: Range<usize>)
        ensures
            range_is(r, self@.first_port, self@.first_port + self@.incoming),
    {
        let start = self.first_port.index();
        let end = start + self.incoming();
        start..end
    }

    /// Returns the range of the outgoing port indices of this node.
    pub fn outgoing_ports(&self) -> (r: Range<usize>)
        ensures
            range_is(
                r,
                self@.first_port + self@.incoming,
                self@.first_port + self@.incoming + self@.outgoing,
            ),
    {
        let start = self.first_port.index() + self.incoming();
        let end = start + self.outgoing();
        start..end
    }

    /// Returns the range of the allocated but unused port indices of this node.
    pub fn unused_ports(&self) -> (r: Range<usize>)
        ensures
            range_is(
                r,
                self@.first_port + self@.port_count(),
                self@.first_port + self@.capacity,
            ),
    {
        let start = self.first_port.index() + self.port_count();
        let end = self.first_port.index() + self.capacity();
        start..end
    }
}

impl Default for NodeMeta {
    fn default() -> (r: NodeMeta)
        ensures
            r@ == (NodeMetaView { first_port: 0, incoming: 0, outgoing: 0, capacity: 0 }),
    {
        let r = NodeMeta::try_new(PortIndex::default(), 0, 0, 0);
        match r {
            Ok(meta) => meta,
            Err(_) => NodeMeta { first_port: PortIndex::default(), incoming: 1, outgoing: 0, capacity: 0 },
        }
    }
}

/// Meta data of a free node slot.
///
/// Free slots form a doubly-linked list.
#[derive(Debug, Clone, Copy, PartialEq, Structural)]
pub struct FreeNodeEntry {
    /// The previous free node.
    pub prev: MaybeNodeIndex,
    /// The next free node.
    pub next: MaybeNodeIndex,
}

impl Default for FreeNodeEntry {
    fn default() -> (r: FreeNodeEntry)
        ensures
            r.prev@ is None,
            r.next@ is None,
    {
        FreeNodeEntry { prev: MaybeNodeIndex::new_none(), next: MaybeNodeIndex::new_none() }
    }
}

/// Meta data stored for a node slot, which might be free.
#[derive(Debug, Clone, Copy, PartialEq, Structural)]
pub enum NodeEntry {
    /// No node is stored at this entry; it is part of the free list.
    Free(FreeNodeEntry),
    /// A node is stored at this entry.
    Node(NodeMeta),
}

impl NodeEntry {
    /// Returns the free list entry, if the slot is free.
    pub fn free_entry(&self) -> (r: Option<&FreeNodeEntry>)
        ensures
            match *self {
                NodeEntry::Free(e) => r == Some(&e),
                NodeEntry::Node(_) => r is None,
            },
    {
        match self {
            NodeEntry::Free(entry) => Some(entry),
            NodeEntry::Node(_) => None,
        }
    }

    /// Returns the free list entry for modification, if the slot is free.
    pub fn free_entry_mut(&mut self) -> (r: Option<&mut FreeNodeEntry>)
        ensures
            match *old(self) {
                NodeEntry::Free(e) => r is Some && *r.unwrap() == e && *final(self) == NodeEntry::Free(*final(r.unwrap())),
                NodeEntry::Node(m) => r is None && *final(self) == NodeEntry::Node(m),
            },
    {
        match self {
            NodeEntry::Free(entry) => Some(entry),
            NodeEntry::Node(_) => None,
        }
    }

    /// Creates a free node entry with the given neighbours in the free list.
    pub fn new_free(prev: MaybeNodeIndex, next: MaybeNodeIndex) -> (r: NodeEntry)
        ensures
            r == NodeEntry::Free(FreeNodeEntry { prev, next }),
    {
        NodeEntry::Free(FreeNodeEntry { prev, next })
    }
}

/// The fields of serialized node meta data.
#[derive(Debug, Clone, Copy, PartialEq, Eq, Structural)]
pub enum NodeMetaField {
    /// The index of the first port.
    FirstPort,
    /// The number of incoming ports, stored plus one.
    Incoming,
    /// The number of outgoing ports.
    Outgoing,
    /// The port capacity.
    Capacity,
}

/// A field value of serialized node meta data.
#[derive(Debug, Clone, Copy, PartialEq, Eq, Structural)]
pub enum NodeMetaValue {
    /// The index of the first port.
    FirstPort(PortIndex),
    /// The number of incoming ports, stored plus one.
    Incoming(u16),
    /// The number of outgoing ports.
    Outgoing(u16),
    /// The port capacity.
    Capacity(u16),
}

impl NodeMetaValue {
    /// The field a value belongs to.
    pub open spec fn field(self) -> NodeMetaField {
        match self {
            NodeMetaValue::FirstPort(_) => NodeMetaField::FirstPort,
            NodeMetaValue::Incoming(_) => NodeMetaField::Incoming,
            NodeMetaValue::Outgoing(_) => NodeMetaField::Outgoing,
            NodeMetaValue::Capacity(_) => NodeMetaField::Capacity,
        }
    }
}

/// Error raised while reading serialized node meta data.
#[derive(Debug, Clone, Copy, PartialEq, Eq, Structural)]
pub enum NodeMetaDecodeError {
    /// A field was given twice.
    DuplicateField(NodeMetaField),
    /// A field was not given.
    MissingField(NodeMetaField),
    /// The stored incoming count was zero.
    ZeroIncoming,
}

/// The fields of serialized node meta data read so far, from a map of
/// named fields.
#[derive(Debug, Clone, Copy, PartialEq, Eq, Structural)]
pub struct NodeMetaFields {
    /// The index of the first port, if read.
    pub first_port: Option<PortIndex>,
    /// The stored incoming count, if read.
    pub incoming: Option<u16>,
    /// The number of outgoing ports, if read.
    pub outgoing: Option<u16>,
    /// The port capacity, if read.
    pub capacity: Option<u16>,
}

impl NodeMetaFields {
    /// Whether a field has been read.
    pub open spec fn has(self, field: NodeMetaField) -> bool {
        match field {
            NodeMetaField::FirstPort => self.first_port is Some,
            NodeMetaField::Incoming => self.incoming is Some,
            NodeMetaField::Outgoing => self.outgoing is Some,
            NodeMetaField::Capacity => self.capacity is Some,
        }
    }

    /// The first field, in declaration order, that has not been read.
    pub open spec fn first_missing(self) -> Option<NodeMetaField> {
        if self.first_port is None {
            Some(NodeMetaField::FirstPort)
        } else if self.incoming is None {
            Some(NodeMetaField::Incoming)
        } else if self.outgoing is None {
            Some(NodeMetaField::Outgoing)
        } else if self.capacity is None {
            Some(NodeMetaField::Capacity)
        } else {
            None
        }
    }

    /// No field read yet.
    pub fn new() -> (r: NodeMetaFields)
        ensures
            r.first_port is None,
            r.incoming is None,
            r.outgoing is None,
            r.capacity is None,
    {
        NodeMetaFields { first_port: None, incoming: None, outgoing: None, capacity: None }
    }

    /// Checks that a field about to be read has not been read before.
    pub fn accept_key(&self, field: NodeMetaField) -> (r: Result<(), NodeMetaDecodeError>)
        ensures
            self.has(field) ==> r == Err::<(), NodeMetaDecodeError>(
                NodeMetaDecodeError::DuplicateField(field),
            ),
            !self.has(field) ==> r is Ok,
    {
        let seen = match field {
            NodeMetaField::FirstPort => self.first_port.is_some(),
            NodeMetaField::Incoming => self.incoming.is_some(),
            NodeMetaField::Outgoing => self.outgoing.is_some(),
            NodeMetaField::Capacity => self.capacity.is_some(),
        };
        if seen {
            Err(NodeMetaDecodeError::DuplicateField(field))
        } else {
            Ok(())
        }
    }

    /// Records a field value read after its key was accepted. A value for a
    /// field already read is refused, and changes nothing.
    pub fn insert(&mut self, value: NodeMetaValue) -> (r: Result<(), NodeMetaDecodeError>)
        ensures
            old(self).has(value.field()) ==> r == Err::<(), NodeMetaDecodeError>(
                NodeMetaDecodeError::DuplicateField(value.field()),
            ) && *final(self) == *old(self),
            !old(self).has(value.field()) ==> r is Ok && *final(self) == match value {
                NodeMetaValue::FirstPort(v) => NodeMetaFields { first_port: Some(v), ..*old(self) },
                NodeMetaValue::Incoming(v) => NodeMetaFields { incoming: Some(v), ..*old(self) },
                NodeMetaValue::Outgoing(v) => NodeMetaFields { outgoing: Some(v), ..*old(self) },
                NodeMetaValue::Capacity(v) => NodeMetaFields { capacity: Some(v), ..*old(self) },
            },
    {
        let field = match value {
            NodeMetaValue::FirstPort(_) => NodeMetaField::FirstPort,
            NodeMetaValue::Incoming(_) => NodeMetaField::Incoming,
            NodeMetaValue::Outgoing(_) => NodeMetaField::Outgoing,
            NodeMetaValue::Capacity(_) => NodeMetaField::Capacity,
        };
        self.accept_key(field)?;
        match value {
            NodeMetaValue::FirstPort(v) => self.first_port = Some(v),
            NodeMetaValue::Incoming(v) => self.incoming = Some(v),
            NodeMetaValue::Outgoing(v) => self.outgoing = Some(v),
            NodeMetaValue::Capacity(v) => self.capacity = Some(v),
        }
        Ok(())
    }

    /// Builds the node meta data once all fields are read. Fails on the
    /// first missing field, in declaration order, and then on a zero stored
    /// incoming count.
    pub fn finish(self) -> (r: Result<NodeMeta, NodeMetaDecodeError>)
        ensures
            self.first_missing() is Some ==> r == Err::<NodeMeta, NodeMetaDecodeError>(
                NodeMetaDecodeError::MissingField(self.first_missing().unwrap()),
            ),
            self.first_missing() is None && self.incoming.unwrap() == 0 ==> r == Err::<
                NodeMeta,
                NodeMetaDecodeError,
            >(NodeMetaDecodeError::ZeroIncoming),
            self.first_missing() is None && self.incoming.unwrap() != 0 ==> r is Ok && r->Ok_0@
                == raw_meta_view(
                self.first_port.unwrap()@,
                self.incoming.unwrap(),
                self.outgoing.unwrap(),
                self.capacity.unwrap(),
            ),
    {
        let first_port = match self.first_port {
            Some(v) => v,
            None => {
                return Err(NodeMetaDecodeError::MissingField(NodeMetaField::FirstPort));
            },
        };
        let incoming = match self.incoming {
            Some(v) => v,
            None => {
                return Err(NodeMetaDecodeError::MissingField(NodeMetaField::Incoming));
            },
        };
        let outgoing = match self.outgoing {
            Some(v) => v,
            None => {
                return Err(NodeMetaDecodeError::MissingField(NodeMetaField::Outgoing));
            },
        };
        let capacity = match self.capacity {
            Some(v) => v,
            None => {
                return Err(NodeMetaDecodeError::MissingField(NodeMetaField::Capacity));
            },
        };
        match NodeMeta::from_raw_parts(first_port, incoming, outgoing, capacity) {
            Some(meta) => Ok(meta),
            None => Err(NodeMetaDecodeError::ZeroIncoming),
        }
    }
}

/// The ports of a node form one range: its incoming ports, directly
/// followed by its outgoing ports, directly followed by its unused ports up
/// to its capacity.
pub proof fn lemma_port_ranges(v: NodeMetaView)
    ensures
        v.dir_start(Direction::Incoming) == v.first_port,
        v.dir_end(Direction::Incoming) == v.dir_start(Direction::Outgoing),
        v.dir_end(Direction::Outgoing) == v.first_port + v.port_count(),
        forall|q: nat, d: Direction|
            #![trigger v.has_port(q, d)]
            v.has_port(q, d) ==> v.first_port <= q < v.first_port + v.port_count() && !v.has_port(
                q,
                match d {
                    Direction::Incoming => Direction::Outgoing,
                    Direction::Outgoing => Direction::Incoming,
                },
            ),
{
}

/// Building node meta data and reading back its stored incoming count gives
/// the same numbers.
pub proof fn lemma_raw_roundtrip(v: NodeMetaView)
    requires
        v.incoming <= MAX_INCOMING,
        v.outgoing <= MAX_OUTGOING,
        v.capacity <= u16::MAX,
    ensures
        raw_meta_view(v.first_port, (v.incoming + 1) as u16, v.outgoing as u16, v.capacity as u16)
            == v,
{
}

} // verus!
