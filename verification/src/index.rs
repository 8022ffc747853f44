//! Index types for nodes and ports, and their compact optional encodings.

use vstd::prelude::*;

verus! {

/// The largest index a node or a port can have.
///
/// Indices are stored in 31 bits, shifted by one so that zero can mark an
/// absent index, which leaves the top bit free for a flag.
pub const MAX_INDEX: usize = 0x7FFF_FFFE;

/// Bits of an encoded word that hold the (shifted) index.
pub const INDEX_BITS: u32 = 0x7FFF_FFFF;

/// The bit of an encoded word that holds the flag.
pub const FLAG_BIT: u32 = 0x8000_0000;

/// Direction of a port.
#[derive(Clone, Copy, Debug, PartialEq, Eq, Structural, Hash)]
pub enum Direction {
    /// Input to a node.
    Incoming,
    /// Output from a node.
    Outgoing,
}

/// Index of a node within a port graph.
#[derive(Clone, Copy, Debug, PartialEq, Eq, Structural, Hash)]
pub struct NodeIndex {
    index: u32,
}

impl View for NodeIndex {
    type V = nat;

    closed spec fn view(&self) -> nat {
        self.index as nat
    }
}

impl NodeIndex {
    #[verifier::type_invariant]
    spec fn inv(self) -> bool {
        self.index <= MAX_INDEX
    }

    /// Creates a node index. The index must not exceed [`MAX_INDEX`].
    pub fn new(index: usize) -> (r: NodeIndex)
        requires
            index <= MAX_INDEX,
        ensures
            r@ == index,
    {
        NodeIndex { index: index as u32 }
    }

    /// Returns the index as a `usize`.
    pub fn index(self) -> (r: usize)
        ensures
            r == self@,
            r <= MAX_INDEX,
    {
        proof {
            use_type_invariant(self);
        }
        self.index as usize
    }

    /// Two node indices are equal exactly when their numbers are.
    pub proof fn lemma_view_eq(a: NodeIndex, b: NodeIndex)
        ensures
            (a@ == b@) == (a == b),
    {
    }
}

/// Index of a port within a port graph.
#[derive(Clone, Copy, Debug, PartialEq, Eq, Structural, Hash)]
pub struct PortIndex {
    index: u32,
}

impl View for PortIndex {
    type V = nat;

    closed spec fn view(&self) -> nat {
        self.index as nat
    }
}

impl PortIndex {
    #[verifier::type_invariant]
    spec fn inv(self) -> bool {
        self.index <= MAX_INDEX
    }

    /// Creates a port index. The index must not exceed [`MAX_INDEX`].
    pub fn new(index: usize) -> (r: PortIndex)
        requires
            index <= MAX_INDEX,
        ensures
            r@ == index,
    {
        PortIndex { index: index as u32 }
    }

    /// Returns the index as a `usize`.
    pub fn index(self) -> (r: usize)
        ensures
            r == self@,
            r <= MAX_INDEX,
    {
        proof {
            use_type_invariant(self);
        }
        self.index as usize
    }

    /// Two port indices are equal exactly when their numbers are.
    pub proof fn lemma_view_eq(a: PortIndex, b: PortIndex)
        ensures
            (a@ == b@) == (a == b),
    {
    }
}

impl Default for PortIndex {
    fn default() -> (r: PortIndex)
        ensures
            r@ == 0,
    {
        PortIndex { index: 0 }
    }
}

/// Position of a port among the ports of its node in one direction.
#[derive(Clone, Copy, Debug, PartialEq, Eq, Structural, Hash)]
pub struct PortOffset {
    offset: u16,
    direction: Direction,
}

impl View for PortOffset {
    type V = (Direction, nat);

    closed spec fn view(&self) -> (Direction, nat) {
        (self.direction, self.offset as nat)
    }
}

impl PortOffset {
    /// Creates the offset of an incoming port.
    pub fn new_incoming(offset: usize) -> (r: PortOffset)
        requires
            offset <= u16::MAX,
        ensures
            r@ == (Direction::Incoming, offset as nat),
    {
        PortOffset { offset: offset as u16, direction: Direction::Incoming }
    }

    /// Creates the offset of an outgoing port.
    pub fn new_outgoing(offset: usize) -> (r: PortOffset)
        requires
            offset <= u16::MAX,
        ensures
            r@ == (Direction::Outgoing, offset as nat),
    {
        PortOffset { offset: offset as u16, direction: Direction::Outgoing }
    }

    /// Returns the direction of the port.
    pub fn direction(self) -> (r: Direction)
        ensures
            r == self@.0,
    {
        self.direction
    }

    /// Returns the offset of the port within its direction.
    pub fn index(self) -> (r: usize)
        ensures
            r == self@.1,
    {
        self.offset as usize
    }
}

/// Meaning of an encoded word: absent when its index bits are zero, otherwise
/// the index (the index bits minus one) and the flag bit.
pub open spec fn bits_view(bits: u32) -> Option<(nat, bool)> {
    let low = bits & INDEX_BITS;
    if low == 0 {
        None
    } else {
        Some(((low - 1) as nat, bits & FLAG_BIT != 0))
    }
}

/// Layout of a word built from a shifted index and a flag.
pub proof fn lemma_pack_bits(x: u32, flag: bool)
    requires
        1 <= x <= INDEX_BITS,
    ensures
        ({
            let bits = if flag {
                x | FLAG_BIT
            } else {
                x
            };
            &&& bits & INDEX_BITS == x
            &&& (bits & FLAG_BIT != 0) == flag
        }),
{
    assert(1 <= x <= 0x7FFF_FFFFu32 ==> (x | 0x8000_0000u32) & 0x7FFF_FFFFu32 == x) by (bit_vector);
    assert(1 <= x <= 0x7FFF_FFFFu32 ==> (x | 0x8000_0000u32) & 0x8000_0000u32 != 0) by (bit_vector);
    assert(x <= 0x7FFF_FFFFu32 ==> x & 0x7FFF_FFFFu32 == x) by (bit_vector);
    assert(x <= 0x7FFF_FFFFu32 ==> x & 0x8000_0000u32 == 0) by (bit_vector);
}

/// The index bits of a word never exceed [`INDEX_BITS`].
pub proof fn lemma_low_bits_bound(bits: u32)
    ensures
        bits & INDEX_BITS <= INDEX_BITS,
{
    assert(bits & 0x7FFF_FFFFu32 <= 0x7FFF_FFFFu32) by (bit_vector);
}

/// An index with a one-bit flag, or nothing, packed into a single word.
///
/// The low 31 bits hold the index plus one, so that zero marks an empty
/// field, and the top bit holds the flag.
#[derive(Clone, Copy, Debug, PartialEq, Eq, Structural, Hash)]
pub struct BitField {
    bits: u32,
}

impl View for BitField {
    type V = Option<(nat, bool)>;

    closed spec fn view(&self) -> Option<(nat, bool)> {
        bits_view(self.bits)
    }
}

impl BitField {
    /// The raw word.
    pub closed spec fn raw(self) -> u32 {
        self.bits
    }

    /// Creates an empty field.
    pub fn new_none() -> (r: BitField)
        ensures
            r@.is_none(),
            r.raw() == 0,
    {
        assert(0u32 & 0x7FFF_FFFFu32 == 0) by (bit_vector);
        BitField { bits: 0 }
    }

    /// Creates a field holding `index` and `flag`.
    pub fn new(index: usize, flag: bool) -> (r: BitField)
        requires
            index <= MAX_INDEX,
        ensures
            r@ == Some((index as nat, flag)),
            r.raw() == (if flag {
                ((index + 1) as u32) | FLAG_BIT
            } else {
                (index + 1) as u32
            }),
    {
        let x: u32 = index as u32 + 1;
        proof {
            lemma_pack_bits(x, flag);
        }
        let bits: u32 = if flag {
            x | FLAG_BIT
        } else {
            x
        };
        BitField { bits }
    }

    /// Reinterprets a raw word.
    pub fn from_raw(bits: u32) -> (r: BitField)
        ensures
            r.raw() == bits,
            r@ == bits_view(bits),
    {
        BitField { bits }
    }

    /// Returns the raw word.
    pub fn to_raw(self) -> (r: u32)
        ensures
            r == self.raw(),
            bits_view(r) == self@,
    {
        self.bits
    }

    /// A field is its raw word: two fields are the same exactly when their
    /// words are, and what a field holds is what its word reads as.
    pub proof fn lemma_raw_eq(a: BitField, b: BitField)
        ensures
            (a.raw() == b.raw()) <==> (a == b),
            a@ == bits_view(a.raw()),
    {
    }

    /// Returns `true` if the field holds no index.
    pub fn is_none(self) -> (r: bool)
        ensures
            r == self@.is_none(),
    {
        self.bits & INDEX_BITS == 0
    }

    /// Returns the index of a field that is not empty.
    pub fn index_unchecked(self) -> (r: usize)
        requires
            self@.is_some(),
        ensures
            r == self@.unwrap().0,
            r <= MAX_INDEX,
    {
        proof {
            lemma_low_bits_bound(self.bits);
        }
        ((self.bits & INDEX_BITS) - 1) as usize
    }

    /// Returns the index, if there is one.
    pub fn index(self) -> (r: Option<usize>)
        ensures
            r is Some <==> self@ is Some,
            r is Some ==> r.unwrap() == self@.unwrap().0,
    {
        if self.is_none() {
            None
        } else {
            Some(self.index_unchecked())
        }
    }

    /// Returns the flag, if the field holds an index.
    pub fn bit_flag(self) -> (r: Option<bool>)
        ensures
            r is Some <==> self@ is Some,
            r is Some ==> r.unwrap() == self@.unwrap().1,
    {
        if self.is_none() {
            None
        } else {
            Some(self.bits & FLAG_BIT != 0)
        }
    }
}

/// An optional node index, packed into a single word.
#[derive(Clone, Copy, Debug, PartialEq, Eq, Structural, Hash)]
pub struct MaybeNodeIndex {
    value: u32,
}

impl View for MaybeNodeIndex {
    type V = Option<nat>;

    closed spec fn view(&self) -> Option<nat> {
        if self.value == 0 {
            None
        } else {
            Some((self.value - 1) as nat)
        }
    }
}

impl MaybeNodeIndex {
    #[verifier::type_invariant]
    spec fn inv(self) -> bool {
        self.value <= MAX_INDEX + 1
    }

    /// The absent index.
    pub fn new_none() -> (r: MaybeNodeIndex)
        ensures
            r@ is None,
    {
        MaybeNodeIndex { value: 0 }
    }

    /// Wraps a present index.
    pub fn new(node: NodeIndex) -> (r: MaybeNodeIndex)
        ensures
            r@ == Some(node@),
    {
        let i = node.index();
        MaybeNodeIndex { value: i as u32 + 1 }
    }

    /// Encodes an optional index.
    pub fn from_option(node: Option<NodeIndex>) -> (r: MaybeNodeIndex)
        ensures
            r@ == (match node {
                Some(n) => Some(n@),
                None => None,
            }),
    {
        match node {
            Some(n) => MaybeNodeIndex::new(n),
            None => MaybeNodeIndex::new_none(),
        }
    }

    /// Returns `true` if no index is held.
    pub fn is_none(self) -> (r: bool)
        ensures
            r == self@ is None,
    {
        self.value == 0
    }

    /// Decodes the optional index.
    pub fn to_option(self) -> (r: Option<NodeIndex>)
        ensures
            r is Some <==> self@ is Some,
            r is Some ==> r.unwrap()@ == self@.unwrap(),
    {
        proof {
            use_type_invariant(self);
        }
        if self.value == 0 {
            None
        } else {
            Some(NodeIndex::new((self.value - 1) as usize))
        }
    }
}

impl Default for MaybeNodeIndex {
    fn default() -> (r: MaybeNodeIndex)
        ensures
            r@ is None,
    {
        MaybeNodeIndex { value: 0 }
    }
}

/// An optional port index, packed into a single word.
#[derive(Clone, Copy, Debug, PartialEq, Eq, Structural, Hash)]
pub struct MaybePortIndex {
    value: u32,
}

impl View for MaybePortIndex {
    type V = Option<nat>;

    closed spec fn view(&self) -> Option<nat> {
        if self.value == 0 {
            None
        } else {
            Some((self.value - 1) as nat)
        }
    }
}

impl MaybePortIndex {
    #[verifier::type_invariant]
    spec fn inv(self) -> bool {
        self.value <= MAX_INDEX + 1
    }

    /// The absent index.
    pub fn new_none() -> (r: MaybePortIndex)
        ensures
            r@ is None,
    {
        MaybePortIndex { value: 0 }
    }

    /// Wraps a present index.
    pub fn new(port: PortIndex) -> (r: MaybePortIndex)
        ensures
            r@ == Some(port@),
    {
        let i = port.index();
        MaybePortIndex { value: i as u32 + 1 }
    }

    /// Returns `true` if no index is held.
    pub fn is_none(self) -> (r: bool)
        ensures
            r == self@ is None,
    {
        self.value == 0
    }

    /// Decodes the optional index.
    pub fn to_option(self) -> (r: Option<PortIndex>)
        ensures
            r is Some <==> self@ is Some,
            r is Some ==> r.unwrap()@ == self@.unwrap(),
    {
        proof {
            use_type_invariant(self);
        }
        if self.value == 0 {
            None
        } else {
            Some(PortIndex::new((self.value - 1) as usize))
        }
    }
}

} // verus!
