//! Internal data structures for port storage.

use vstd::prelude::*;

use crate::index::{
    bits_view, lemma_pack_bits, BitField, Direction, NodeIndex, FLAG_BIT, INDEX_BITS, MAX_INDEX,
};

verus! {

/// The direction that a flag bit stands for: set for outgoing ports.
pub open spec fn flag_direction(flag: bool) -> Direction {
    if flag {
        Direction::Outgoing
    } else {
        Direction::Incoming
    }
}

/// What a port entry holds: nothing for a free entry, otherwise the number
/// of its node and its direction.
pub type PortEntryView = Option<(nat, Direction)>;

/// Meaning of an encoded port word: free when its index bits are zero,
/// otherwise the node number (index bits minus one) and the direction given
/// by the top bit.
pub open spec fn port_view_of_bits(bits: u32) -> PortEntryView {
    match bits_view(bits) {
        None => None,
        Some((node, flag)) => Some((node, flag_direction(flag))),
    }
}

/// The word that stores a port entry: zero for a free port, otherwise the
/// node number plus one, with the top bit set for outgoing ports.
pub open spec fn port_word(v: PortEntryView) -> u32 {
    match v {
        None => 0,
        Some((node, dir)) => {
            let x = (node + 1) as u32;
            if dir == Direction::Outgoing {
                x | FLAG_BIT
            } else {
                x
            }
        },
    }
}

/// Meta data stored for a port, which might be free.
///
/// A free entry holds no port: its index is part of a port list that is
/// currently unused. A valid entry holds the node of the port and the port's
/// direction.
#[derive(Clone, Copy, Debug, PartialEq, Structural)]
pub struct PortEntry(BitField);

impl View for PortEntry {
    type V = PortEntryView;

    closed spec fn view(&self) -> PortEntryView {
        match self.0@ {
            None => None,
            Some((node, flag)) => Some((node, flag_direction(flag))),
        }
    }
}

/// Meta data of a valid port.
#[derive(Clone, Copy, Debug, PartialEq, Structural)]
pub struct PortMeta {
    /// The node the port belongs to.
    pub node: NodeIndex,
    /// The direction of the port.
    pub direction: Direction,
}

impl View for PortMeta {
    type V = (nat, Direction);

    open spec fn view(&self) -> (nat, Direction) {
        (self.node@, self.direction)
    }
}

impl PortEntry {
    /// Every entry is stored as the word of what it holds, so that two
    /// entries holding the same thing are the same value.
    #[verifier::type_invariant]
    spec fn inv(self) -> bool {
        self.0.raw() == port_word(self@)
    }

    /// The word the entry is stored as.
    pub closed spec fn word(self) -> u32 {
        self.0.raw()
    }

    /// Two entries are the same exactly when their words are.
    pub proof fn lemma_word_eq(a: PortEntry, b: PortEntry)
        ensures
            (a.word() == b.word()) <==> (a == b),
    {
        BitField::lemma_raw_eq(a.0, b.0);
    }

    /// Creates a free port entry. Its word is zero, so all free entries are
    /// equal.
    pub fn new_free() -> (r: PortEntry)
        ensures
            r@ is None,
            r.word() == 0,
    {
        PortEntry(BitField::new_none())
    }

    /// Creates a valid port entry with the given node and direction.
    pub fn new(node: NodeIndex, direction: Direction) -> (r: PortEntry)
        ensures
            r@ == Some((node@, direction)),
            r.word() == port_word(r@),
    {
        let bit_flag = match direction {
            Direction::Incoming => false,
            Direction::Outgoing => true,
        };
        PortEntry(BitField::new(node.index(), bit_flag))
    }

    /// Returns `true` if the entry is free, i.e. it does not hold a port.
    pub fn is_free(self) -> (r: bool)
        ensures
            r == self@ is None,
    {
        self.0.is_none()
    }

    /// Returns the port meta data of a valid entry, or `None` for a free one.
    pub fn as_meta(self) -> (r: Option<PortMeta>)
        ensures
            r is Some <==> self@ is Some,
            r is Some ==> r.unwrap()@ == self@.unwrap(),
    {
        if self.0.is_none() {
            return None;
        }
        let direction = match self.0.bit_flag() {
            Some(true) => Direction::Outgoing,
            _ => Direction::Incoming,
        };
        Some(PortMeta { node: NodeIndex::new(self.0.index_unchecked()), direction })
    }

    /// Encodes the entry in the word layout used for serialization: zero for
    /// a free port, otherwise the node index plus one in the low bits and the
    /// direction in the top bit (set for outgoing ports).
    pub fn encode_bits(self) -> (r: u32)
        ensures
            r == port_word(self@),
            r == self.word(),
            port_view_of_bits(r) == self@,
    {
        proof {
            use_type_invariant(&self);
        }
        let mut bits: u32 = 0;
        assert(0u32 & 0x7FFF_FFFFu32 == 0) by (bit_vector);
        if let Some(meta) = self.as_meta() {
            let node = meta.node.index();
            if meta.direction == Direction::Outgoing {
                bits = bits | direction_mask();
            }
            let node_bits: u32 = node as u32 + 1;
            proof {
                lemma_port_word(node as nat, meta.direction);
                assert(node_bits & 0x7FFF_FFFFu32 == node_bits) by (bit_vector)
                    requires
                        node_bits <= 0x7FFF_FFFFu32,
                ;
                assert(0u32 | 0x8000_0000u32 == 0x8000_0000u32) by (bit_vector);
                assert(0u32 | node_bits == node_bits) by (bit_vector);
                assert(0x8000_0000u32 | node_bits == node_bits | 0x8000_0000u32) by (bit_vector);
            }
            bits = bits | (node_bits & node_mask());
        }
        bits
    }

    /// Decodes a word in the serialization layout. A word whose index bits
    /// are zero decodes to a free port, whatever its top bit.
    pub fn decode_bits(bits: u32) -> (r: PortEntry)
        ensures
            r@ == port_view_of_bits(bits),
            r.word() == port_word(port_view_of_bits(bits)),
    {
        let direction_bit = bits & direction_mask();
        let node_bits = bits & node_mask();
        if node_bits == 0 {
            PortEntry::new_free()
        } else {
            let direction = if direction_bit == 0 {
                Direction::Incoming
            } else {
                Direction::Outgoing
            };
            proof {
                crate::index::lemma_low_bits_bound(bits);
            }
            let node_index = node_bits - 1;
            PortEntry::new(NodeIndex::new(node_index as usize), direction)
        }
    }
}

/// Bit mask of the direction bit, the leftmost bit of a word.
pub fn direction_mask() -> (r: u32)
    ensures
        r == FLAG_BIT,
{
    let m = node_mask();
    assert(!0x7FFF_FFFFu32 == 0x8000_0000u32) by (bit_vector);
    !m
}

/// Bit mask of the node index bits: every bit but the leftmost one.
pub fn node_mask() -> (r: u32)
    ensures
        r == INDEX_BITS,
{
    assert(0xFFFF_FFFFu32 >> 1u32 == 0x7FFF_FFFFu32) by (bit_vector);
    u32::MAX >> 1
}

/// The word of a valid entry reads back as that entry.
proof fn lemma_port_word(node: nat, dir: Direction)
    requires
        node <= MAX_INDEX,
    ensures
        port_view_of_bits(port_word(Some((node, dir)))) == Some((node, dir)),
{
    let x = (node + 1) as u32;
    lemma_pack_bits(x, dir == Direction::Outgoing);
}

/// Encoding a port entry and decoding the word gives back the same entry.
pub proof fn lemma_decode_encode(v: PortEntryView)
    requires
        v is Some ==> v.unwrap().0 <= MAX_INDEX,
    ensures
        port_view_of_bits(port_word(v)) == v,
{
    match v {
        None => {
            assert(0u32 & 0x7FFF_FFFFu32 == 0) by (bit_vector);
        },
        Some((node, dir)) => {
            lemma_port_word(node, dir);
        },
    }
}

/// Decoding the word of an entry gives back that very entry: `d` is what
/// `decode_bits` returns for the word of `e`.
pub proof fn lemma_decode_entry_word(e: PortEntry, d: PortEntry)
    requires
        e.word() == port_word(e@),
        d.word() == port_word(port_view_of_bits(e.word())),
    ensures
        d == e,
{
    BitField::lemma_raw_eq(e.0, d.0);
    assert(port_view_of_bits(e.word()) == e@);
    PortEntry::lemma_word_eq(d, e);
}

/// Decoding a word and encoding the entry gives back the same word, except
/// for the word with only the direction bit set, which decodes to a free
/// port and encodes as zero.
pub proof fn lemma_encode_decode(bits: u32)
    requires
        bits != FLAG_BIT,
    ensures
        port_word(port_view_of_bits(bits)) == bits,
{
    let low = bits & INDEX_BITS;
    if low == 0 {
        assert(bits & 0x7FFF_FFFFu32 == 0 && bits != 0x8000_0000u32 ==> bits == 0) by (bit_vector);
    } else {
        crate::index::lemma_low_bits_bound(bits);
        assert(((bits & 0x7FFF_FFFFu32) & 0x8000_0000u32) == 0) by (bit_vector);
        assert(bits & 0x8000_0000u32 != 0 ==> (bits & 0x7FFF_FFFFu32) | 0x8000_0000u32 == bits)
            by (bit_vector);
        assert(bits & 0x8000_0000u32 == 0 ==> (bits & 0x7FFF_FFFFu32) == bits) by (bit_vector);
    }
}

} // verus!
