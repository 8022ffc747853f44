# portgraph

A port graph library whose behaviour is stated in contracts and proved with
Verus. Nodes have ordered incoming and outgoing ports; links join pairs of
ports of opposite directions. Storage is flat: one slot per node and per
port, with compact entries. The slots of removed nodes form a doubly-linked
free list, and new nodes take the slot freed last.

Layout:

- `src/index.rs`: node and port indices, port offsets, and the packed
  optional forms (`MaybeNodeIndex`, `MaybePortIndex`, `BitField`).
- `src/portgraph.rs`: `PortGraph`, its abstract contents (`PortGraphView`),
  the well-formedness it keeps, and the laws about links and ports.
- `src/portgraph/node_entry.rs`, `src/portgraph/port_entry.rs`: node and port
  slots, with their encodings for serialization.
- `src/portgraph/iter.rs`: iterators over ports, nodes, offsets, links,
  neighbours and connections.
- `src/view/filter.rs`: a graph seen through node and link filters.
- `src/weights.rs`, `src/unmanaged.rs`: node and port weights kept beside a
  graph.
- `src/render/mermaid.rs`: mermaid layout options.
- `app/lib.rs`: serde support and error messages, on counterparts of the
  library's types.
- `tests/`: tests of the library on concrete graphs.
