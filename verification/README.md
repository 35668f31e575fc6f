# scd_topology_checker

Semantic topology checks for substation configuration descriptions (SCD
files), written in Rust and proved with Verus.

The library reads a configuration description, builds the directed
communication graph of its IEDs and access points, and analyses it:
strongly connected components (Tarjan and Kosaraju), a topological order
(Kahn), statistics of the configuration and of the graph, the timing of
protection signals from relays to breakers, and the isolation rules of a
protection network (loops, cross-zone links, VLAN consistency, unauthorized
subscriptions, repeated links, protection devices reaching the process
level).

## Layout

- `src/` — the verified library.
  - `parser.rs`, `xml.rs` — reading a configuration description from bytes;
    the XML events come from `quick-xml`.
  - `model.rs` — the configuration model and the directed graph.
  - `graph/` — graph construction, components, topological order,
    statistics, timing; `graph/scc/` holds the proofs that the two component
    finders return the strongly connected components, and that each lists
    them in the order its depth-first search and walks determine;
    `graph/depth_first.rs` describes the order in which depth-first walks
    enter and finish nodes; `graph/link_order.rs` the order in which the
    builders fill the neighbour lists.
  - `validator.rs` — the isolation rules.
  - `hashing.rs` — the `ahash` maps and sets the library keeps.
  - `text.rs` — text helpers.
- `tests/` — tests of the library.
- `app/` — the command-line tool: argument handling, file reading and the
  printed reports.
