# onode

A streaming overlay: a bootstrap server hands every node the topology,
nodes flood their neighbourhood to learn the link closest to the stream
source, accept and refuse stream requests, and relay stream pieces over
UDP; a controller computes shortest routes over the overlay graph.

- `src/` is the library, verified with Verus: the HTTP-like exchange with
  the bootstrap server (`http`), log lines (`logging`), the flooding
  routing table and its packets (`node::flooding`, `node::packets`), the
  framing of packets on the wire and what a listener reads out of a buffer
  (`node::packets::frame`, `node::threads`), and the overlay graph with its
  shortest-path routes (`node::routing`). Laws that relate several
  operations are public proof functions named `law_*`.
- `app/` holds the programs (bootstrap server, node, and small tools): the
  sockets, threads, clock and console around the library.
- `tests/` runs the library on concrete values.
