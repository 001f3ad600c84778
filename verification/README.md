# Vajra

A replicated, in-memory vector database. The crate `vajra` (in `src/`) is
the verified core, written in Verus: every function carries a contract that
Verus proves.

- `types`, `error`, `config`, `text`: identifiers, the error type and its
  display text, configuration with its validation, decimal/hex text.
- `wal`: the layout of a log entry (`entry`), CRC-32 frames and their
  reading back (`frame`), segment naming, bookkeeping and recovery
  (`segment`), and the in-memory log with its index (`log`).
- `raft`: persistent/volatile/leader state, messages, the Raft log, the node
  as a state machine driven by ticks and messages (`node`), its transition
  relation with the laws it keeps (`protocol`), how a follower reconciles its
  log with a leader's entries (`matching`), a cluster of nodes with its
  election safety (`cluster`), and Log Matching across the nodes of a
  cluster in which leaders append commands (`replication`).
- `hnsw`: the graph nodes of the vector index, their neighbor lists, and the
  checks a vector passes before it is inserted.
- `apply`: which committed entries the state machine has still to apply.
- `id_mapper`, `transport`, `server`, `telemetry`: client-id hashing, gRPC
  status mapping, health answers, operation timers.

The gRPC vector service is not included: its protocol-buffer definitions
are not part of the sources, so the server offers the HTTP gateway only.

`app/` is the server around it: configuration files, the HNSW search and
distance functions (floating point), segment files on disk, the async event
loop, the HTTP gateway and the peer transport.
