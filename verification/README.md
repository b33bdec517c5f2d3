# quil-node

The verified core of a Quilibrium node: what the node decides and computes, written
in Rust and proved with Verus.

- `src/` is the library. Every function states in its contract what it returns or
  changes, and the `law_` proofs state what holds of several functions together.
  - Execution: `token_engine`, `token_ops`, `compute_engine`, `hypergraph_engine`,
    `auth`, `global_execution`, `global_engine`, `global_intrinsic`, `global_steps`,
    `global_join`, `global_laws`, `records`, `state`, `routing`, `envelope`, `domains`.
  - Gossip: `behaviour`, `control`, `membership`, `followups`, `heartbeat`, `upkeep`,
    `rounds`, `gossip_laws`, `composite_laws`, `blossomsub`, `gossip`, `message_cache`, `wire`, `sorting`,
    `signer_registry`.
  - The node: `node_plan`, `node_sync`, `node_rpc`, `shard_info`, `transport`,
    `multiaddr`, `peer_id`, `lifecycle`, `supervisor`, `schema`.
  - What they share: `assoc`, `bytes`, `text`, `codec`, `checks`, `error`.
- `app/` is the program around it: arguments, signals, tasks, and the seams to the
  network and the decoders.
- `tests/` runs the library on concrete values.

The library does no I/O. What only another service can find out (a proof that was
checked, a record that was decoded, a peer that was reached) comes in as plain values,
in the structs whose names end in `Report`, `Checks` or `Op`. Calls into other crates
that only compute (hexadecimal, base 58, base 64, SHA-256, Ed448, big numbers) stand
in small functions marked `external_body`; their doc comments say what is taken on
trust. They are in `codec`, and in `token_engine` for the comparison of big numbers.
