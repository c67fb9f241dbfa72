# sgl_kv_indexer

An index of KV cache block placements for routing: engines report the blocks they
hold, routers ask who holds the longest prefix of a request.

- `src/` holds the rules, proved with Verus.
  - `worker`, `block`: the records and every operation on them; `field`, `tier`,
    `decimal` and `numeral` are the text and the arithmetic they rest on.
  - `prefix`: the prefix match over those records.
  - `client`, `code`: the router's side of the query.
  - `scripts`: the operations as Lua programs for a Redis-compatible store.
  - `server`: where the service listens.
  - `*_laws`: what holds across operations and histories.
- `app/` talks to the network and the store. The gRPC stubs come from the service's
  protocol definition and are handed in.
- `tests/` runs the library.
