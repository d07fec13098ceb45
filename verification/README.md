# broker

A broker between a Roblox client session and local tools (verde's explorer,
the luau-lsp studio plugin server). Clients connect over WebSocket, mirror
their DataModel into the broker, and receive operations relayed from verde.

## Layout

- `src/` — the verified library (Verus): protocol data and its base64 text
  transport, the session store and per-session operation bookkeeping, the DOM
  mirror (`dom`) with its change reports — an arena of plain values (keys,
  client ids, parent links, the values as the client sent them) rather than
  `rbx_dom_weak`'s `WeakDom`, whose values hold floats and whose referents
  are drawn at random — the breadth-first walk over it
  (`tree_walk`), verde's explorer view of the mirror (`verde::serialize`,
  `verde::tree_state`), the lowering of verde operations, the API-dump queries
  (`api`), the bounded history, and the upstream switches and probe state.
- `tests/` — the library's tests.
- `app/` — the executable: argument parsing, the lockfile, sockets and tasks,
  the wire codecs (serde/Squash, verde's JSON), and the float-valued rendering
  of property values for verde's inspector.
