# archive_router

Verified core of an archive router: the bookkeeping that decides which
worker serves which blocks of a dataset.

- `src/interval.rs` — closed block intervals and ranges (sorted, disjoint,
  non-adjacent interval sets) with binary-search lookup.
- `src/layout.rs` — data chunks, their zero-padded text, and interval text parsing.
- `src/state.rs` — the worker registry: pings, worker selection, scheduling plan.
- `src/util.rs` — a replaceable shared slot (`Atom`).
- `src/metrics.rs` — sender checks and filtering of network metrics.
- `src/storage.rs` — the storage service's authentication key.
- `src/router.rs` — the height reported after a chunk download.
- `src/fs.rs` — the file-tree access trait.

`app/` holds the I/O around it: the command line, the metrics log writer,
the storage upload, the periodic download loop and a lock around the registry.
