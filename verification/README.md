# ledge

A verified core for a versioned object and reference store: content-addressed git
objects with deltas and packs, references under compare-and-swap with two-phase
commit, a replicated log and state machine, and the request layer on top.

- `src/` is the library. Every function in it carries a contract and is proved with
  Verus.
  - References: `types`, `slot`, `art`, `store`, `store_laws`, `frame`, `wal`,
    `atomic_commit`.
  - Objects: `object_file`, `delta`, `varint`, `disk`, `git_pack`, `git_pack_file`,
    `pack`, `repack`, `graph`, `tier`.
  - Replication: `op`, `leases`, `log_store`, `log_wal`, `state_machine`.
  - Requests: `rpc`.
  - Shared: `codec`, `decimal`, `hexcode`, `keytable`, `idset`, `sorting`, and the
    calls into other crates in `digest` and `zlib`.
- `tests/` exercises the library with the real crates linked in.
- `app/` is the node around it: files, the cold tier, the Raft storage traits and the
  request loop.

The library is a function of values. A store is the bytes of its files; a write returns
what is to be written, and the log records of a change are handed out with it. The node
does the reading and writing.

What is taken on trust are the calls into `blake3`, `sha1`, `flate2`, `crc32fast`,
`hex` and two functions of the standard library. Each stands behind a small function
whose comment says what is claimed of it.
