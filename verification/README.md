# vexfs

The core of VexFS, a file system that learns how its files are used, as a
library whose contracts are proved with Verus.

- `src/fs`: the on-disk records (superblock, inodes, snapshots) with their
  checksums, the write-ahead journal and its replay rules, the persistent
  free list, the growable inode table, the image layout, the metadata
  B-tree, the write buffer, compression framing and snapshot history.
- `src/cache`: the adaptive replacement cache.
- `src/ai`: the access log, transition counts, importance statistics, the
  long-term memory of sessions and habits, its persisted images and the
  context summary.
- `src/tree.rs`: the directory tree as `vexfs tree` draws it (drawing
  order, connectors, depth limit, counts).
- `src/pattern.rs`, `src/diff.rs`: the name patterns `vexfs find` matches
  (`^`, `$`, `.*`) and the positional line diff between two versions.
- `src/web.rs`, `src/http.rs`: the dashboard daemon's grammar: reading a raw
  request (method, path, declared length, body), routing it to an endpoint,
  decoding percent-escapes and escaping JSON text.
- `app/`: the `vexfs` tool (format, status, check, mount, tree, find, diff, the
  memory's context and the dashboard daemon) and everything that touches
  files, sockets or computes in floating point (scores, probabilities,
  entropy).
- `tests/`: tests of the library, run against the real outside crates.
