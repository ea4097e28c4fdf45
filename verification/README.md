# holt

An adaptive radix tree over fixed-size blobs, verified with Verus.

A blob is half a megabyte of nodes. When it is full, a subtree moves out into a
blob of its own and a blob node is left behind; small children are folded back.
Records carry a sequence number, so writes and deletes can ask for the version
they expect. Scans walk the keys in order, with a prefix, a key to start after
and a delimiter that folds keys together.

## Layout

- `src/` is the verified library.
  - `key`, `key_buf`, `hash`, `simd`: keys and searches in byte strings.
  - `layout`, `node`, `frame`, `extent`, `art`: nodes, the arena of a blob, where
    they lie in it, and the tree that it spells out.
  - `insert`, `erase`, `lookup`, `writers`, `slot_walker`: one blob.
  - `migrate`, `spillover`, `merge`, `cow`: rebuilding, splitting, folding back
    and copying blobs.
  - `store`, `forest`, `route`, `route_cache`: many blobs.
  - `insert_multi`, `erase_multi`, `lookup_multi`, `cold`, `cold_summary`: reads
    and writes across blobs, and reads of blobs that are not in memory.
  - `order`, `cursor`, `range`, `key_range`, `scan`: scans.
  - `laws`, `scan_laws`, `topology_laws`: what holds of several operations taken
    together.
- `tests/` runs the library.
- `app/` puts it behind a lock, with the system's clock and random bytes.
