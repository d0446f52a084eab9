# volmount_btree

A B-tree in the bcachefs style: packed nodes with three sets of entries each,
tombstones, aux arrays for searching, splits and merges, a node cache, a key
cache, an overlay for the time of journal replay, node records with checksums,
and garbage collection of buckets.

The library under `src/` is written in Verus. Every function carries a contract
that Verus proves; `app/` holds what touches devices, threads and time, and
`tests/` runs the library.

## Layout of `src/`

- `key`, `ids`, `op`: positions, keys, values, pointers and trees by name.
- `le`, `packed`, `crc`, `header`, `record`: bytes. `record_laws` proves that
  what was written is read back, and what was damaged is refused.
- `run`, `sort`: runs of entries as sequences, and what is live in them.
- `node` and the modules that start with `node_`: one node. Its set of entries
  is read, searched, appended to, compacted, split and merged; `node_io`,
  `validate` and `sort_iter` are about the time around its I/O.
- `cache`, `walk`, `route`, `seek`, `iter`, `iter_path`, `back`, `visible`: finding
  a way through a tree, on and back.
- `btree`, `tree_insert`, `tree_write`, `tree_merge`, `merge`, `interior`, `load`:
  one tree.
- `key_cache`, `overlay`, `trans`, `engine`: all trees together.
- `topology`, `buckets`, `gc`, `gc_alloc`, `node_scan`: checks and collection.
- `error`, `text`, `messages`: errors and reports, and how they read.
- `laws`, `laws_split`: what lookups find in a node after writes, splits and
  merges. `laws_check`: what the checks of a read find in nodes as they are
  written.
- `tidy`, `reroute`, `layout`, `layout_merge`: which node each key belongs to on
  each level of a tree, and how splits, merges and the loss of a root change it.
- `laws_map`, `laws_merge`, `laws_walk`: what holds of whole trees. Inserts,
  deletes and merges keep every key reachable, and a tree holds what was written
  and not deleted; lookups and walks find it.

## How to read the contracts

A node is understood through the runs of entries of its sets: `run(i)`, all of
them in `all()`, and `live()`, the last write of each slot without tombstones.
A tree is understood through its root, its cached nodes by address, and
`items(k)`, what a walk that looks for `k` visits. Functions that change a tree
state how the old tree and the new one are related, in relations such as
`was_inserted`, `was_deleted` and `merge_tried`.

`serialize_key` in `gc` is the one function that Verus does not look into: it
calls `bincode`.
