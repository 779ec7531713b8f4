# gufi_change_finder

Incremental GUFI reindexing: from the changes that a ScoutFS changelog
reports, find the highest directories that changed, so that only those
subtrees are reindexed.

The library under `src/` is written in Verus and verified:

- `highest_change_tree.rs`, `change_tree.rs`: the change tree, kept in an
  `indextree` arena. Paths are added one by one; a path below a leaf is
  ignored, a path above existing nodes trims them, a node with too many
  children is trimmed; the leaves are then listed.
- `tree_model.rs`, `arena.rs`, `listing.rs`: the model the contracts speak
  of (the tree seen as a map from positions to what they record) and the
  contracts of the `indextree` calls.
- `laws.rs`: what holds across calls (an added path is covered by a leaf,
  coverage is kept and adding twice is adding once, unless the root itself
  overflows; a covered path changes nothing; leaves are never nested; no
  node has too many children; inodes do not shape the tree).
- `leaf_set.rs`: the leaves after a run of adds in which no node overflows
  are exactly the added paths that no other added path lies above; two adds
  commute on any tree; runs of the same adds with different inodes build
  trees of the same shape.
- `marfs_pathman.rs`: which MarFS reference-tree paths are internal, and the
  user path of a reference-tree path.
- `changelog.rs`, `change_finder.rs`: the state file format, the decisions
  taken for each batch of changelog entries, and the state of the change
  finder.

`app/` holds the input and output around the library: command lines, state
files, filesystem lookups, and the drivers of the changelog walk. `tests/`
runs the library on concrete values.
