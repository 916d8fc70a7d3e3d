# svo

Sparse voxel octrees for terrain, with their paths, per-cell statistics, the
one-shot tasks that fill them and the split/merge decisions of their rendered
chunks, verified with Verus.

- `src/path_model.rs`, `src/raw_bits.rs`: the mathematics of octree paths (octant
  sequences, their encoding in a `u128`, grid coordinates) and bit-level facts.
- `src/cell_path.rs`: `CellPath`, a path of up to 42 octants packed in a `u128`:
  pushing and popping at both ends, parents, children, neighbours in the grid.
- `src/svo.rs`: octree cells, the data traits, following, splitting, merging,
  simplifying and iterating, stated over a mathematical `Tree`.
- `src/stat_bool.rs`, `src/stat_int.rs`: leaf data summarised in internal cells.
- `src/task.rs`: tasks whose value a worker stores and an owner takes.
- `src/provider.rs`: chunk providers, and the per-cell data types of a provider that
  generates chunks (the provider itself is not here).
- `src/chunk.rs`: the split and merge decisions and the job decisions of rendered chunks.
- `src/subscription.rs`: which peers follow the changes of a cell.
- `app/`: conversions to `arbitrary-int` and `either`, spawning on `rayon`,
  floating-point geometry, rendered chunks that perform the library's chunk
  decisions, and `serde`/`bincode` encodings.
- `tests/`: tests of the library.
