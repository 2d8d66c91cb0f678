# evosim

The integer core of an idle evolution sandbox, verified with Verus.

- `src/` — the verified library: neural-network topology validation and
  input layouts, creature actions and the column removal walk, the event
  log and its save/load round trip, the structural load check, the spatial
  hash (a counting sort over cells), species lineage and extinction, the
  byte grass field (seeding, the scatter pass, tile classes, activity and
  dirty tracking, quantization into snapshot slots), the grass mip pyramid,
  the hierarchical profiler, the snapshot buffer layout, and the world's
  state hash over its byte stream.
- `app/` — the host side, partial: the wall clock, some of the float
  computations (random floats, torus distances, density bytes from amounts
  and the grass kernels' float parts, spread-table weights and dice, level
  of detail from camera zoom), reading the random stream's state words for
  the state hash, the profiler's scope guard, the creature table, the load
  check's float columns, and the JSON form of saved data. The world loop,
  genomes, vision and the browser handle are not part of it.
- `tests/` — tests of the library's public functions.
