# phf

Perfect hash function maps and sets, with the hashing, the table
generation and the lookups verified with Verus.

## Layout

- `src/siphasher.rs`, `src/shared.rs`: SipHash 1-3 with a 128-bit output,
  the bytes each key type feeds, and the CHD index computation.
- `src/generator.rs`: the CHD generator (buckets, displacements, the slot
  map), proved to produce a perfect placement.
- `src/ptrhash.rs`, `src/ptrhash_generator.rs`: PtrHash lookup and its
  generator (pilots, eviction, remapping), proved perfect.
- `src/map.rs`, `src/set.rs`, `src/ordered_map.rs`, `src/ordered_set.rs`,
  `src/bi_map.rs`, `src/sorted_map.rs`: the lookup structures.
- `src/builder.rs`, `src/codegen.rs`: run-time builders and source
  generation.
- `src/macros.rs`: what the macros decide: key expressions, `|` patterns,
  duplicates, `cfg` handling and the emitted source.
- `src/foldhash*`, `src/hasher.rs`, `src/sip24*`, `src/rng.rs`,
  `src/utils.rs`: the remaining hashers and helpers.
- `app/`: the `syn` front end of the macros, serde serialization and
  `Display`/`Debug` adapters.
