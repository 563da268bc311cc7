# toposaic

The discrete core of a generator of printable terrain puzzles, written in
Verus. The functions under `src/` carry contracts that Verus proves, except
a few small wrappers around the standard library and `uuid` (marked
`external_body`, each documented with what it claims) and `elapsed_us`,
which reads the clock and so promises nothing of its value.

- `src/classes.rs`, `src/settings.rs`: surface classes and the enumerated
  settings, with their defaults and names.
- `src/generation.rs`, `src/validation.rs`: the settings read as plain
  values, the dense filament palette, sample budgets, and the rules a
  generation's settings must meet, each with its exact message.
- `src/grid.rs`, `src/surface.rs`: raster land-cover fields, small-patch
  filtering, the tile-edge ring and the steep-slope gates.
- `src/cache.rs`: FNV fingerprints and the least-recently-used store of
  prepared geometry, bounded by size.
- `src/buckets.rs`: the spatial index of vector lines and areas.
- `src/text.rs`, `src/paths.rs`: numerals, character classes, folder and
  file names, job folders and saved-setup names.
- `src/emboss.rs`, `src/timing.rs`: label glyph checks and build timing.

`app/` is ordinary Rust around the library: the wire format read with serde,
floating-point thresholds and slopes, the process-wide geometry store, and
saving a job's files to disk. `tests/` exercises the library on concrete
values.
