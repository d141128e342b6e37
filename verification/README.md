# weighted_space

A verified library for spaces that store binary64 weights at paths.

A `WeightedSpace` maps paths (byte strings) to weights. Reading and writing goes through
permissions: a permission holds a path with everything below it, any number of readers may
share overlapping paths, and a writer shares its paths with nobody. A space also combines
weights by a strategy: add, multiply, maximum, minimum or average.

- `src/` is the library. Its functions are verified with Verus against their contracts, but
  for two in `errors.rs` whose contracts are believed: `quote`, which has the standard library
  write the `Debug` form of a string, and `unauthorized`, which reads a status code from
  hyper. Weights are held as bit patterns, and their sums, products and quotients are proved to be correctly
  rounded. The modules whose names end in `_laws` state what follows from the contracts.
- `app/` makes the library usable from threads and async tasks: a lock, guards that give
  permissions back, and conversions from and to `f64`.
- `tests/` runs the library, among other things against the arithmetic of the machine.

| Strategy | What it makes of some weights (of none: zero) |
| --- | --- |
| `Add` | their sum, the default |
| `Multiply` | their product |
| `Max` | the largest |
| `Min` | the smallest |
| `Average` | their sum divided by their number |
