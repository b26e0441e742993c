# ivfpq

An inverted-file index for approximate nearest-neighbour search, with vectors
stored as product-quantized codes. The library is written in Verus: its functions
state in contracts what they return and change, and the contracts are proved. Two
private functions in `src/opq.rs` call the generator of random numbers and are
taken on trust.

- `src/` is the library. It holds the inverted lists, their file format, the
  encodings of IDs and codes, the choice of what a search looks at and what it
  answers, and the shuffler for vectors that do not fit in memory. Single-precision
  numbers are carried as their bit patterns; distances come from outside.
- `app/` turns numbers into distances and bytes into files: it trains, encodes,
  rotates and measures vectors, and hands the results to the library. The kernels
  for clustering and measuring are supplied by the caller.
- `tests/` runs the library.

A file starts with a header of 64 bytes, followed by the rotation (if there is
one), the coarse centroids, the codebooks, a table with sixteen bytes for every
list, and the lists. `src/file.rs` defines all of it.
