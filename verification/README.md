# caravela

Linear algebra primitives and bit-code hash indexes for nearest-neighbour
search, written in Verus: the routines of the library that return or
change something state it in `requires` / `ensures` and are proved against
it (the `sublists` routines compute lists and drop them, so they state no
result).

## Layout

- `src/` — the verified library.
  - `blas`, `blocking`, `packing`, `gemm_params`: dot products and
    distances summed in eight lanes, matrix-vector products, and the blocked
    matrix-matrix product (operands packed into panels, tiles computed by a
    kernel), over any element type that implements the `Blas` trait.
  - `blas_laws`, `wrapping_laws`: laws relating the routines, for every
    element type (transposed variants) and for wrapping `i64` arithmetic
    (the order of summation does not change the result).
  - `permutation`, `encoding`, `sorting`, `nearest`: codes of orderings
    (pairwise comparison bits, nearest-pivot masks), sorting positions by
    key, and choosing the `k` best candidates by score.
  - `bit_tricks`, `query`: bit manipulation, weights of set bits, Hamming
    distances between 512-bit codes.
  - `buckets`, `indexes`, `select_index`, `hasher`, `hashers`,
    `try_hasher`, `slot_map`, `point_set`, `random_mask`: hash tables and
    indexes keyed by codes, masks or random windows of codes.
  - `sublists`: the positions of a list with one entry left out.
- `tests/` — tests of the library on concrete values.
- `app/` — the floating-point side: `f32` / `f64` element types for the
  verified routines, float entry points (`sdot`, `dgemm`, ...), float
  geometry (anchors, cosine distances) and the float-to-key conversions
  through which the verified orderings see float values.

Floats never enter `src/`: the routines there are generic over `Blas`
(instantiated and proved for wrapping `i64` arithmetic), and orderings of
float values reach them as order-preserving integer keys.
