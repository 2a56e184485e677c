# matrixcalculus1000

Dense real square matrices of order `1..=1000`, their numerical rank by Gaussian
elimination with partial pivoting, and reproducible generators of singular,
strictly diagonally dominant and random test matrices — verified with Verus.

## Layout

- `src/ieee.rs` — binary64 values as bit patterns: classification, absolute
  value, ordering and `max` proved on the bits; the `FloatArithmetic` trait through
  which a caller supplies `+ - * /`, `ln` and integer conversion.
- `src/matrix.rs` — `Matrix` (order and entries, with its shape as a type
  invariant), construction with validation, accessors, infinity norm and the
  automatic tolerance.
- `src/elimination.rs` — `Matrix::analyze`: pivot search, row exchanges and
  elimination (in parallel with Rayon for large orders), with the rank, nullity,
  determinant sign and `ln|det|` it reports.
- `src/generator.rs` — `MatrixKind`, the SplitMix64 generator and the matrix
  generators.
- `src/decimal.rs` — unsigned decimal numbers: reading (as the standard library
  does) and writing.
- `src/cli.rs` — reading and checking the benchmark's command-line options.
- `app/main.rs` — the benchmark program: `f64` arithmetic, timing, printing.
- `tests/` — the scenarios of the library, run against `f64` arithmetic.

## Why bit patterns

Verus does not reason about floating-point arithmetic, so the library never
holds an `f64`.  Everything that depends only on the bits — whether a value is
finite, its sign, its magnitude, how two values compare — is specified and
proved.  The operations that round (sums, products, quotients, logarithms) are
methods of `FloatArithmetic`; the library makes no assumption about what they
return, so its proofs hold for any implementation, and the program and the tests
plug in Rust's `f64` operators.

The contracts still pin the computed values down: each one is stated as the
result that the supplied implementation returns for the stated operands
(`sum_of`, `product_of`, ... in `src/ieee.rs`), so the norm, the tolerance, the
generated entries and every reduced row are described operation by operation.
Where an implementation gives one result per operands (`deterministic`, as IEEE
arithmetic does), the laws in the sources show that generation, the norm, the
automatic tolerance and elimination are functions of their inputs, that
`is_singular` answers what `analyze` reports, and that a singular matrix keeps
the rows of the random one from the same seed but the last.
