# linear-algebra-101

A small linear algebra library for teaching: vectors, matrices, Gaussian
elimination, linear systems, spans, bases and linear transformations, with a
WASM binding that drives step-by-step visualisations.

## Layout

- `src/` is the verified core, checked by Verus. It holds everything whose
  behaviour does not depend on floating-point values:
  - `grid`: the row-major layout of a matrix (transpose, columns,
    submatrices, row swaps, diagonals, augmented matrices, flattening);
  - `pivots`: pivots, pivot and free columns of an echelon form, and the
    standard-basis test on a reduced matrix, from caller-made zero tests;
  - `system`: the kind of a row of `[A | b]` and the solutions read off a
    reduced augmented matrix;
  - `vectors`: standard basis vectors and the shape checks of linear
    combinations and of matrices built from columns;
  - `composition`: one-to-one, onto and invertible from the rank;
  - `predicate_set`: sets given by a membership rule, with union,
    intersection, complement and difference;
  - `trace`: the bookkeeping of elimination traces;
  - `error`, `text`: the error type and its messages.
- `app/` is ordinary Rust around it: the `f64` types (`Vector`, `Matrix`,
  `System`, `Span`, `Transformation`, ...), whose arithmetic and tolerance
  tests cannot be verified, and the `wasm_bindgen` exports.
- `tests/` runs the library on concrete values.
