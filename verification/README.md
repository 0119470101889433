# sparse_ldlt

Sparse symmetric indefinite `L D Lᵀ` factorization and solver, verified with Verus.

A symmetric sparse matrix, given in compressed sparse column form by its upper triangle, is factored
as `A = L D Lᵀ` with a unit lower triangular `L` and a signed diagonal `D`. The factors solve
`A x = b`, and the signs of `D` give the inertia of the matrix. There is no pivoting: a pivot that is
zero, that cancellation has destroyed, or that overflows, is an error. `factor_shifted` moves the
matrix off such a point and says by how much. `factor_reporting_collapse` goes on past destroyed
pivots and names their columns. `amd` finds a fill-reducing elimination order for `factor_perm`.

## Numbers

The code is generic over `Scalar`, eleven primitive operations. The contracts say which operations
are applied to which operands in which order, so they hold of any number type. `Ratio`, exact
fractions in machine words, implements the trait inside the library. Double precision implements it
outside, in `app/`.

For number types that are exact (`ExactScalar`, which `Ratio` implements too), the laws say what the
results mean as real numbers.

## Layout

- `src/scalar.rs`, `src/ratio.rs`: the number types.
- `src/csc.rs`, `src/permute.rs`: compressed columns, symmetric permutations, diagonal shifts.
- `src/graph.rs`, `src/symbolic.rs`: the elimination graph and tree, and the structure of `L`.
- `src/ordering.rs`: the minimum degree order.
- `src/model.rs`, `src/numeric.rs`: the factors as a mathematical object, and their computation.
- `src/outcome.rs`, `src/error.rs`, `src/ldlt.rs`: what each entry point returns, and the entry
  points.
- `src/sums.rs`, `src/exact.rs`, `src/inertia.rs`: real sums, real matrices, quadratic forms.
- `src/laws/`: the laws. `solving` has `A = L D Lᵀ`, `A x = b` and uniqueness; `signs` has Sylvester's
  law and Sturm counts; `scaling` has the pivot test in real numbers and what the verdict depends on.
  `breakdown`, `structure`, `fill` and `rounding` hold of rounded arithmetic too.
- `app/`: the interface in double precision.
- `tests/`: tests in double precision and in exact fractions.
