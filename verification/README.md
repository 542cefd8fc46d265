# Portable SIMD kernels, verified

A library of data-parallel kernels written once against a `Backend` of lanes and run on the
backend a dispatch selects: dense linear algebra (gemv, gemm, syrk, trsm, Cholesky, axis sums,
Frobenius norm), compile-time tile matrix-multiply, structure-of-arrays column bundles, and the
policies that pick a backend (per-element ladders, per-combo tiers, the ARM path, the GPU/CPU
choice) and cache what the host reports.

Every function under `src/` is verified with Verus against its `requires`/`ensures`.
Floating-point arithmetic is stated through the element traits in `src/scalar.rs`: each
operation has a `*_spec` function, and the routines are proved exact against those, for any
lane count.

Layout:

- `src/scalar.rs`, `src/varying.rs`: element traits and the lane-group context.
- `src/backend.rs`: the `Backend` trait, the scalar backend, the unroll wrapper;
  `src/backend/subgroup.rs`: the GPU subgroup-or-CPU choice.
- `src/dispatch.rs`: kernels and dispatch, the combo tier policy and its cache;
  `src/dispatch/route.rs`: per-element backend ladders.
- `src/arch.rs` and `src/arch/`: the ARM path policy and the resolve-once capability probes.
- `src/dense.rs`: BLAS-style routines over strided views.
- `src/matrix.rs`, `src/matrix/panels.rs`: tile matmul, register-blocked and packed GEMM,
  operand packing.
- `src/cols.rs`: column bundles.
- `app/`: host glue — CPU feature reads, process-wide caches, `f32`/`f64` element types.
- `tests/`: the test suite.
