# sim_discrete

Discrete mathematics with machine-checked contracts: graphs and their
traversals, spanning trees and shortest paths with certificate checkers,
semiring matrices and their closures, sparse matrices, exact counting over
arbitrary-precision naturals, and ranking/unranking of combinatorial objects
(combinations, permutations, subsets, bit vectors, mixed-radix vectors, simple
graphs, partitions) together with the metrics and grades built on them.

Every function in `src/` is verified with Verus: each public function states in
its `requires`/`ensures` what it returns for every accepted input, and the laws
that relate several functions (for example that a sparse matrix densifies and
reads back unchanged, that Kruskal's and Prim's trees are minimum spanning
trees, that square-and-multiply computes the repeated product, that boolean
closure is reachability) are public proof functions next to the code they
speak of. The only trusted code is a set of small wrappers in `src/bignat.rs`
around `num-bigint`'s `BigUint`, each with a contract that states what the
called method does.

## Layout

- `src/` — the verified library, one module per topic (`graph`, `traversal`,
  `path`, `mst`, `certificate`, `matrix`, `sparse`, `semiring`, `count`,
  `combination`, `permutation`, `partition`, the `*_space` rank adapters, …).
- `tests/` — ordinary Rust tests run against the compiled library.
- `app/` — ordinary Rust around the library: error types with `Display` and
  `std::error::Error` (through `thiserror`), and the `f64` real semiring, which
  works in floating point and so stays outside the verified code.

Verify with `verus` on `src/lib.rs`; build and test with `cargo`.
