# kingfisher_bnb

Kingfisher rule mining — the top-K non-redundant, statistically significant
dependency rules of a transactional dataset — on a generic branch-and-bound
core, with the core and the combinatorial parts of the miner verified by Verus.

Layout:

- `src/bnb/` — the branch-and-bound core: the objective order, the top-K
  result collector, the problem interface and the best-first, depth-first and
  level-by-level solvers. For a problem implemented and verified with Verus
  whose evaluation is a function of the state and whose bounds are
  admissible, the best-first and depth-first searches are proved to return
  the best K solutions of the search tree, counted as often as they stand in
  it, and the two searches give the same values place by place. The
  Kingfisher search of `app/` evaluates with side effects and is
  implemented outside Verus, so these guarantees do not cover it.
- `src/matrix.rs` — the data as one bit column per attribute (on `bitvec`),
  and the support of an attribute set.
- `src/kingfisher.rs` — the Kingfisher search space: roots, branching, the
  rule candidates of a state and their generalizations, the margins the bound
  is taken against.
- `src/rules.rs` — rules, their order, the top-K rule set and the
  non-redundancy test; measures are held as binary64 bit patterns.
- `src/correction.rs` — the grouping of item pairs by support behind Tarone's
  correction, and the binary search for its `k*`.
- `src/parse.rs` — transaction lines and `A:B` constraint pairs.
- `app/` — the command-line program, the Python extension module, the
  floating-point measures and the parallel level-by-level search.
- `tests/` — tests of the library.
