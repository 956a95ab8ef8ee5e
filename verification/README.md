# promethee

PROMETHEE II multi-criteria ranking, verified with Verus.

Numbers are `Fixed` values with twelve decimal places (`src/fixed.rs`), so
every step of the ranking is exact integer arithmetic whose rounding (toward
zero) is part of the contracts.

- `src/fixed.rs`: the `Fixed` number type and its arithmetic.
- `src/function.rs`: the preference functions (usual, quasi, linear, level,
  linear with indifference) and their laws (bounded, zero unless better,
  monotone).
- `src/promethee.rs`: criteria, flows, and the specification of the ranking.
- `src/vanilla.rs`: the ranking itself (`Vanilla::rank`, `Vanilla::try_rank`)
  and the stable ordering by net flow.
- `src/laws.rs`: properties proved over the specification: net flows sum to
  zero, reversing every goal exchanges the flows, scaling every weight by a
  positive fraction changes nothing, divided flows stay within one and are the
  undivided ones over the number of other actions, the ranking is unique, and,
  for adding one criterion, a minimised goal swaps positive and negative
  contributions, the order of criteria does not matter, a zero weight adds
  nothing and each contribution is bounded by the weight.
- `app/`: the command-line program, and the Gaussian preference function,
  which needs floating point.

Usage: `promethee --version van --weight 0.5 linear 1`.
