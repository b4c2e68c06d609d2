# logic-core

A propositional logic proof engine, verified with Verus: formulas and their text, the
rules of natural deduction, proofs with conditional and indirect subproofs, proof
verification, proof search, and the generation of theorems with proofs.

## Layout

- `src/models/`: formulas (`formula`), reading and writing them (`parse`, `text`,
  `spelling`), the rules (`rules`), one-step rewriting (`rewriting`), scopes, proofs and
  theorems.
- `src/services/truth_table.rs`: satisfiability, tautology, equivalence and entailment,
  decided by truth tables.
- `src/services/verification.rs`: whether each line of a proof is justified.
- `src/services/cheese.rs`, `nearest.rs`: cheap checks for degenerate theorems, and what
  a rewrite distance is.
- `src/services/prover/`: forward moves, what a valid proof is (`transcript`, `splice`),
  the greedy prover, and the bounded optimal prover (`search`, `optimal`): its proofs are
  valid (`found`), it keeps to its cap (`counting`), and what it certifies cannot be
  derived (`derivation`) in fewer lines (`findable`, `minimal`), so that no greedy proof is
  shorter either, unless it proves the contradiction itself indirectly (`rivals`).
- `src/services/serve_filter.rs`: which theorems are hard enough to be served.
- `src/services/dice.rs`: random draws from a seed.
- `src/services/planted_gen/`: theorems planted from a seed, their costumes, and the
  filter that they pass.
- `app/`: the filter's report in a form that can be serialised.

## What is stated

Every executable function has a contract that fixes its result. What holds of the
library as a whole is stated by the proof functions named `law_…`: that every rule is
sound, that a proof whose lines are all justified proves its conclusion, that what the
provers find is valid, that what is certified cannot be derived in fewer lines by the
moves that `derivation` defines, that a rewrite distance is the length of a shortest path
where no atom has a name that reads like a formula, that whatever is planted is justified,
complete and consistent, and more.

The only code that is trusted is the random number generator of `rand`, behind the
wrappers in `dice.rs`: each draw and what the generator holds afterwards are functions of
what it held before.
