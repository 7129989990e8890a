# kmd_engine

A simulation engine for three Danish welfare rules (kontanthjælp,
boligstøtte, børneydelse) over a population of synthetic citizens: batch
evaluation in dependency order, scenarios that change one parameter and
re-evaluate only the affected rules, diffs against the baseline, segment
totals, top-N rankings, histograms and per-municipality figures.

## Layout

- `src/` is the verified library (Verus). It holds the rule identities and
  dependencies, the dependency graph and its evaluation order, the
  per-citizen evaluation context, batch and incremental evaluation over a
  caller-supplied rule function, the parameter-to-rule mapping and dirty-set
  propagation, grouping, ranking, bucketing, eligibility diffs and
  municipality counts. Money amounts are a type parameter, so every contract
  speaks of integers, sequences, sets and maps.
- `app/` is ordinary Rust around it: the floating-point rule arithmetic and
  parameters, the random population generator, floating-point totals and
  means, case explanations, and the JSON/WebAssembly bridge.
- `tests/` exercise the library on concrete values.

The central properties are proved in `src/`: the evaluation order puts every
rule after the rules it reads (or the graph is refused with the rules that
cannot be placed); a dirty set is the least downstream-closed set holding the
changed roots; re-evaluating only the dirty rules leaves the clean ones as in
the baseline and gives what a full evaluation gives; groups partition the
citizens; rankings are the largest keys in order.
