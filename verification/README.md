# eml_sr_fable

The expression-structure core of a symbolic-regression engine that searches
for closed-form formulas `y ≈ f(x_1, …, x_d)` built from the operators of a
registry (Plus, Times, Pow, EML(x, y) = e^x − ln y, …), verified with Verus.

Numbers are carried as IEEE-754 bit patterns together with their shortest
round-trip decimal text, so expressions are assembled, rewritten, compared
and displayed without floating-point arithmetic.

## Layout

- `src/` — the verified library.
  - `expression`, `registry`, `text`, `render`, `builder`: reverse-Polish
    expressions, the operator registry, and builders whose display string is
    proved to be the canonical rendering of their nodes.
  - `assemble`, `feature`, `realbits`: trees of fitted powers, monomials,
    dictionary terms, sums and affine wraps, with the exponent and
    coefficient tests done exactly on bit patterns.
  - `dictionary`, `powerlaw`, `supports`: the monomial and feature
    dictionaries of the closed-form stage, the size estimate that bounds
    them, target-transform inverses, and the bookkeeping of the dictionary
    pursuit (row split, starts, distinct supports).
  - `bfs`, `pareto`: beam-search candidate generation, behavior keys,
    class-capped beam selection, row subsampling, and Pareto fronts over
    (complexity, error).
  - `fable`, `optimizer`, `pure_eml`: literal/parameter lifting and lowering,
    parameter templates, and the building blocks of the pure-EML grammar.
- `tests/` — tests against concrete values.
- `app/` — the floating-point side (statistics, least squares, the
  closed-form fitting and the orthogonal pursuit), which calls the library
  for everything structural.
