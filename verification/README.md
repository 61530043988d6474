# fibonacci_growth

Fibonacci growth tools, verified with Verus.

- `src/fib.rs`: generalised Fibonacci sequences with saturating `u64` terms,
  and laws on them (growth, relation to the classical Fibonacci numbers).
- `src/zeckendorf.rs`: greedy Zeckendorf representation, with existence as its
  contract and uniqueness as a law.
- `src/penrose.rs`: the Fibonacci substitution A -> AB, B -> A on edge chains,
  edge counting, and laws (composition of steps, concatenation, chain lengths
  F(k + 2)).
- `src/roughness.rs`: boundary extraction on a grid of escape counts and box
  counting (distinct boxes kept in a `HashSet<u128>`, each box packed as
  row * 2^64 + column).
- `src/coarsening.rs`: Fibonacci block sizes for graph coarsening and the node
  ranges of the blocks.
- `src/phyllotaxis.rs`: angular histogram counting.
- `app/lib.rs`: the floating-point analyses (golden-ratio approximation,
  roughness regression, spectral conservation ratios, phyllotaxis geometry)
  built on the library.
