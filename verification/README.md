# scrapbox

A runner for canonical-ensemble finite-temperature density functional
theory on the one-dimensional Hubbard chain, driven by a single
`config.toml`.

The crate has two parts:

- `src/` is a library verified with Verus. It holds the integer and text
  logic of the toolkit with contracts and proofs: the occupation-bitmask
  basis of the many-body chain and its Jordan-Wigner hopping structure
  (closed under hopping, symmetric, sign `+1` for nearest neighbours),
  binomial Hilbert-space dimensions, the configuration records and the
  rules a configuration must satisfy, the choice of eigensolver and
  density evaluator, the Lanczos and ED sizing rules, the parameter-sweep
  grid and the directory names of its cells, the Pulay mixing history,
  and the plan of the files a run writes.
- `app/` is the command-line program (`run`, `validate`, `sweep`,
  `bench`, `doctor`, `ed`). It holds the floating-point physics (Kohn-Sham
  matrices, exchange-correlation functionals, eigensolvers, the Pratt
  recursion, reference closed forms) and the file and TOML handling, and
  calls the library for everything above.

`tests/` exercises the library from outside.
