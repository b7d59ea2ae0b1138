# boolean_inference

A solver for Boolean constraint networks: satisfiability, exact model counting, exact weighted
counting, and the splitting of a problem into cubes for parallel solvers. Circuits, DIMACS
formulas and texts of relations are read as networks of truth tables; the search branches on
whole regions of a network instead of single variables.

* `src/` is the library. Every function in it is verified against its contract. Where another
  thread, a solver or a receiver of the caller decides, the contract says what is asked of it
  and what follows from each answer.
* `app/` holds the command-line tools: reading and writing files, JSON, running solvers, and
  everything that computes with floating-point numbers.
* `tests/` runs the library on concrete inputs.

Where to start: `network` (what a network and a model of it are), `ct` and `propagate`
(propagation to arc consistency), `region`, `table` and `selector` (branching rules), `solver` and
`searchtree` (deciding), `counting`, `countve` and `instance` (counting), `cube` and `cubetree`
(splitting), and `formats`, `dimacs`, `csp` and `circuit` (inputs). What holds across functions is
stated by the proof functions whose names begin with `law_`.
