# ric3

The verified core of an IC3 hardware model checker, written in Verus.

`src/` is the library. Its functions are verified against their
contracts, except the thin trusted wrappers that call `giputils`' hash
collections (in `ghash`, and `litvec`'s set intersection) and build a
`String` from characters (in `text`), whose contracts state what those
calls do:

- `lit`, `litvec`: variables, literals and literal vectors (subsumption,
  resolvents, intersections, simplification, ordering), `display`: their
  text form with named bit vectors grouped.
- `text`: whitespace splitting, number parsing and printing.
- `relation`, `var2name`: the relation file (symmetric variables,
  equivalence and equal-initial-value predicates) and the variable names of
  the model, with the maps between original and current variable numbers.
- `frame`, `similar`: the frames of IC3 and their lemmas: adding a lemma,
  with the solver clauses it calls for, subsumption checks, the invariant,
  statistics, similar cubes.
- `mic`, `equiv`, `push`: the searches that generalize a cube (dropping
  literals, replacing symmetric pairs by equivalence predicates) and push a
  lemma to later frames. Each solver query is the caller's: the searches
  are state machines that hand out candidates and take the answers.
- `transys`: the cone-of-influence reduction and the renumbering of a
  transition system, with the relation given by its dependency lists.
- `certify`: the clauses and assumptions that check an inductive invariant.
- `witness`: the counterexample trace read off a chain of proof obligations,
  with the variables taken back to their numbers in the original model.
- `ghash`: the hash collections of `giputils` that the library uses, with
  their contracts.
- `config`: the engine options.

`app/` holds the command line, file reading and the process-wide data.
