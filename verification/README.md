# boole

Propositional logic on small formulas, verified with Verus.

- `src/bits.rs`: addition and multiplication of `u32` with bitwise
  operations only, and the Gray code.
- `src/op.rs`, `src/formula.rs`: the binary operators, the formula tree, its
  value under an assignment of the letters `A` to `Z`, its reverse polish
  notation and its tree drawing.
- `src/parser.rs`: reverse polish notation to tree, with the proof that
  parsing inverts writing.
- `src/table.rs`: the variables of a formula, its truth table, and
  satisfiability, with the proof that it means "some assignment makes the
  formula true".
- `src/nnf.rs`, `src/cnf.rs`: Negation and Conjunctive Normal Forms, with
  the proofs that they are normal forms, keep the value of the formula under
  every assignment, and keep its variables.
- `src/exercises.rs`: each exercise as a function from the text of a
  formula to its result.
- `app/main.rs`: the demonstration program; it prints, and reports invalid
  formulas on stderr.
