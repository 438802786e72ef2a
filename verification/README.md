# tpt_axiom

A verified core for writing zero-knowledge circuits and checking uncertainty
arithmetic in ordinary Rust.

## Layout

- `src/` — the library, verified with Verus:
  - `circuit` — the arithmetic constraint IR (expression DAG, public/secret
    variables, zero / equality / non-negativity constraints) and its builder;
  - `r1cs` — lowering the IR to rank-1 constraints and evaluating a witness;
  - `poly` — canonical multivariate polynomials with `i64` coefficients,
    with the ring laws of their sum and product (commutativity,
    associativity, distributivity, zero and one as identities, additive
    inverses, zero annihilating);
  - `identity` — distinct canonical polynomials differ at some integer
    assignment, so comparing normal forms decides equivalence;
  - `check` — normalizing a circuit's expressions and checking a constraint
    against the comparison it should encode, and evaluating a circuit;
  - `variance` — the variance-propagation formulas of uncertain values
    checked as polynomial identities;
  - `lower_ast`, `lower`, `args` — the circuit attribute: its arguments, the
    fragment of Rust it accepts, and the lowering of a function into a
    circuit whose constraints hold exactly when the function's assertions do,
    each constraint encoding the polynomial its statement calls for;
  - `graph`, `gate`, `constraint`, `lowering` — the wire/gate constraint graph;
  - `zk`, `backends` — the circuit and proving-backend interfaces.
- `tests/` — tests of the library.
- `app/` — what stays outside the verified library: the floating-point
  `Fuzzy<T>` and `Distribution<T>` types and their statistics, reading Rust
  syntax (via `syn`) into the library's source model and writing the circuit
  type back out, and the command-line driver.
