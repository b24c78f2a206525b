# halo

Arithmetic circuits over the Pasta fields and the PLONK traces they fill,
verified with Verus.

## Layout

- `src/field.rs`: elements of the Pasta fields `Fp` and `Fq` as four 64-bit
  limbs, with modular arithmetic computed by `ark-ff` and stated exactly.
- `src/affine.rs`: points of the Pallas and Vesta curves and their sum.
- `src/circuit.rs`: circuits as graphs of gates (`petgraph`), built gate by
  gate; every builder keeps the circuit well formed.
- `src/trace_builder.rs`: assigning witnesses and public inputs and filling
  the witness, selector and round-constant tables of both fields.
- `src/sigma.rs`: the copy permutation of a trace.
- `src/constraints.rs`: constraint polynomials of each kind of gate and small helpers
  (`pow_n`, geometric sums, reconstruction of split polynomials).
- `src/table.rs`, `src/hpoly.rs`, `src/pp.rs`, `src/modular.rs`: column
  tables, the `h` polynomials of accumulation, the public generators derived
  from SHA3, and lemmas of modular arithmetic.
- `app/`: the program that writes the public parameters to a file.
- `tests/`: tests of the library on concrete circuits and values.

## What is proved

Among others: a trace built from a well-formed circuit satisfies the
arithmetic gate on every row (except equality assertions that fail), all of
its copy constraints, and fills each output slot with the value held in the
cells of the wire it reads; every witness and public input had a value; the trace is built exactly
when every input has a value, no inverted value is zero, the unit wires
carry their units, the added points lie on the curve, every scalar
multiplication has a small enough scalar and a point it can double and add,
and the rows fit, each output then holds the value of the
circuit evaluated on the assigned inputs, and the public inputs are the
negated values of the public-input gates; the copy
lists of a trace name no cell twice, so every cell keeps its value under the
copy permutation that `build_sigma` makes of them; the affine-addition constraint vanishes on the values of a
complete addition; the accumulated `h` polynomials evaluate to
`sum_i alpha^i h_i(z)`; the coefficients of an `h` polynomial, and of a
combination of them, are those of its product form, and evaluated at `z`
they give the value that `eval` computes; the public generators are `[k] G` for the
curve's generator and the hashed index `k`; every circuit builder keeps the circuit well
formed, its counters exact and its wiring sound; and the field, curve and
polynomial helpers compute exactly what their contracts state.
