# vyges_lec

Combinational logic equivalence checking, verified with Verus.

Two gate-level netlists (golden and revised) and a Liberty library in, a verdict
out: do they compute the same function at every endpoint? Every endpoint (primary
output or flop data net) of both designs is built into a canonical reduced,
ordered BDD over one shared variable order; equal functions are the same node,
and when two endpoints differ the miter yields a concrete input counter-example.
Sequential designs are cut at the registers (flop Q nets are free inputs, flop D
nets are endpoints).

## Layout

- `src/bdd.rs` — the ROBDD package (`ite`, `not`, `and`, `or`, `xor`, `xnor`,
  `sat_one`), with the canonicity and miter laws.
- `src/lec.rs` — the equivalence check: the cell-name primitive map, drivers,
  endpoints, the function each net computes, and `equivalence` with its report
  (`equivalence_in` runs the same check in a BDD package the caller holds).
- `src/report.rs` — the report rendered as text or as JSON.
- `src/liberty.rs`, `src/netlist.rs` — the plain data the check reads from a
  Liberty library and a netlist.
- `tests/` — unit and scenario tests.
- `app/` — the command-line program: it reads the files with the shared Vyges
  parsers and converts them to the library's types.
