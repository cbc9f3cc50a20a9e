# csrre_core

The verified core of a constraint-scheduled reactive reasoning engine:
assumption environments and a Horn-clause ATMS, a bounded ATMS for
counterfactual queries, the bridge between context frames and assumption
bits, the context stack with its discourse structures and transient
representations, execution-state scheduling, modal types, lambda terms and
their reduction, shape and sheaf constraints over reasoning subgraphs, type
normalisation, and the causal structure of a structural causal model.

Every function in `src/` carries a `requires`/`ensures` contract proved by
Verus (the two hand-written `==` impls state theirs through `eq_spec`). Laws that relate several operations are public proof functions named
`law_*` next to the operations they speak of.

## Layout

- `src/` — the library, one module per concern; `src/lib.rs` lists them.
- `tests/` — tests of the library on concrete values.
- `app/` — ordinary Rust around the library: the SMT-backed type checks,
  the e-graph, and the floating-point parts (attribution traces, adaptive
  thresholds, bootstrap attribution, provenance, numeric primitives, the
  numeric side of the causal model and of counterfactual fractions).

## Outside crates

`smallvec` holds the nogood table, behind trusted wrappers in
`src/nogood.rs`; `serde_json::Value` is carried, unread, as the structured
content of a transient representation (`src/transient_repr.rs`). `egg`,
`z3`, `rand`, `rand_distr` and `serde` are used from `app/` only.

One std function is trusted as well: the `Debug` quoting of strings, which
the rendering of lambda terms (`src/lambda.rs`) uses for names; the rest of
that rendering is verified against the text `derive(Debug)` produces.
