# resolvent

Exact algebra and term infrastructure for a scientific-modelling stack,
written in Verus: every function in `src/` carries a `requires`/`ensures`
contract that Verus proves.

- `rational`, `qfield`: exact rationals (arithmetic delegated to `dashu`)
  and the field laws the proofs use.
- `lazy_real`: lazy exact numbers held in an arena DAG, forced iteratively
  under a node budget.
- `ratmat`, `polymat`: dense rational matrices and polynomial pencils.
- `roots`, `polydiv`, `polynomial`, `sqrt_ext`: univariate polynomials over
  the rationals, exact long division, gcds, resultants and certified
  real-root brackets.
- `units`, `scc`, `structural`, `sorting`: physical dimensions, strongly
  connected components and structural analysis of equation systems.
- `term`, `term_store`, `term_wire`, `term_decode`, `receipt`: hash-consed
  terms, their canonical wire form, fail-closed decoding and BLAKE3
  receipts.

`app/` holds what Verus does not see: serde and thiserror copies of the
library types and the process-wide store-id counter.
