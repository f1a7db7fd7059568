# crypto-primitives: Schnorr signature gadgets

Verified synthesis logic of the Schnorr signature gadgets of a rank-1
constraint-system library.

- `src/` (verified with Verus): the truncation arithmetic that decides how
  many leading bits of a field element are dropped before it serves as a
  scalar; the plans, straight-line register programs of gadget operations,
  that key randomization and field-based signature verification synthesize;
  their well-formedness; and what they compute, given what each gadget
  operation computes.
- `app/`: the gadget types with their constraint-system traits, and the
  runner that executes a plan by calling one gadget per operation.
- `tests/`: the plans and truncation sizes on concrete widths, and the plans
  run over a toy group.
