# pubgrub

Building blocks of the PubGrub version solving algorithm, written in Verus
with their specifications proved.

- `src/` is the verified library: version ranges and their set algebra
  (`range`, `range_trait`, `range_order`), semantic and number versions
  (`version_trait`, `semver_req`), terms over version index bitsets
  (`version`, `term`, `experimental`), incompatibilities and their merging
  (`incompatibility`), the partial solution with its decisions,
  derivations, backtracking, relation to incompatibilities and satisfier
  search (`partial_solution`, `memory`, `assignment`), arenas (`arena`,
  `package`), the dependency provider trait and an offline provider
  (`solver`, `provider`, `pairs`), derivation trees built from
  incompatibilities, their collapse of missing versions and the step by
  step report builder (`incompatibility`, `report`), and small helpers.
- `tests/` runs the library on concrete values.
- `app/` holds what the verifier does not see: `Display` formatting of
  ranges, terms and report lines, serde support and error types with their
  messages.
