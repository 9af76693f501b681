# Slotted e-graph building blocks, verified

A library of the data structures behind e-graphs with slots (e-classes that take
variable names, "slots", as arguments), written in Verus with contracts over
mathematical models.

Modules of `src/`:

- `slot`, `slotset`, `slotmap`, `slotmap_like`: slots, finite sets of slots, partial
  maps between slots and renaming by composed maps.
- `group`: permutation groups of slots (Schreier–Sims style stabilizer chain).
- `applied`, `applymap`: invocations of e-classes with a renaming, and maps keyed by them.
- `lang`: the e-nodes of the lambda calculus with slots and their slot occurrences,
  shapes and renamings.
- `suf`, `unionfind`: union-find with slot renamings and symmetries.
- `expr`, `parse`, `show`: patterns and terms, their flat form, parsing and printing.
- `proofs`, `wrapper`, `flat`, `steps`: proof steps of equations and flattened
  explanations.
- `egraph`: the e-graph over the union-find with slots: adding and looking up e-nodes
  up to congruence, equating classes (which moves the e-nodes of a merged class), restoring
  congruence (`rebuild`), deciding equality, and instantiating patterns.
- `search`: e-matching of patterns against the classes of an e-graph, and applying
  rewrite rules.
- `extract`: extraction of a term of least size from each class.
- `machine`, `ematch`: compiling patterns to matching instructions, running them on an
  e-graph, and the helpers of e-matching.
- `cost`, `pending`, `report`, `cartesian`: cost functions, pending kinds, stop reasons
  and cartesian products.

`tests/` exercises the library on concrete values.
