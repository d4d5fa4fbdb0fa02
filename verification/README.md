# spirv_float_controls

Floating-point execution policies of SPIR-V entry points, carried through a
linker pipeline and verified with Verus.

* `take_policies` removes the `FPFastMathDefault` execution modes of a module
  and returns each as the name and execution model of its entry point and its
  flags, so that the policy survives passes that renumber ids.
* `restore_policies` re-emits each policy for every float width its entry
  point reaches through the module's dependency graph (values, types, calls
  and function bodies), together with the denormal and rounding modes, the
  capabilities and the extension those modes need.
* `remove_unused_capabilities` drops float-control capabilities and
  extensions that no remaining execution mode or fast-math decoration needs.

Layout:

* `src/model.rs` — the plain model of a module (instructions, operands,
  functions, sections) and its mathematical view.
* `src/graph.rs` — the dependency graph and the float-type table of a module.
* `src/reach.rs` — the depth-first walk from an entry point and the proof that
  it meets exactly the reachable float widths.
* `src/listing.rs` — width maps listed in increasing width order.
* `src/policies.rs`, `src/restore.rs`, `src/prune.rs` — the three passes, the
  checks of their preconditions, and their laws.
* `src/round_trip.rs` — taking the policies back out of a module they were
  restored into gives each policy once per float width its entry reaches,
  for a module that has no fast-math defaults left, whose declared ids lie
  below its bound, and where the entry point each policy names is the first
  entry point carrying its id.
* `app/lib.rs` — the passes on `rspirv` modules: conversion to and from the
  model around the verified passes.
