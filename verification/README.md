# maveric

A retained-mode scene-graph reconciler for Bevy. Node types describe their
components and children from their inputs; whenever the inputs change, the
tree is described anew and reconciled with the entities that exist.

## Layout

- `src/` is the verified library, written in Verus. It holds the decisions
  of reconciliation: child keys and their text, matching old children by key
  and reporting duplicate keys, the new order of ordered children with the
  lingering ones placed among them, when a node is hot, when a value made of
  parts has changed, memoised values,
  deletion policies and their timers, and transition paths.
  The laws that span several calls stand in `src/ordering.rs` as proof
  functions; the others are `ensures` clauses of the functions they are about.
- `tests/` runs the library on concrete values.
- `app/` is the Bevy front end: plugins, systems, system parameters,
  components and the command builders that node types use. It hands the
  library plain values (keys, entity bits, durations, flags) and acts on what
  comes back.

## Not included

- The `HasChanged` derive macro (a procedural macro that writes the
  `HasChanged` impl of a struct of system parameters) is not part of this
  crate: a procedural macro is a crate of its own and cannot be written in
  Verus. Such a struct implements `HasChanged` by hand, as the tuple impls in
  `app/context.rs` do: it has changed when any of its fields has.
