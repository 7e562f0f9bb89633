# kscr_types

Types, substitutions and unification for a small functional language, with
the diagnostics and the dependency analysis around type inference, verified
with Verus.

- `src/ty.rs`, `src/subst.rs`, `src/unify.rs`, `src/fields.rs`: monotypes,
  substitutions (apply, compose) and unification with an occurs check and
  row-polymorphic records; `src/agree.rs` and `src/sound.rs` prove that a
  unifier makes both sides agree.
- `src/scheme.rs`, `src/generalize.rs`: schemes, constraints, instantiation,
  generalisation, and substitutions applied under quantifiers.
- `src/display.rs`: rendering of types and schemes with readable variable names.
- `src/instance.rs`, `src/names.rs`, `src/hints.rs`, `src/numeric.rs`,
  `src/qualify.rs`, `src/monad.rs`, `src/rename.rs`: instance keys, name
  helpers, unification diagnostics, numeric type names, qualified references.
- `src/scc.rs`, `src/graph.rs`: strongly connected components (Tarjan) and
  their topological order.
- `src/exports.rs`, `src/policy.rs`, `src/digest.rs`, `src/prims.rs`: export
  tables, the rebuild policy and the interface-file walk, SHA-256 digests
  (through the `sha2` crate), and the IO primitives' schemes.
- `src/syntax.rs`, `src/resolve.rs`, `src/classes.rs`: the surface syntax
  (expressions, patterns, items, modules) with its model; a module's
  qualifiers, resolving qualified constructor names to numbered modules, and
  the check that imports come with their environments and the implicit
  prelude import; collecting class declarations, merging class environments
  and the checks on them (ambiguous method names, superclass predicates,
  superclass cycles).
- `src/origins.rs`, `src/derive.rs`, `src/roots.rs`: name hints collected from
  a module's items, derived `Semigroup`/`Monoid` instances built as syntax, and
  the search root of a module file computed on path components.
- `src/evidence.rs`: unification with its diagnostics (the goal, name
  hints, and notes on where the names involved are defined).
- `src/module_exports.rs`: what a module exports, by its export lists or
  by what it defines.
- `src/exhaustive.rs`, `src/location.rs`, `src/aliases.rs`: exhaustiveness of
  a `case` on a data type, the line and column of a byte offset, and notes on
  locally defined type aliases found in source texts.
- `app/`: the process-wide policy slot, hashing files read from disk, and the
  conversion between `std::path` paths and path components.
