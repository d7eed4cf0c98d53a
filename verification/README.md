# special

A verified library for reading specification annotations (`@spec`,
`@group`, `@verifies`, `@attests`, lifecycle markers) and architecture
annotations (`@module`, `@area`, `@implements`, `@pattern`, `@applies`)
out of comment blocks and markdown files, and for the reports built on
them: lint diagnostics, traceability, ownership, duplication and item
signals, and repository metrics.

## Layout

- `src/` is the library, written in Verus. Every function there carries a
  contract that Verus proves.
  - `model/` holds the data model (declarations, lifecycle states, release
    labels, parse results) with its validity rules.
  - `parser/` reads comment blocks and markdown files into declarations,
    verify references and attestations. Its contracts describe a parse as
    a walk over the lines (`block_walk`, `md_walk`) and state that the
    results are, entry by entry, those the walk records.
  - `modules/` parses the architecture annotations (`arch_walk` for
    markdown files, `implements_of` for comment blocks), lints the result,
    and builds the analyses and metrics over it.
  - `language_packs/` holds the TypeScript-specific pieces that work on
    extracted values (boundaries, surfaces, call graphs).
- `tests/` exercises the library on concrete inputs.
- `app/` is ordinary Rust around the library: running the traceability
  kernel as a separate process, and writing TypeScript fixture projects to
  disk.

Analyses that need a TypeScript syntax tree (quality and dependency scans
of TypeScript sources) are not part of this crate; the library takes the
extracted items and calls as plain values instead.
