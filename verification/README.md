# mds

A compiler for MDS prompt templates: modules with YAML frontmatter, text
with `{variable}` and `{function(...)}` interpolation, `@if`/`@for`
control flow, `@define` functions, `@import`/`@export` between modules,
`@message` blocks, and template inheritance with `@extends` and `@block`.

The library is written in Verus and verified.

## Layout

- `src/resolver.rs` — the module cache: resolving modules through a
  `FileSystem`, imports and exports, inheritance (skeleton splicing and
  block overrides), cycle and depth detection. Its contracts state that each
  resolution restores the stack of modules being resolved, that the cache
  only grows and keeps the first resolution of every key, and the errors of
  cycles and of too-deep chains; `law_most_derived_wins`,
  `law_exports_agree` and `law_first_resolution_wins` state laws across
  functions.
  An extending template's module is its base's skeleton with the base's
  blocks overridden by its own (`extended`), rendered in a scope that holds
  the runtime and frontmatter variables.
- `src/validator.rs` — semantic checks, with an exact contract: the first
  problem in document order is reported; `law_definitions_keep_valid` says
  that adding definitions never invalidates a body.
- `src/evaluator.rs` — rendering; `src/parser.rs` — the template syntax,
  exact for expressions, text lines, `@import`/`@export` directives and the
  frontmatter fence, and for bodies of text lines with `@block` and
  `@message` sections (`items_from`).
- `src/lib.rs` — the compile entry points: a module of an optional
  frontmatter mapping, text lines and `@block` sections compiles to its
  rendered text; one with `@message` sections gives its messages.
- `src/imports.rs`, `src/paths.rs`, `src/fs.rs` — frontmatter imports, file
  keys and types, the in-memory file system.
- `src/options.rs` — the options object of the JavaScript interface.
- `src/collections.rs` — the `indexmap` collections and `HashMap` entries the
  library uses, with the contracts their documentation gives.
- `app/lib.rs` — the native file system and the WebAssembly `compile` and
  `check` functions.
