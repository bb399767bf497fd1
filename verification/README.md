# project_s

Parts of the toolchain of the S language, a Lisp with structs, quoting and a
structural type system, written and proved in Verus: reading source into
S-expressions, binding patterns, the subtyping constraint engine and the
pieces of the language server that compute from plain values.

Not here: the evaluator, macro expansion, lambda lifting, the inference
engine over inferred types (constraint solving, typing of terms, coalescing,
extrusion, ascription of annotations), the checker that walks a program over
the constraint engine with its annotation parser and canonicalizer, and with
them type hovers and type diagnostics in the language server. The evaluator
shares mutable thunk cells and native closures between values; the passes
rest on a syntax-tree visitor that this library does not have; and the
inference and checking passes need type forms that the tables here lack
(tuple types with a rest part, literal nodes in the constraint graph, plain
`number`, `string` and `bool` annotation types, module and path lookups in the
engine).

`src/` is the verified library:

- `source`: sources and spans; `modules`: module tables by path.
- `ast`: the S-expression arenas and the reader that builds them from a
  concrete syntax tree (`CstNode`); `parser`: a plain reader of symbols and
  lists; `patterns`: binding patterns read from S-expressions; `builder`:
  descriptions of S-expressions added to an arena on demand; `tree_walker`:
  plain S-expressions read as strings and `:struct` objects.
- `types`: the subtyping constraint engine (`checker`, `flow`) with its
  incremental transitive-closure index (`reachability`), scoped environments
  (`envs`) and the names of type variables (`printing`).
- `simple_types`: identifiers, polarities, inferred types and variable tables
  of the inference engine, and the table of printed types with their text
  (`simple_types::format`).
- `display`: the text of S-expressions, plain or one item per line.
- `lsp`: semantic tokens from highlight events, line and column of a byte
  offset, and where a diagnostic is shown.
- `diagnostics`, `graph`, `api` (arity checks of native functions),
  `test_utils`, `text`.

`app/` is the command line and the language server around it: concrete
parsing with tree-sitter, syntax highlighting, file reading, and the display
of S-expressions and diagnostics.
