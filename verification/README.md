# sapvc-lsp

Editor support for the source of **SAP Variant Configuration (LO-VC / AVC)
dependencies**: diagnostics, completion, hover and where-used. The library is
written in Verus; what each function answers is stated in its contract and
proved.

| Capability | Detail |
|---|---|
| Diagnostics | Syntax errors of the grammar; unknown variant tables, classes, functions and characteristics; values that do not fit |
| Completion | Characteristics behind a dot, columns inside a `TABLE` call, operators in a condition, starts of statements |
| Hover | What the material knows of a characteristic, a table or a class, and where a name is used |
| References | Where a word is used, in the sources of the material and in the document |

## Layout

- `src/` is the library. Documents are sequences of characters, syntax trees are
  plain data (`syntax`), and the material is an index of names (`material`).
  `grammar` reads a tree from the tree-sitter parser; the grammar itself is
  handed in.
- `app/` is the language server around it: LSP over stdio, the material package
  on disk, the directory of sources.
- `tests/` runs the library on concrete documents.

## Usage

```bash
sapvc-lsp --data /path/to/material_package.json
```

Without `--data` the server still reports syntax diagnostics.

## What is taken on trust

The tree-sitter parser, the `regex` crate, `Url::from_file_path` and a few
functions of the standard library are called through small wrappers. Each says
above its contract what it claims of the function that it calls.
