# sysy_compiler

A compiler front end for SysY, a small C-like language, written in Verus.

- `src/parser/ast` — the abstract syntax: types, identifiers, expressions,
  statements, items, compile units, each with a mathematical model.
- `src/semantic` — the symbol table and the semantic checker, which resolves
  every identifier to its symbol and reports the first semantic error.
- `src/builtins` — the functions of the SysY runtime library.
- `src/ir` — the lowering to Koopa IR: a plain-value record of the IR
  (`program`), the type mapping, and the IR builder; `ir/inkwell` holds what
  the LLVM generator keeps apart from LLVM (its type choices, scopes and
  errors).
- `tests` — tests of the library.
- `app` — the command-line program: argument handling, file I/O, writing the
  IR through the `koopa` crate, and the LLVM generator, which works through
  `inkwell`.
