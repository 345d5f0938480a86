# mochi

A small scripting language — lexer, parser, type checker, bytecode compiler,
file format and virtual machine — written as a Verus library. Each stage
carries `requires` / `ensures` contracts that Verus proves. How much they
pin down varies: the lexer, the file format and the single machine step are
specified in full; the parser, the type checker and the compiler are
specified for the forms and cases their contracts name, and a whole run of
the machine is described as a sequence of such steps.

Layout of `src/`:

- `lexer.rs` — characters to tokens, against a specification of the scanner.
- `parser.rs` — tokens to a syntax tree (`ast.rs`), recording errors and
  always making progress.
- `type_checker.rs` — inference with a union-find store of types;
  `assoc.rs` holds the association lists its scopes use.
- `symbol_table.rs`, `compiler.rs`, `code.rs` — scopes, code generation and
  the instruction encoding; compiled code is well formed and every jump
  leads inside it.
- `serializer.rs` — the binary file format, with a proof that reading back
  what was written gives the same program.
- `object.rs`, `vm.rs`, `stdlib.rs`, `record_map.rs` — runtime values, the
  machine and its built-in methods. Floating point is left to a function the
  caller passes in; records keep their fields in an `indexmap::IndexMap`.
- `error_reporter.rs`, `text.rs` — diagnostics and text helpers.

`app/` is the command-line program around the library: file I/O, floating
point, and the loop that serves imports.
