# Sane

Sane is a small byte-oriented programming language that compiles to 8-bit Brainfuck. This
crate is its toolchain as a verified library: the compiler (`sanec`), an optimizing Brainfuck
interpreter and a raw-instruction debugger (`sanei`), each with contracts that Verus proves.

## Layout

- `src/text.rs`: text helpers (decimal and hexadecimal digits, trimming, words, unsigned
  numbers).
- `src/diagnostic.rs`: source spans and rendered diagnostics (`path:line:column` and a caret).
- `src/lexer.rs`: tokens; `lexes_to` says exactly which token stream a text has.
- `src/ast.rs`, `src/parser.rs`: the syntax tree and the recursive-descent parser.
- `src/grammar.rs`: the grammar as relations between token stretches and trees
  (`program_at`, `stmt_at`, `expr_at`); what the parser returns is spelled by what it read.
- `src/sema.rs`: scopes, constants, the tape layout and the call-graph rules (no recursion,
  bounded call depth).
- `src/ir.rs`, `src/bf.rs`: the two code generators (structured, and program counter over
  basic blocks) and the pass that drops redundant clear loops.
- `src/interpreter.rs`: Brainfuck parsing into optimized operations and the runtime, with
  their meaning (`parsed_ops`, `execute`, `run_of`).
- `src/transfer.rs`: why transfer loops may run as one `AddMul` step.
- `src/debug.rs`: the debugger's program, machine and command loop.
- `src/cli.rs`: argument handling and the symbol annotation.
- `app/main.rs`: the `sanec` and `sanei` programs (files, standard streams, Ctrl-C).
- `tests/`: the test suites.
