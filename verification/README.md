# hiwkhao

A compiler for a small calculator language and the register machine that runs its
output, written in Verus: every function under `src/` is verified against its
contract.

- `src/scanner.rs`: the lexer and the token listing, one line per source line.
- `src/number.rs`: decimal numbers as the language reads and writes them.
- `src/parser.rs`: the parser, its error positions and its listings.
- `src/symbol_table.rs`: the symbol table built from the parsed lines.
- `src/codegen.rs`: the instructions generated for each expression.
- `src/vm.rs`: the register machine; floating-point work is handed to the host.
- `src/display.rs`, `src/gui.rs`: the debugger's state and messages, and the text
  its views show.
- `src/pipeline.rs`: laws that follow a program from source to the machine's output.
- `src/text.rs`: character-level helpers.

`app/` is the command-line program around the library: file I/O, the `f64` host for
the machine, the terminal view and the debugger's front end. `tests/` holds the tests.
