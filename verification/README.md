# coreset

An assembler, disassembler and virtual machine for the Coreset instruction
set, with a small workbench model (memory banks, controllers bound to them,
running them together), written in Verus and verified.

Layout of `src/`:

- `text.rs` – character-level text handling (whitespace, trimming, comments,
  lines, tokens, decimal numbers), each function specified over `Seq<char>`.
- `encode.rs` – the mnemonic table and the encoding of one source line.
- `compile.rs` – the three-scan assembler for whole programs (functions, call
  blocks, variables, labels) and the per-line instruction count.
- `decompile.rs` – bytecode back to one line of assembly per instruction.
- `memory.rs`, `controller.rs` – memory banks and the controller that runs
  bytecode against a pool of banks.
- `session.rs` – the workbench: banks, controllers, bindings, the program and
  the source being edited.
- `names.rs` – small name maps and sets keyed by character sequences.
- `laws.rs`, `round_trip.rs` – laws relating the assembler, the disassembler
  and the controller.

`app/` is the command-line program: it reads a source file, compiles it,
prints the disassembly and runs it on one controller with one bank.

Names (function names, labels, variables) are kept in `NameMap` and
`NameSet`, vectors of character sequences, rather than in `HashMap` and
`HashSet` keyed by `String`: with `String` keys, vstd's specifications of
those maps let nothing about their contents be proved.
