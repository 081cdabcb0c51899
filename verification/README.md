# brainpurr

brainpurr is a Turing-complete language made of cat noises (`meow`, `mrow`,
`mrp`, `purr`, `:3c`, `>:3`, `nya`, `:3`), close kin to brainfuck. This crate
reads brainpurr and brainfuck programs, optimises them, runs them, and turns
them into C. That logic lives in `src/`, where each function has a contract
that Verus proves.

Layout:

- `src/parser.rs`: the instructions, reading and writing brainpurr text.
- `src/bf_parser.rs`: reading and writing brainfuck text.
- `src/optimizer.rs`: merging adjacent moves and additions, and its laws
  (normal form, idempotence, what it keeps, the net effect of each stretch).
- `src/loops.rs`: matching each `nya` with its `:3`.
- `src/interpreter.rs`: the machine that runs a program one step at a time,
  and why each rewrite of the optimiser leaves a step's effect alike.
- `src/compiler.rs`: the C text of a program.
- `src/args.rs`, `src/error.rs`, `src/text.rs`: settings, errors, decimal text.
- `app/`: the command line tool (argument parsing, files, stdin/stdout, gcc).
- `tests/`: tests of the library.
