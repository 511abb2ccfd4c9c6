# chip8

A CHIP-8 assembler and emulator whose core is verified with Verus.

- `src/` — the verified library
  - `text.rs`: whitespace, trimming, searching and unsigned-number parsing on characters
  - `lexer.rs`: source text to tokens (`lex_source`, `try_lex_source`)
  - `ast.rs`, `parser.rs`: tokens to instructions (`build_ast`)
  - `compiler.rs`: instructions to a program image loaded at `0x200` (`compile`, `try_compile`)
  - `chip.rs`: the virtual machine (`Chip8`): memory, display, registers, timers,
    keypad, fetch and execution of every instruction
  - `chip_laws.rs`, `assembler_laws.rs`: properties that span several
    instructions or several stages, proved over the models
- `app/` — the command line: `assemble <source> [-o dir]` writes `dir/bin.ch8`;
  `run <rom>` opens a raylib window, maps the keyboard to the keypad and runs
  ten instructions per frame at 60 frames per second.
- `tests/` — tests on concrete programs and machine states.
