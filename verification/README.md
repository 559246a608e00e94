# syntax_highlighter

A PEG-based syntax highlighter: grammar sources are parsed and compiled
to bytecode, run by a packrat virtual machine with an incremental memo
cache, and the resulting captures are rendered as ANSI-colored text.

- `src/` is the library, written in Verus. What its contracts pin down
  differs by part. Results are stated (up to the order of some analysis
  outputs) for the character sets, the bytecode and its binary format,
  the memo cache and its edit shifting, the slab, the analyses
  (nullability, left recursion, FIRST/FOLLOW, boundary inference,
  keyword tries and word sets), the code each pattern compiles to, the
  capture walk and rendering, and the text the command-line tools print.
  Stated in part: the VM (the result of a run is the outcome of a chain
  of steps, each with its stated effect on the registers, the stack, the
  captures and the memo table; some watermark updates are left open, so
  the stated run is not a function of its start), the grammar parser
  (the shape of what it returns and where errors point, but not which
  sources it accepts), whole-grammar compilation (errors for unknown
  start rules, uninferable boundaries and undefined rules, and the rule
  layout), and the incremental parser and highlighter (after each edit,
  the new text and a state that is the outcome of a run seeded with the
  carried memo records, but not that it equals a fresh parse).
- `tests/` exercises the library on concrete inputs.
- `app/` holds the command-line front ends: the JSON highlighter, the
  multi-language `demo`, and the grammar tools `pegc` and `pegdb`, chosen
  by the name the program runs under. Grammar files are read from the
  directory in `SYNTAX_HIGHLIGHTER_GRAMMARS`, else `grammars/`.
