# tiny_compiler

A small compiler toolkit for the TINY language, written in Verus: the
library's behaviour is stated in `requires` / `ensures` contracts and proved.

Layout of `src/`:

- `lab1`: character sets as segment tables, Thompson-style NFA construction
  (basic automata, union, concatenation, closures), epsilon removal,
  pruning, merging of equivalent states, the subset construction, and the
  TINY lexer automaton with its longest-match scan.
- `lab2`: context-free grammars: FIRST and FOLLOW sets, LL(1) tables and
  conflict reports, LR(0) item sets and automata, SLR(1) checks and parse
  tables, the sample grammars, and the text and HTML reports.
- `lab3`: a regular-expression language over character sets and a lexer
  tool built on it.
- `lab4`: the TINY front and back end: scanner, recursive-descent parser,
  and the generator of TM assembly, joined in `compile_str`.
- `text.rs`: string helpers shared by the above.

`tests/` exercises the library on concrete inputs; `app/` holds the
command-line driver, which does the file I/O and printing and calls the
library for everything else.
