# bf+

A compiler for bf+, an extension of brainfuck with tapes, a stack, system
calls, literals, macros, conditionals and includes, to 64-bit NASM assembly.

The library under `src/` is verified with Verus:

- `lexer`: source text to tokens (`lex_file`), with the law that a text of
  command characters lexes to one token per character;
- `includes`: the `#include` expansion as a state machine (`IncludeExpander`)
  that asks its driver whether files exist and for their contents, with the
  laws that a program without includes is copied unchanged, that an
  included file's tokens take the place of its directive, and that the
  output never holds an `#include`;
- `preprocess`: `#define`, `#ifdef`, `#ifndef`, `#else`, `#endif` and `#tape`
  (`preprocess_tokens`), with the laws that no directive and no name is left,
  that tapes are only added, that plain programs pass unchanged, that
  `#ifndef` is `#ifdef` turned around, and that a macro cycle is reported
  only for macros that name one another in a circle;
- `parser`: tokens to operations (`parse_file`), merging runs of `+ - < > ^ _`,
  with the laws that texts, counts and token kinds are kept;
- `code_gen`: operations to assembly (`generate_code`), with the laws that the
  bracket cross references are mutually linked, that every program it
  accepts gets its assembly, and that runs of `<` and `>` wrap around the
  tape at both ends;
- `program`: the whole assembly file (`assemble`) and the names of the files
  made from a program file;
- `pipeline`: the law that every classic brainfuck program whose `]`s each
  follow some `[` goes through every stage and gets its assembly;
- `common`, `text`: the shared types and decimal notation.

`app/main.rs` is the command-line driver: it reads the source and included
files, runs the library, writes the `.asm` file and calls `nasm` and `ld`.
