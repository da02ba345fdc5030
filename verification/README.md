# purell

A small untyped lambda calculus, with two front ends over one verified
library:

- `src/interp/` — the interpreter: tokenizer and parser (`lexer`), terms with
  capture-avoiding substitution and normal-order reduction that unfolds
  macros lazily (`term`), macro definitions and blank-line-separated source
  expressions (`preprocessor`), and the text of each evaluation and of the
  interactive commands (`repl`).
- `src/compiler/` — the native compiler's front end: tokenizer and parser
  with 63-bit integer literals (`lexer`, `ast`), comment stripping, eager
  cycle-checked macro expansion and source loading (`preprocessor`), closure
  conversion to lifted functions (`closure`), the command line and the
  pass pipeline (`driver`), and the proof that printed terms parse back
  (`roundtrip`).
- `src/includes.rs` — the files being loaded, which tell a circular include.
- `src/text.rs` — character-sequence helpers shared by both.

Every function in `src/` is verified with Verus against a contract stated
over mathematical models (`Seq`, `Map`, `Set`, and a view of each type),
except six small trusted wrappers around std (`String::push`,
`char::is_alphabetic`, `char::is_numeric`, `Debug` of a string,
`Path::file_stem`, `Path::join`), whose contracts Verus takes as given.
The proof functions named `lemma_*` with public visibility state properties
of the library as a whole: closure conversion yields well-formed programs,
macro expansion leaves no macro behind, printed terms parse back into
themselves (in both front ends), substitution is capture-avoiding, and normalization stops at
normal forms.

`app/` holds the programs: file reading, include resolution, the interactive
loop and the command lines. The binary runs the compiler's driver when
invoked under a name ending in `impurell`, and the interpreter otherwise. The
LLVM back end and the C runtime are not part of this crate, so the compiler
checks a program through closure conversion and reports it.
