# regdef

A small language for writing regular expressions as named definitions, and
its compiler to RE2 syntax, verified with Verus.

```
digit_or_x := DIGIT / "x"
EXPORT := "id-" + MULTIPLE digit_or_x
```

compiles to `id\-[\dx]+`.

## Layout

- `src/lexer.rs`: tokens of a definition file, and the character classes
  (`DIGIT`, `WCHAR`, `WHITESPACE`, ...).
- `src/parser.rs`: the grammar, from tokens to definitions.
- `src/processor.rs`: inlining of the `EXPORT` definition and simplification
  of the result.
- `src/optimizer.rs`: a structural flattening pass over inlined expressions.
- `src/generator.rs`: printing as RE2 syntax.
- `src/inliner.rs`, `src/diagnostic.rs`: inlining with error reports that
  point into the source file.
- `src/compiler.rs`: a direct printer for parsed expressions made of
  literals, classes, concatenations and alternatives.
- `src/language.rs`: what a pattern matches, and the proofs that
  simplification and flattening keep it.
- `src/properties.rs`: the shapes that simplification leaves behind.
- `src/merging.rs`: what the merging steps keep apart, and that merging
  the parts of a concatenation twice changes nothing.
- `app/main.rs`: the command-line front end.

Each stage's result is stated exactly by its contract over a mathematical
model; `compile` in `src/lib.rs` is stated as the stages run in turn.
