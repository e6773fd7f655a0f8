# json_parser

A small JSON tokenizer and parser written in Verus, with its behaviour stated
as contracts over mathematical models and proved.

- `src/text.rs`: characters of a text, a read cursor, UTF-8 sizes, and the
  three calls into the standard library that are trusted (`String::push`,
  `char::from_u32`, the debug form of a string).
- `src/number.rs`: the decimal grammar that a number's text must follow.
- `src/tokenize.rs`: tokens, the model of the tokenizer (`spec_lex`), and the
  verified tokenizer (`lex`, `tokenize`).
- `src/parse.rs`: values, the model of the parser (`spec_parse`), and the
  verified parser (`parse`).
- `src/equality.rs`: `==` on values, comparing objects as maps.
- `src/grammar.rs`: the grammar of values over tokens, and laws relating
  `parse` to it.
- `src/laws.rs`: further properties relating several of these functions.
- `src/lib.rs`: the error type of `parse`.
- `app/lib.rs`: the same interface with `f64` numbers and hash-map objects,
  built on the library.

Numbers are kept as the text they were written with; `app/` turns them into
`f64` values.
