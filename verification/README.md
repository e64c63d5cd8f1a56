# corn

A reader for Corn, a small configuration language with input declarations,
string interpolation, chained keys and spreads, written in Verus and proved
against its specifications.

```
let {
    $name = "world"
} in {
    greeting = "hello ${name}"
    server.port = 8080
}
```

## Layout

- `src/` — the verified library.
  - `lexer.rs`: the tokens of a text (longest match, string literals with
    escapes and interpolation, integers of 64 bits), as a function `lex` and a
    lexer proved to compute it, with byte spans.
  - `grammar.rs`: how a configuration is written as tokens.
  - `parser.rs`: a one-token-lookahead parser, specified as `parse_root_spec`;
    the laws `lemma_read_iff_printed` and `lemma_unique_reading` tie it to the
    grammar.
  - `messages.rs`: syntax error messages, laid out as `lalrpop_util` shows them.
  - `de.rs`: evaluation of a configuration (inputs, environment inputs,
    spreads, chained keys), the top-level `evaluate` and `parse`.
  - `value.rs`, `integer.rs`, `multiline.rs`, `error.rs`, `chars.rs`: values,
    integers that remember their sign, multi-line string dedenting, errors and
    character classes.
- `tests/` — tests of the library.
- `app/` — what is left outside the proofs: reading the process environment,
  serde deserialization into Rust types, floats as `f64`, and the standard
  error traits.

## Design notes

- `Object` keeps its entries in a `Vec` of pairs, with the invariant that no
  key occurs twice, instead of an `indexmap::IndexMap`. Two ways of keeping
  `IndexMap` were tried and refused by Verus: declaring it as an outside type
  fails because `Value` would hold it in a recursive position ("recursively
  uses type in non-positive position"), and holding it in a private field of
  an `external_body` struct, with a name for its contents, fails on the
  termination of the recursive view of `Value`.
- Values are owned: the library builds `Value` directly, so there is no
  borrowed value type and no conversion from one. Strings are copied out of
  the text rather than borrowed from it, and `app/`'s `from_str` therefore
  deserializes into types that own their data.
- Floats are kept as the text they were written with; `app/` turns them into
  `f64`. A float token in a syntax-error message is shown as written.
