# nostdb-core

The core of a local-first property graph database, written in Rust and proved with Verus.

- `src/` is the library. Identifiers, names and locators; the graph model; the `.nost`
  language with its lexer, parser, validator, formatter and conversions; the write-ahead
  journal; ignore rules; link resolution; query execution; analysis packets and build
  plans. Contracts say what the public functions return or change, and Verus proves them.
  What depends on chance, such as a fresh identifier, or on an implementation that the caller
  hands in, is stated as far as it holds of every outcome.
- `tests/` runs the library on concrete values.
- `app/` is ordinary Rust around it: files, and the standard error traits.

Two outside crates are called: `unicode-ident` for the characters of a name, and `uuid` for
fresh identifiers. What is believed of them, and of the few functions of the standard
library that are wrapped, is stated where each wrapper stands.
