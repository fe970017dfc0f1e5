# nestix_fmt

A formatter for the Nestix DSLs embedded in Rust source: the bodies of
`layout!`, `style!` and `computed_style!` invocations are laid out again in a
fixed four-space, 100-column style, and all Rust source outside those bodies
is kept as it is.

The library is written in Verus. Its functions state their results in their
contracts, over mathematical models (`Seq<char>` texts and token trees), and
Verus proves them. What `syn` answers and the JSON document that `serde_json`
reads are named in the contracts, and rustfmt's output is handed in by the
caller.

- `src/text.rs` – characters, widths, spaces, lines.
- `src/scan.rs` – finding the invocations in Rust source, delimiters,
  indentation and diagnostics.
- `src/lexer.rs` – the token tree of a macro body.
- `src/format.rs` – the layout of `layout!` bodies, and the hand-off of Rust
  expressions to rustfmt.
- `src/style.rs` – the layout of style sheets.
- `src/syntax.rs`, `src/style_syntax.rs` – the two DSL grammars; Rust types,
  expressions, parameters and identifiers inside them are checked by `syn`.
- `src/rust_syntax.rs` – the calls into `syn`.
- `src/comments.rs` – where the comments of a body go: every comment line,
  trimmed, occurs in the laid-out text.
- `src/source.rs` – formatting a whole source text, step by step: rustfmt
  runs outside the library, which asks for each answer it needs
  (`format_source` returns either the result or a request).
- `src/cli.rs` – the command line's rules: Rust file names, reading the
  JSON of `cargo metadata` (through `serde_json`), Cargo package selection
  (given the directory of each manifest, which `std::path` reads as the
  platform does), and what a batch run writes and how it exits.
- `app/main.rs` – the `nestix-fmt` command: arguments, files, directory
  walks, `cargo metadata` and rustfmt processes.
