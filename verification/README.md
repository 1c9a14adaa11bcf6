# spine

A reader and writer for the Spine configuration format (`.spn`), written in
Verus: the lexer, the parser with error accumulation, the value accessors,
the JSON rendering of a parse and the Spine writer are executable Rust whose
behaviour is stated in `requires`/`ensures` contracts and proved.

```spine
server
| host = localhost
| port = 8080
```

## Layout

- `src/` — the verified library.
  - `text.rs`, `token.rs`, `number.rs` — characters, tokens and the number
    grammar with its canonical forms.
  - `lexer.rs` — the lexer, specified by `tokenize_from` over the characters
    of the input.
  - `value.rs`, `parser.rs` — values and the parser, specified by `parse_from`
    over the token stream; diagnostics and their rendering markup.
  - `json.rs`, `writer.rs` — JSON output and Spine output of values.
  - `document.rs`, `serial.rs` — the document API and the state of serde
    conversion.
  - `laws.rs` — properties that span functions (distinct keys, lookups,
    merging, JSON flags and escapes, number forms).
- `tests/` — tests of the library on concrete inputs.
- `app/` — what the library leaves out: file loading, the C ABI, numbers as
  `f64`, and serde's `Serialize`/`Deserialize` plumbing.

Numbers are kept as the text of their literal; the JSON output prints their
shortest decimal form and the writer a form with at least one fraction digit.
Error messages are farben markup rendered by farben, so whether they carry
colour codes depends on the environment.
