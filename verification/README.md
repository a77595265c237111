# bencode

A bencode decoder and encoder written in Verus. The decoder is an iterative,
cursor-based parser with an explicit stack of open containers; it is proved to
agree, byte for byte and error for error, with a recursive grammar of bencode.

Layout of `src/`:

- `enums/` — `BencodeValue`, `BencodeDict` (keys kept in strictly increasing byte
  order), their mathematical meaning `Datum`, the byte-string order and the
  specification of dictionary insertion and lookup.
- `parser/` — `Cursor`, the parse stack, the grammar (`grammar.rs`), the
  correspondence between the stack and the grammar (`resume.rs`) and
  `parse_bencode`.
- `encoders/` — the encoding of a value and the proof that decoding reads it back.
- `dispatcher/` — `decode_bencode`, `encode_bencode`, and the range of integers
  that a JavaScript host can take as plain numbers.
- `laws.rs` — properties of the library as a whole.

`app/` holds the Python (pyo3) and WebAssembly (wasm-bindgen) bindings, which
convert host values to and from `BencodeValue`.
