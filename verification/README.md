# lean_string

A compact, clone-on-write string with small-string optimization, verified with Verus.

A text of up to two machine words (16 bytes on a 64-bit target, 8 on a 32-bit one) is kept
inline, a `&'static str` is borrowed without copying, and a
longer text lives in a reference-counted heap buffer that clones share until one of them is
changed. `LeanString` is the growable string; `LeanStr` is the immutable one, whose heap buffer
keeps no capacity.

## Layout

- `src/` — the verified library. Every public operation states over the text as UTF-8 bytes
  (`Seq<u8>`) what it returns and how it changes the string, including when it may fail.
  - `repr/` — the three representations and the length-word encoding that tells them apart.
  - `lean_string.rs`, `lean_str.rs` — the two string types and the laws that relate their
    operations.
  - `traits.rs` — conversions of strings, characters, booleans and integers.
  - `case.rs` — ASCII case mapping and the search for the first character a full Unicode case
    mapping changes.
  - `utf16.rs` — decoding of UTF-16.
  - `std_glue.rs` — the few calls into `std` that the proofs take on trust, each with the
    contract its documentation gives.
  - `bench.rs` — fixtures that generate sample texts.
- `tests/` — tests run against the compiled library.
- `app/` — `serde` and `arbitrary` support, `Display` for the errors, conversion of any
  `Display` value, and panicking conveniences.
