# pfserialize

An encoder and decoder for PFBinary v1, a compact binary format for PHP values
(null, bool, int, float, string, arrays), verified with Verus.

## Layout

- `src/` — the verified library.
  - `varint.rs`, `tags.rs`, `header.rs` — ZigZag/LEB128 integers, value tags, the document
    header with its optional XXH3 checksum.
  - `value.rs` — the value tree and its mathematical model (`Val`), codec equality.
  - `wire.rs` — the byte layout the encoder produces, as spec functions over `Val`.
  - `parse.rs` — what decoding a payload yields, as spec functions.
  - `encoder.rs`, `decoder.rs`, `host.rs`, `test_host.rs`, `string_table.rs` — the executable
    codec, proved against `wire.rs` and `parse.rs`.
  - `roundtrip.rs`, `laws.rs`, `limits.rs`, `trailing.rs`, `normalize.rs` — properties of the
    codec as a whole: decoding what was encoded gives back an equal value, value equality is an
    equivalence, accepted values respect the depth limit, bytes after a document do not change
    what is read from it, the comparison form is sorted and respects equality.
  - `hex.rs`, `abi.rs` — hex text for the command-line tool (reading back a dump gives the bytes), status codes of the C interface.
- `tests/` — tests run against the compiled library.
- `app/` — the command-line tool and the C interface (raw pointers and C callbacks), which
  call the library.
