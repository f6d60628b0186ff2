# binary_archive

Small, deterministic little-endian binary serialization with versioned,
length-delimited chunks, written in Verus: every function of the library
carries a contract that the verifier proves.

## Layout

- `src/archive/` — the streams. `ArchiveWriter` and `ArchiveReader` are
  seekable in-memory streams modelled as byte sequences with a position;
  `chunk.rs` holds chunk framing (`begin_chunk`, `write_chunk`, `read_chunk`,
  `skip_chunk`, `read_chunks`) and the field-versioned record format
  (`write_versioned_field`, `read_versioned_fields`); `policy.rs` holds the
  deleted-field policy.
- `src/codec/` — the `BinaryEncode` / `BinaryDecode` traits, each with a spec
  function (`spec_encoding`, `spec_decodes`) that its implementations define
  exactly, and the implementations for integers, `bool`, strings, `Option`,
  `Vec`, arrays and `Box`.
- `src/traits.rs` — `BinaryArchive` (`to_bytes`, `from_bytes`, ...), available
  on every type with both codecs.
- `src/schema.rs` — the decisions a derived struct codec makes: resolving the
  struct's and fields' settings, and what to do with stored fields and versions.
- `src/error.rs`, `src/text.rs` — errors and their exact messages.
- `src/laws.rs` — proof functions for the properties that span functions:
  each value decodes from its own encoding, chunks and field records read back
  as written, and streams of them are accepted.
- `app/` — plain Rust around the library: `std::io` adapters, the type-name
  helpers, delivery of warnings, the error type with `Display`, the
  `impl_binary_archive!` macro and codecs for floating-point values.
- `tests/` — scenario tests.
