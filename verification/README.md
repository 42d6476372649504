# kowito_json

A JSON parser and serializer whose core is verified with Verus.

The parser first scans a document into a *tape*: the offsets of its
structural bytes (`{ } [ ] : ,` and the quotes that open and close strings),
tagged with their kind. Reading then walks the tape; numbers, booleans and
`null` have no entry of their own and are read from the bytes after the
previous entry. Strings are kept as raw slices and their escapes are decoded
on access.

## Layout

- `src/scanner/` — the structural scanner (a 32-byte block fast path over
  byte masks, and a byte-at-a-time state machine).
- `src/parse.rs` — the tape model, the `Parser` and its reading steps, and
  line/column locations for errors.
- `src/deser.rs` — the `Deserialize` trait, its impls for the standard types
  (a map holds each key with the value of its last occurrence), a record
  reader that reads members into fields by key (renamed and skipped fields
  included), the head of an enum value (a unit variant's plain string, or
  the one-member object of a variant with data), `from_slice` and
  `from_str`.
- `src/value.rs` — the dynamic `Value` type: reading, access and text.
- `src/fast_user.rs` — an example record with a schema-specialised writer and
  reader.
- `src/string.rs` — lazily decoded string bodies (`KString`).
- `src/number.rs` — integer text to integers.
- `src/serialize/` — exact string escaping, the `Serialize` trait, and
  in-place writing into caller-sized buffers (`SerializeRaw`).
- `src/serde_ser.rs` — compact and pretty formatters and the byte-level core
  of the serializer backend.
- `src/schema.rs` — field-name hashing, key prefixes, the field that a key
  is read into, and the pieces that a record (fields skipped statically or
  by a test on the value), a unit struct and each kind of enum variant are
  written as.
- `src/arena.rs`, `src/view.rs` — a reusable tape buffer and a borrowed view.
- `src/laws.rs` — read-back properties: strings, integers, booleans, arrays
  of integers, unit variants and the example record read back as written;
  reading bytes and the text they encode agree.
- `app/` — the `serde::Serializer` front end (`to_string`, `to_vec`,
  `to_writer`, pretty variants), the thread-local tape buffer,
  floating-point numbers, and an error type with the standard error traits.

Every function in `src/` states its result in its contract; the few calls
into the standard library and `itoa` whose behaviour Verus cannot read are
wrapped in small trusted functions whose contracts say what the
documentation promises (among them the maps' `insert`, stated over the
keys' text).
