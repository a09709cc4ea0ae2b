# serde_store

A binary serialization format compatible with the Haskell `store` library, verified
with Verus.

## Layout

- `src/` — the verified library.
  - `bytes.rs`: little-endian layouts of the fixed-width integers (written and read
    through `byteorder`).
  - `serializer.rs`: `StoreSerializer`, the writer; every write states the exact bytes
    it appends.
  - `deserializer.rs`: `StoreDeserializer`, the reader over a byte slice; every read
    states its result or its error, and where it leaves the position, by a spec
    function of the input.
  - `ordered_map.rs`: `OrderedMap`, a `BTreeMap` written after the ascending-order
    marker, and the checks made when one is read.
  - `value.rs`: whole values (`Value`), the shapes a reader expects (`Schema`),
    `to_bytes`/`from_bytes` and `encode_into`/`decode_into`, the order of the values that
    can be map keys, and the proved laws: decoding what was encoded gives the value back
    and reads exactly its bytes; every proper prefix of an encoding fails with the end of
    input; what is decoded has the schema's shape; re-encoding a decoded value gives the
    bytes that were read; bytes after a value are never read.
  - `text.rs`: decimal and hexadecimal text, UTF-8 checks through std.
  - `interop.rs`: the sample values exchanged with a Haskell peer.
- `app/` — serde's `Serializer`/`Deserializer` over the verified writer and reader,
  `OrderedMap`'s serde impls, the sample types with serde derives (floating-point and
  `Either` ones among them), and the HTTP client that runs the interoperability tests.
- `tests/` — tests of the library.
