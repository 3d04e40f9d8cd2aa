# minicbor

A small codec for CBOR (RFC 8949), written in Verus: each encoding and
decoding step carries a contract over a mathematical model of the format,
and Verus proves the code against it.

## Layout

- `src/model.rs`: the format as mathematics — major types, heads and their
  lengths, big-endian bytes.
- `src/data.rs`: the data types — `Type`, `Tag`, `IanaTag`, `Tagged`, `Int`.
- `src/encode/`: sinks (`Write`, `Cursor`), the `Encoder`, the `Encode` and
  `CborLen` traits and their errors. A write is described by the pieces it
  writes and by how much room the sink has.
- `src/decode/`: what reading a data item from a position yields
  (`reads.rs`), the `Decoder`, the `Decode` trait, iterators over strings,
  arrays and maps, `skip` over whole items, arrays decoded into vectors and
  fixed-size arrays, and the size of an item from its initial bytes;
  `unique.rs`, `local.rs` and `short.rs` show that decoding the library's
  types has one outcome, reads only the bytes of the item, and fails for want
  of input on an item that was cut short.
- `src/roundtrip.rs`: what the decoder reads back where the encoder wrote a
  value, type by type and, through `roundtrips`, for the types built from
  them.
- `src/lib.rs`: `decode`, `encode`, `to_vec` and `len`, with and without a
  context, and the laws that relate them.

Floating-point values are not part of this crate.
