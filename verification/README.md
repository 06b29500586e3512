# flatstream

Framing of FlatBuffers payloads into byte streams, verified with Verus.

Each frame on the wire is a 4-byte little-endian payload length, an optional
little-endian checksum field (8 bytes for XXH3-64, 4 for CRC-32, 2 for
CRC-16), then the payload.

## Layout

- `src/` — the verified library.
  - `wire.rs`: little-endian fields and their value/byte laws.
  - `io.rs`: byte sources and sinks, and the counting wrappers whose ghost
    history makes every stream position and receipt exact.
  - `checksum.rs`: the checksum algorithms (calls into `xxhash-rust`,
    `crc32fast` and `crc16`).
  - `framing.rs`: framers, deframers and their adapters, with the frame
    parsing model and the roundtrip and stream read-back laws.
  - `validation.rs`: payload validators (the structural one calls the
    `flatbuffers` verifier).
  - `reader.rs`, `writer.rs`: sequential readers and writers with receipts,
    poisoning, memory policies and post-write observation; positioned reads.
  - `policy.rs`, `durability.rs`: memory-reclamation and checkpoint policies.
  - `recover.rs`: crash recovery of append-only journals and its exactness laws.
  - `render.rs`: the text of an error's message, assembled in verified code.

The extension traits (`Checksum`, `Framer`, `Deframer`, `Validator`,
`SyncPolicy`, `MemoryPolicy`, `PostWriteObserver`) describe their behaviour
through specification functions guarded by an `obeys_*` predicate: the
implementations in `src/` set it and are proved against it, while an
implementation written outside verified code keeps the default (`false`), so
nothing is claimed about it beyond the unconditional clauses of the trait.
- `tests/` — executable tests against the compiled library.
- `app/` — the parts that need the standard I/O traits, FlatBuffers builders
  and error-type derives: adapters from `std::io`, the simple writing mode,
  typed reading, and the `thiserror` copy of the error type.
