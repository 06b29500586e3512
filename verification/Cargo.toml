[package]
name = "flatstream"
version = "0.2.8"
edition = "2021"
publish = false

[dependencies]
flatbuffers = "25"
crc32fast = "1"
crc16 = "0.4"
xxhash-rust = { version = "0.8", features = ["xxh3"] }
thiserror = "2"
