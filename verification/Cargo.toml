[package]
name = "ondadb"
version = "0.1.0"
edition = "2021"
publish = false

[dependencies]
crossbeam-skiplist = "0.1"
memmap2 = "0.9"
parking_lot = "0.12"
self_cell = "1"
sha2 = "0.10"
xxhash-rust = { version = "0.8", features = ["xxh3"] }
