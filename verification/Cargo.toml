[package]
name = "aidb"
version = "0.1.0"
edition = "2021"
publish = false

[dependencies]
crc32fast = "1"
snap = "1"
lz4 = "1"
crossbeam-skiplist = "0.1"
parking_lot = "0.12"
