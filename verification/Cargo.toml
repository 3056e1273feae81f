[package]
name = "ingodb"
version = "0.1.0"
edition = "2021"
publish = false

[dependencies]
blake3 = { version = "1", features = ["pure"] }
crc32fast = "1"
lz4_flex = "0.11"
parking_lot = "0.12"
thiserror = "2"
uuid = { version = "1", features = ["v7"] }
