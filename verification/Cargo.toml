[package]
name = "ledge"
version = "0.1.0"
edition = "2021"
publish = false

[dependencies]
arc-swap = "1"
async-trait = "0.1"
bincode = { version = "2", features = ["serde"] }
blake3 = "1"
bytes = "1"
capnp = "*"
crc32fast = "1"
flate2 = "1"
futures = "0.3"
hex = "0.4"
object_store = { version = "0.11", features = ["aws"] }
openraft = { version = "0.9", features = ["serde", "storage-v2"] }
rand = "0.8"
serde = { version = "1", features = ["derive"] }
sha1 = "0.10"
tempfile = "3"
tokio = { version = "1", features = ["fs", "io-util", "macros", "rt", "rt-multi-thread", "sync", "time"] }
tracing = "0.1"
