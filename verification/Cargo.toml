[package]
name = "cosdata"
version = "0.1.0"
edition = "2021"
publish = false

[dependencies]
arcshift = "*"
byteorder = "1"
dashmap = "*"
lmdb = "0.8"
rand = "0.8"
rayon = "1"
rkyv = "0.7"
serde = { version = "1", features = ["derive"] }
