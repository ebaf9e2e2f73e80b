[package]
name = "pds"
version = "0.1.0"
edition = "2021"
publish = false

[dependencies]
blake3 = { version = "1", features = ["pure"] }
postcard = { version = "1", features = ["alloc"] }
serde_core = "1"
arc-swap = "1"
archery = "1"
equivalent = "1"
foldhash = "*"
rayon = "1"
arbitrary = "1"
