[package]
name = "state_root"
version = "0.1.0"
edition = "2021"
publish = false

[dependencies]
alloy-primitives = { version = "=0.8.26", features = ["map", "rlp"] }
alloy-rlp = { version = "=0.3.17", features = ["arrayvec"] }
derive_more = { version = "=1.0.0", features = ["deref"] }
metrics = "=0.24.6"
rayon = "=1.12.0"
revm-primitives = "=16.0.0"
revm-state = "=1.0.0"
tracing = "=0.1.44"

[dev-dependencies]
alloy-trie = { version = "=0.7.9", features = ["ethereum"] }
