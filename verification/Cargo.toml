[package]
name = "santa_lib"
version = "0.1.0"
edition = "2021"
publish = false

[dependencies]
alloy-consensus = { version = "=2.5.0", features = ["serde"] }
alloy-eips = { version = "=2.5.0", features = ["serde"] }
alloy-primitives = { version = "=1.7.3", features = ["serde"] }
alloy-rlp = "=0.3.16"
alloy-trie = "=0.9.8"
tiny-keccak = { version = "=2.0.2", features = ["keccak"] }
serde = { version = "=1.0.229", features = ["derive"] }
serde_json = "=1.0.154"
rand = "=0.9.5"
clap = { version = "=4.6.7", features = ["derive"] }
eyre = "=0.6.14"
tracing = "=0.1.44"
futures = "=0.3.34"
tokio = { version = "=1.54.1", features = ["rt-multi-thread", "macros"] }
sp1-zkvm = "*"
