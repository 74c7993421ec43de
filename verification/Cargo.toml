[package]
name = "quirk"
version = "0.1.0"
edition = "2021"
publish = false

[dependencies]
bytes = "1"
ed25519-dalek = { version = "2", features = ["rand_core"] }
rand = "0.8"
thiserror = "2"
tokio = { version = "1", features = ["io-util", "macros", "net", "rt", "rt-multi-thread", "sync", "time"] }
