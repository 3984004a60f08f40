[package]
name = "vca_eval"
version = "0.1.0"
edition = "2021"
publish = false

[dependencies]
alloy-primitives = { version = "*", features = ["serde"] }
k256 = { version = "0.13", features = ["ecdsa", "sha256"] }
sha3 = "0.10"
serde = { version = "1", features = ["derive"] }
serde_json = "1"
thiserror = "*"

[dev-dependencies]
rand = "0.8"
