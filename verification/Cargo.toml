[package]
name = "keyring_store"
version = "0.1.0"
edition = "2021"
publish = false

[dependencies]
blake3 = "*"
redb = "*"
anyhow = "*"
clap = { version = "*", features = ["derive"] }
tracing = "*"
tracing-subscriber = { version = "*", features = ["env-filter"] }

[dev-dependencies]
bincode = "=1.3.3"
