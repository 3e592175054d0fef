[package]
name = "hecate_pkg"
version = "0.1.0"
edition = "2021"
publish = false

[dependencies]
semver = "*"
sha2 = "*"
blake3 = "*"
hex = "*"
zstd = "*"
serde = { version = "*", features = ["derive"] }
serde_json = "*"
toml = "*"
tar = "*"
anyhow = "*"
futures = "*"
tokio = { version = "*", features = ["rt", "rt-multi-thread", "macros", "fs", "io-util"] }
reqwest = { version = "*", default-features = false, features = ["rustls-tls", "stream"] }
