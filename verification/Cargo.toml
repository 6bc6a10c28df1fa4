[package]
name = "localdb"
version = "0.1.0"
edition = "2021"
publish = false

[dependencies]
blake3 = "*"
twox-hash = "*"
shellexpand = "*"
walkdir = "*"
serde = { version = "*", features = ["derive"] }
toml = "*"
