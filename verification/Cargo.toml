[package]
name = "dbmigrator"
version = "0.1.0"
edition = "2021"
publish = false

[dependencies]
sha3 = "0.10"
base64 = "0.13"
serde = { version = "1", features = ["derive"] }
toml = "0.5"
glob = "0.3"
parking_lot = "0.12"
postgres = "0.19"
anyhow = "1"
