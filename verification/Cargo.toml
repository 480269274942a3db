[package]
name = "gnrt"
version = "0.1.0"
edition = "2021"
publish = false

[dependencies]
semver = "1"
cargo_metadata = "0.15"
cargo-platform = "0.1"
serde_json = "1"
