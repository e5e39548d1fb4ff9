[package]
name = "dep_catalog"
version = "0.1.0"
edition = "2021"
publish = false

[dependencies]
cargo_metadata = "0.15"
serde_json = "1"

[dev-dependencies]
semver = "1"
