[package]
name = "internal_checks"
version = "0.1.0"
edition = "2021"
publish = false

[dependencies]
syn = { version = "2", features = ["full", "extra-traits"] }
proc-macro2 = { version = "1", features = ["span-locations"] }
toml = "0.8"
clap = { version = "4", features = ["derive"] }
anyhow = "1"
cargo_metadata = "0.19"
walkdir = "2"
