[package]
name = "rust_grapher"
version = "0.1.0"
edition = "2021"
publish = false

[dependencies]
cargo_metadata = "*"
clap = { version = "*", features = ["derive"] }
quote = "*"
serde_json = "*"
syn = { version = "*", features = ["full", "visit"] }
walkdir = "*"
