[package]
name = "cargo_authors"
version = "0.1.0"
edition = "2021"
publish = false

[dependencies]
anyhow = "=1.0.104"
cargo_author = "=1.0.7"
clap = { version = "=4.6.7", features = ["derive"] }
ripemd = "=0.1.3"
serde = { version = "=1.0.229", features = ["derive"] }
serde_json = "=1.0.154"
