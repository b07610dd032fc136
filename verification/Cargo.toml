[package]
name = "ncdu_import"
version = "1.0.0"
edition = "2021"
publish = false

[dependencies]
clap = { version = "4", features = ["derive"] }
csv = "1"
eyre = "0.6"
serde = { version = "1", features = ["derive"] }
serde_json = "1"
