[package]
name = "ske"
version = "0.1.0"
edition = "2021"
publish = false

[dependencies]
starlark_syntax = "*"
serde = { version = "1", features = ["derive"] }
toml = "*"
serde_json = "1"
clap = { version = "4", features = ["derive"] }
