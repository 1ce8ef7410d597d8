[package]
name = "fastmdlint"
version = "0.1.0"
edition = "2021"
publish = false

[dependencies]
regex = "1"
serde_json = "1"
toml = "*"
similar = "2"
globset = "*"
ignore = "*"
clap = { version = "4", features = ["derive"] }
