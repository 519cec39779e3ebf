[package]
name = "djqlint"
version = "0.1.0"
edition = "2021"
publish = false

[dependencies]
tree-sitter = "0.24"
tree-sitter-python = "0.23"
regex = "1"
anyhow = "1"
clap = { version = "4", features = ["derive"] }
serde = { version = "1", features = ["derive"] }
serde_json = "1"
toml = "0.8"
ignore = "0.4"
rayon = "1"
miette = { version = "7", features = ["fancy"] }
tracing = "0.1"
tracing-subscriber = { version = "0.3", features = ["env-filter", "fmt"] }
