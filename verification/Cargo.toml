[package]
name = "slopcop"
version = "0.1.0"
edition = "2021"
publish = false

[dependencies]
anyhow = "1"
clap = { version = "4", features = ["derive"] }
ignore = "*"
rayon = "1"
serde = { version = "1", features = ["derive"] }
serde_json = "1"
toml = "*"
tree-sitter = "*"
tree-sitter-python = "*"
