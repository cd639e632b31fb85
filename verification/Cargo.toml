[package]
name = "scopegrep"
version = "0.1.0"
edition = "2021"
publish = false

[dependencies]
anyhow = "*"
clap = { version = "*", features = ["derive"] }
ignore = "*"
tree-sitter = "*"
tree-sitter-python = "*"
