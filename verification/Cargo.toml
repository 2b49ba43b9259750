[package]
name = "panache"
version = "0.1.0"
edition = "2021"
publish = false

[dependencies]
lsp-types = "=0.97.0"

[dev-dependencies]
tempfile = "=3.27.0"
