[package]
name = "indexer_native"
version = "0.1.0"
edition = "2021"
publish = false

[dependencies]
sha2 = "=0.10.9"
tree-sitter = "=0.27.1"
tree-sitter-typescript = "=0.23.2"
tree-sitter-javascript = "=0.25.0"
tree-sitter-python = "=0.25.0"
tree-sitter-rust = "=0.24.2"
tree-sitter-go = "=0.25.0"
lazy_static = "=1.5.1"
serde = { version = "=1.0.229", features = ["derive"] }
napi = { version = "=2.16.17", features = ["napi6"] }
napi-derive = "=2.16.13"
